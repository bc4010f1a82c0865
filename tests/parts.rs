use timing_wheel::{
    convert_delay, BucketIndexes, BucketLayer, ClockHands, SystemTimer, Task, TestingTimer, Timer,
};
use timing_wheel::timer::to_millis;

#[test]
fn clock_hands_digits() {
    let hands = ClockHands::new(4099);
    assert_eq!(hands.len(), 3);
    assert_eq!(hands.get(0), Some(3));
    assert_eq!(hands.get(1), Some(0));
    assert_eq!(hands.get(2), Some(1));
    assert_eq!(hands.get(3), None);
    assert_eq!(hands.index(5), 0);
    assert_eq!(hands.timestamp(), 4099);
    assert_eq!(ClockHands::new(0).len(), 0);
}

#[test]
fn clock_hands_carry() {
    let mut hands = ClockHands::new(63);
    assert!(hands.advance_until(100));
    assert_eq!(hands.timestamp(), 64);
    assert_eq!(hands.len(), 2);
    assert_eq!(hands.get(0), Some(0));
    assert_eq!(hands.get(1), Some(1));
    let mut hands = ClockHands::new(4095);
    assert!(hands.advance_until(4096));
    assert_eq!((hands.len(), hands.get(2)), (3, Some(1)));
    assert!(!hands.advance_until(4096));
    assert_eq!(hands.timestamp(), 4096);
}

#[test]
fn clock_hands_reset_and_set() {
    let mut hands = ClockHands::new(1000);
    hands.reset();
    assert_eq!((hands.len(), hands.timestamp(), hands.index(1)), (0, 0, 0));
    hands.set_timestamp(65);
    assert_eq!((hands.len(), hands.get(0), hands.get(1)), (2, Some(1), Some(1)));
    hands.set_timestamp(usize::MAX);
    assert_eq!(hands.len(), 11);
    assert_eq!(hands.get(10), Some(15));
}

#[test]
fn clock_hands_walk_matches_digits() {
    let mut hands = ClockHands::new(0);
    for t in 1..10000usize {
        assert!(hands.advance_until(t));
        let fresh = ClockHands::new(t);
        assert_eq!(hands.len(), fresh.len());
        for i in 0..hands.len() {
            assert_eq!(hands.get(i), Some((t >> (6 * i)) & 63));
        }
    }
}

#[test]
fn bucket_indexes_digits_and_advance() {
    let mut idx = BucketIndexes::new(127);
    assert_eq!(idx.len(), 2);
    assert_eq!((idx.get(0), idx.get(1)), (Some(63), Some(1)));
    idx.advance();
    assert_eq!((idx.get(0), idx.get(1)), (Some(0), Some(2)));
    let mut idx = BucketIndexes::new(0);
    idx.advance();
    assert_eq!((idx.len(), idx.get(0), idx.index(1)), (1, Some(1), 0));
}

#[test]
fn bucket_layer_insert_and_dropdown() {
    let mut layer = BucketLayer::new(1);
    assert!(layer.is_empty());
    let a = Task::new(7, 0, 130, false);
    let b = Task::new(8, 0, 140, false);
    layer.insert(&a);
    layer.insert(&b);
    assert!(!layer.is_empty());
    assert_eq!(layer.dropdown(1), None);
    assert_eq!(layer.dropdown(2), Some(vec![7, 8]));
    assert!(layer.is_empty());
}

#[test]
fn task_fields_and_reschedule() {
    let mut task = Task::new(3, 10, 100, true);
    assert_eq!(task.get_id(), 3);
    assert_eq!(task.get_execute_at(), 110);
    assert_eq!(task.layer_size(), 2);
    assert_eq!((task.get_bucket_index(0), task.get_bucket_index(1)), (46, 1));
    assert!(task.is_interval() && task.has_ref());
    task.clear_ref();
    assert!(!task.has_ref());
    task.set_scheduled_at(200);
    assert_eq!(task.get_execute_at(), 300);
    let late = Task::new(4, usize::MAX - 1, 5, false);
    assert_eq!(late.get_execute_at(), usize::MAX);
}

#[test]
fn delay_conversion() {
    assert_eq!(convert_delay(0), 1);
    assert_eq!(convert_delay(-3), 1);
    assert_eq!(convert_delay(250), 250);
    assert_eq!(convert_delay(0xFFFF_FFFF), 0xFFFF_FFFF);
    assert_eq!(convert_delay(0x1_0000_0000), 0xFFFF_FFFF);
}

#[test]
fn millisecond_conversion() {
    assert_eq!(to_millis(2, 345), 2345);
    assert_eq!(to_millis(0, 999), 999);
    assert_eq!(to_millis(u64::MAX, 0), usize::MAX);
}

#[test]
fn testing_timer_moves_when_told() {
    let mut timer = TestingTimer::new();
    assert_eq!(timer.now(), 0);
    timer.advance(42);
    assert_eq!(timer.now(), 42);
    timer.reset();
    assert_eq!(timer.now(), 0);
}

#[test]
fn system_timer_counts_milliseconds_from_start() {
    let mut timer = SystemTimer::new();
    let first = timer.now();
    assert!(first < 60_000);
    let mut spin = 0u64;
    while timer.now() < first + 2 {
        spin += 1;
        assert!(spin < 1_000_000_000);
    }
    assert!(timer.now() >= first + 2);
    timer.reset();
    assert!(timer.now() < 60_000);
}

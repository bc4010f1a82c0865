use timing_wheel::{TestingTimer, TimingWheel};

fn setup() -> (TimingWheel, TestingTimer) {
    (TimingWheel::new(), TestingTimer::new())
}

#[test]
fn basic_timeout() {
    let (mut wheel, mut timer) = setup();
    let id = wheel.register(&mut timer, 100, false);
    timer.advance(99);
    assert!(wheel.tick(&timer).is_empty());
    timer.advance(1);
    assert_eq!(wheel.tick(&timer), vec![id]);
    assert!(wheel.is_empty());
}

#[test]
fn layer_crossing() {
    let (mut wheel, mut timer) = setup();
    let id = wheel.register(&mut timer, 64, false);
    assert_eq!(wheel.layers_len(), 2);
    timer.advance(63);
    assert!(wheel.tick(&timer).is_empty());
    timer.advance(1);
    assert_eq!(wheel.tick(&timer), vec![id]);
    assert!(wheel.is_empty());
}

#[test]
fn interval_fires_each_period() {
    let (mut wheel, mut timer) = setup();
    let id = wheel.register(&mut timer, 10, true);
    let mut fired = 0;
    for _ in 0..5 {
        timer.advance(10);
        let due = wheel.tick(&timer);
        assert_eq!(due, vec![id]);
        fired += due.len();
        assert!(!wheel.is_empty());
    }
    assert_eq!(fired, 5);
}

#[test]
fn concurrent_deadlines_fire_in_order() {
    let (mut wheel, mut timer) = setup();
    let a = wheel.register(&mut timer, 5, false);
    let b = wheel.register(&mut timer, 5, false);
    let c = wheel.register(&mut timer, 5, false);
    timer.advance(5);
    assert_eq!(wheel.tick(&timer), vec![a, b, c]);
    assert!(wheel.is_empty());
}

#[test]
fn refresh_postpones() {
    let (mut wheel, mut timer) = setup();
    let id = wheel.register(&mut timer, 100, false);
    timer.advance(50);
    assert!(wheel.tick(&timer).is_empty());
    wheel.refresh(&timer, id);
    assert_eq!(wheel.execute_at(id), Some(150));
    timer.advance(50);
    assert!(wheel.tick(&timer).is_empty());
    timer.advance(50);
    assert_eq!(wheel.tick(&timer), vec![id]);
    timer.advance(100);
    assert!(wheel.tick(&timer).is_empty());
    assert!(wheel.is_empty());
}

#[test]
fn unregister_before_fire() {
    let (mut wheel, mut timer) = setup();
    let id = wheel.register(&mut timer, 100, false);
    timer.advance(50);
    assert!(wheel.tick(&timer).is_empty());
    wheel.unregister(id);
    timer.advance(100);
    assert!(wheel.tick(&timer).is_empty());
    assert!(wheel.is_empty());
    assert!(wheel.is_ref_empty());
    assert_eq!(wheel.layers_len(), 0);
}

#[test]
fn ref_and_unref() {
    let (mut wheel, mut timer) = setup();
    let a = wheel.register(&mut timer, 10, false);
    let b = wheel.register(&mut timer, 20, false);
    assert!(wheel.has_ref(a) && wheel.has_ref(b));
    wheel.clear_ref(a);
    assert!(!wheel.has_ref(a));
    assert!(!wheel.is_ref_empty());
    wheel.clear_ref(b);
    assert!(wheel.is_ref_empty());
    wheel.set_ref(b);
    assert!(!wheel.is_ref_empty());
    timer.advance(10);
    assert_eq!(wheel.tick(&timer), vec![a]);
    assert!(!wheel.is_ref_empty());
    timer.advance(10);
    assert_eq!(wheel.tick(&timer), vec![b]);
    assert!(wheel.is_ref_empty());
}

#[test]
fn deep_deadline() {
    let (mut wheel, mut timer) = setup();
    let id = wheel.register(&mut timer, 64 * 64 + 3, false);
    assert_eq!(wheel.layers_len(), 3);
    timer.advance(4098);
    assert!(wheel.tick(&timer).is_empty());
    timer.advance(1);
    assert_eq!(wheel.tick(&timer), vec![id]);
    assert!(wheel.is_empty());
    assert_eq!(wheel.layers_len(), 0);
}

#[test]
fn deep_deadline_in_one_tick() {
    let (mut wheel, mut timer) = setup();
    let id = wheel.register(&mut timer, 4099, false);
    timer.advance(4099);
    assert_eq!(wheel.tick(&timer), vec![id]);
    assert_eq!(wheel.layers_len(), 0);
}

#[test]
fn zero_delay_fires_next_millisecond() {
    let (mut wheel, mut timer) = setup();
    let id = wheel.register(&mut timer, 0, false);
    assert_eq!(wheel.execute_at(id), Some(1));
    assert!(wheel.tick(&timer).is_empty());
    timer.advance(1);
    assert_eq!(wheel.tick(&timer), vec![id]);
}

#[test]
fn negative_delay_is_clamped() {
    let (mut wheel, mut timer) = setup();
    let id = wheel.register(&mut timer, -50, false);
    assert_eq!(wheel.execute_at(id), Some(1));
}

#[test]
fn max_delay_is_kept_and_larger_clamped() {
    let (mut wheel, mut timer) = setup();
    let a = wheel.register(&mut timer, 0xFFFF_FFFF, false);
    let b = wheel.register(&mut timer, i64::MAX, false);
    assert_eq!(wheel.execute_at(a), Some(0xFFFF_FFFF));
    assert_eq!(wheel.execute_at(b), Some(0xFFFF_FFFF));
    assert!(wheel.layers_len() <= 11);
}

#[test]
fn interval_of_one_fires_every_tick() {
    let (mut wheel, mut timer) = setup();
    let id = wheel.register(&mut timer, 1, true);
    for _ in 0..200 {
        timer.advance(1);
        assert_eq!(wheel.tick(&timer), vec![id]);
    }
    timer.advance(5);
    assert_eq!(wheel.tick(&timer), vec![id, id, id, id, id]);
}

#[test]
fn register_then_unregister_restores() {
    let (mut wheel, mut timer) = setup();
    let a = wheel.register(&mut timer, 30, false);
    let len = wheel.len();
    let b = wheel.register(&mut timer, 40, true);
    wheel.unregister(b);
    assert_eq!(wheel.len(), len);
    assert!(!wheel.has_ref(b));
    assert!(wheel.has_ref(a));
    assert_eq!(wheel.execute_at(b), None);
    timer.advance(40);
    assert_eq!(wheel.tick(&timer), vec![a]);
}

#[test]
fn ref_toggles_are_idempotent() {
    let (mut wheel, mut timer) = setup();
    let a = wheel.register(&mut timer, 30, false);
    wheel.set_ref(a);
    wheel.set_ref(a);
    assert!(wheel.has_ref(a));
    wheel.clear_ref(a);
    wheel.clear_ref(a);
    assert!(!wheel.has_ref(a));
    assert!(wheel.is_ref_empty());
    wheel.set_ref(a);
    assert!(!wheel.is_ref_empty());
    wheel.clear_ref(99);
    wheel.set_ref(99);
    assert!(!wheel.has_ref(99));
}

#[test]
fn refresh_then_tick_fires_once() {
    let (mut wheel, mut timer) = setup();
    let id = wheel.register(&mut timer, 70, false);
    timer.advance(30);
    wheel.refresh(&timer, id);
    timer.advance(70);
    assert_eq!(wheel.tick(&timer), vec![id]);
    timer.advance(200);
    assert!(wheel.tick(&timer).is_empty());
}

#[test]
fn ids_are_fresh_and_increasing() {
    let (mut wheel, mut timer) = setup();
    let a = wheel.register(&mut timer, 10, false);
    let b = wheel.register(&mut timer, 10, false);
    let c = wheel.register(&mut timer, 10, false);
    assert_eq!((a, b, c), (0, 1, 2));
    assert_eq!(wheel.new_id(), 3);
}

#[test]
fn idle_wheel_restarts_time() {
    let (mut wheel, mut timer) = setup();
    let a = wheel.register(&mut timer, 10, false);
    timer.advance(10);
    assert_eq!(wheel.tick(&timer), vec![a]);
    timer.advance(500);
    let b = wheel.register(&mut timer, 10, false);
    assert_eq!(timer.elapsed(), 0);
    assert_eq!(wheel.timestamp(), 0);
    assert_eq!(wheel.execute_at(b), Some(10));
}

#[test]
fn next_due_steps_one_task_at_a_time() {
    let mut wheel = TimingWheel::new();
    let a = wheel.register_at(0, 5, false);
    let b = wheel.register_at(0, 5, false);
    assert_eq!(wheel.next_due(10), Some(a));
    assert_eq!(wheel.timestamp(), 5);
    assert_eq!(wheel.next_due(10), Some(b));
    assert_eq!(wheel.next_due(10), None);
    assert!(wheel.is_empty());
}

#[test]
fn discard_due_drops_the_rest() {
    let mut wheel = TimingWheel::new();
    let a = wheel.register_at(0, 5, false);
    let b = wheel.register_at(0, 5, true);
    let c = wheel.register_at(0, 9, false);
    assert_eq!(wheel.next_due(20), Some(a));
    wheel.discard_due();
    assert_eq!(wheel.execute_at(b), None);
    assert_eq!(wheel.execute_at(c), Some(9));
    assert_eq!(wheel.tick_at(20), vec![c]);
    assert!(wheel.is_empty());
}

#[test]
fn tick_at_reports_interval_and_one_shot() {
    let mut wheel = TimingWheel::new();
    let a = wheel.register_at(0, 3, true);
    let b = wheel.register_at(0, 7, false);
    assert_eq!(wheel.tick_at(9), vec![a, a, b, a]);
    assert_eq!(wheel.timestamp(), 9);
    assert_eq!(wheel.execute_at(a), Some(12));
}

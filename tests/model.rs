use std::collections::HashMap;

use timing_wheel::TimingWheel;

struct Lcg(u64);

impl Lcg {
    fn next(&mut self, bound: u64) -> u64 {
        self.0 = self.0.wrapping_mul(6364136223846793005).wrapping_add(1442695040888963407);
        (self.0 >> 33) % bound
    }
}

/// Each task fires in exactly the millisecond of its deadline, intervals
/// again every period, whatever layer it was filed in.
#[test]
fn every_task_fires_at_its_deadline() {
    let mut rng = Lcg(7);
    let mut wheel = TimingWheel::new();
    let mut model: HashMap<u32, (usize, usize, bool)> = HashMap::new();
    for _ in 0..400 {
        let delay = 1 + rng.next(6000) as usize;
        let interval = rng.next(5) == 0;
        let id = wheel.register_at(0, delay as i64, interval);
        model.insert(id, (delay, delay, interval));
    }
    for now in 1..=9000usize {
        if now % 97 == 0 {
            let victim = rng.next(400) as u32;
            wheel.unregister(victim);
            model.remove(&victim);
        }
        if now % 89 == 0 {
            let id = rng.next(400) as u32;
            wheel.refresh_at(id, now);
            if let Some(entry) = model.get_mut(&id) {
                entry.0 = now + entry.1;
            }
        }
        let mut fired = wheel.tick_at(now);
        fired.sort();
        let mut expected: Vec<u32> = model
            .iter()
            .filter(|(_, (at, _, _))| *at == now)
            .map(|(id, _)| *id)
            .collect();
        expected.sort();
        assert_eq!(fired, expected, "at {}", now);
        for id in expected {
            let (at, delay, interval) = model[&id];
            if interval {
                model.insert(id, (at + delay, delay, interval));
            } else {
                model.remove(&id);
            }
        }
        assert_eq!(wheel.len(), model.len());
    }
}

/// Jumping ahead fires each one-shot task once, and all of them by the end.
#[test]
fn jumps_fire_each_task_once() {
    let mut rng = Lcg(11);
    let mut wheel = TimingWheel::new();
    let mut deadlines: HashMap<u32, usize> = HashMap::new();
    for _ in 0..300 {
        let delay = 1 + rng.next(300_000) as usize;
        let id = wheel.register_at(0, delay as i64, false);
        deadlines.insert(id, delay);
    }
    let mut seen: HashMap<u32, usize> = HashMap::new();
    let mut now = 0usize;
    while now < 300_001 {
        now += 1 + rng.next(5000) as usize;
        for id in wheel.tick_at(now) {
            assert!(deadlines[&id] <= now);
            *seen.entry(id).or_insert(0) += 1;
        }
        for (id, at) in deadlines.iter() {
            assert_eq!(seen.contains_key(id), *at <= now);
        }
    }
    assert_eq!(seen.len(), 300);
    assert!(seen.values().all(|n| *n == 1));
    assert!(wheel.is_empty());
    assert_eq!(wheel.layers_len(), 0);
}

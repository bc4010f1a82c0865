use vstd::prelude::*;

use std::time::{Duration, Instant};

verus! {

/// A millisecond clock that can be restarted.
pub trait Timer {
    /// Restarts the clock at zero.
    fn reset(&mut self);

    /// Milliseconds since the last restart.
    fn now(&self) -> usize;
}

#[verifier::external_type_specification]
#[verifier::external_body]
pub struct ExInstant(Instant);

/// Relies on `Instant::now`: a reading of the monotonic clock.
#[verifier::external_body]
fn instant_now() -> Instant {
    Instant::now()
}

/// Relies on `Instant::elapsed`: the time since `start`, zero if the clock
/// has not moved past it.
#[verifier::external_body]
fn elapsed_since(start: &Instant) -> Duration {
    start.elapsed()
}

/// Relies on `Duration::as_secs`: the whole seconds of `d`.
pub assume_specification[ Duration::as_secs ](d: &Duration) -> u64;

/// Relies on `Duration::subsec_millis`: the milliseconds past the whole
/// seconds, always below a thousand.
pub assume_specification[ Duration::subsec_millis ](d: &Duration) -> (r: u32)
    ensures
        r < 1000,
;

/// The millisecond count of `secs` seconds and `millis` milliseconds, or
/// `usize::MAX` when it does not fit.
pub open spec fn millis_of(secs: nat, millis: nat) -> nat {
    if 1000 * secs + millis <= usize::MAX {
        1000 * secs + millis
    } else {
        usize::MAX as nat
    }
}

/// Milliseconds in `secs` seconds and `millis` milliseconds, stopping at the
/// largest `usize`.
pub fn to_millis(secs: u64, millis: u32) -> (r: usize)
    requires
        millis < 1000,
    ensures
        r == millis_of(secs as nat, millis as nat),
{
    let limit: u64 = (usize::MAX / 1000) as u64;
    if secs > limit {
        assert(1000 * secs + millis > usize::MAX) by (nonlinear_arith)
            requires
                secs >= limit + 1,
                limit == usize::MAX / 1000,
        ;
        return usize::MAX;
    }
    let s = secs as usize;
    assert(1000 * s <= usize::MAX) by (nonlinear_arith)
        requires
            s <= usize::MAX / 1000,
    ;
    (1000 * s).saturating_add(millis as usize)
}

/// The machine's monotonic clock.
pub struct SystemTimer {
    started_at: Instant,
}

impl SystemTimer {
    /// A clock started now.
    pub fn new() -> Self {
        SystemTimer { started_at: instant_now() }
    }
}

impl Timer for SystemTimer {
    fn reset(&mut self) {
        self.started_at = instant_now();
    }

    fn now(&self) -> usize {
        let elapsed = elapsed_since(&self.started_at);
        to_millis(elapsed.as_secs(), elapsed.subsec_millis())
    }
}

/// A clock that moves only when told to.
#[derive(Debug)]
pub struct TestingTimer {
    tick: u32,
}

impl View for TestingTimer {
    type V = nat;

    closed spec fn view(&self) -> nat {
        self.tick as nat
    }
}

impl TestingTimer {
    /// A clock at zero.
    pub fn new() -> (r: Self)
        ensures
            r@ == 0,
    {
        TestingTimer { tick: 0 }
    }

    /// Moves the clock forward by `tick` milliseconds.
    pub fn advance(&mut self, tick: u32)
        requires
            old(self)@ + tick <= u32::MAX,
        ensures
            final(self)@ == old(self)@ + tick,
    {
        self.tick = self.tick + tick;
    }

    /// Milliseconds since the last restart.
    pub fn elapsed(&self) -> (r: usize)
        ensures
            r == self@,
    {
        self.tick as usize
    }
}

impl Timer for TestingTimer {
    /// Moves the clock back to zero.
    fn reset(&mut self)
        ensures
            final(self)@ == 0,
    {
        self.tick = 0;
    }

    /// The milliseconds the clock has been moved forward since the last
    /// restart.
    fn now(&self) -> (r: usize)
        ensures
            r == self@,
    {
        self.tick as usize
    }
}

} // verus!

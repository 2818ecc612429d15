//! A timer over caller-supplied millisecond timestamps.

use vstd::prelude::*;

verus! {

/// Rings once more than `duration_ms` has passed since it was last reset.
#[derive(Clone, Copy, Debug, PartialEq, Eq, Structural)]
pub struct Timer {
    pub duration_ms: u64,
    pub last_ms: u64,
}

/// Whether a timer reset at `last` with period `duration` rings at `now`;
/// a `now` before `last` counts as no time passed.
pub open spec fn rings(duration: u64, last: u64, now: u64) -> bool {
    now > last && now - last > duration
}

impl Timer {
    /// A timer of period `duration_ms`, reset at `now_ms`.
    pub fn new(duration_ms: u64, now_ms: u64) -> (r: Timer)
        ensures
            r == (Timer { duration_ms, last_ms: now_ms }),
    {
        Timer { duration_ms, last_ms: now_ms }
    }

    /// Restarts the period at `now_ms`.
    pub fn reset(&mut self, now_ms: u64)
        ensures
            *final(self) == (Timer { duration_ms: old(self).duration_ms, last_ms: now_ms }),
    {
        self.last_ms = now_ms;
    }

    /// Whether the period has run out at `now_ms`.
    pub fn ringing(&self, now_ms: u64) -> (r: bool)
        ensures
            r == rings(self.duration_ms, self.last_ms, now_ms),
    {
        now_ms.saturating_sub(self.last_ms) > self.duration_ms
    }
}

} // verus!

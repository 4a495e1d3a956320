//! Rate limiter for progress notifications.
//!
//! The analyzer offers a progress payload at every directory boundary; the
//! debouncer decides whether the notification is actually delivered.  The
//! first offer always fires; a later offer fires only when more than the
//! configured delay has passed since the last delivered one.  The clock is
//! injected: callers pass the current time in milliseconds, so the decision
//! logic is independent of any time source.

use vstd::prelude::*;

verus! {

/// Decides which of a stream of timestamped offers are delivered, keeping
/// at least `delay_ms` between two deliveries.
pub struct Debounce {
    /// Minimum number of milliseconds between two deliveries.
    pub delay_ms: u64,
    /// Clock reading at the last delivered offer, if any.
    pub last_run: Option<u64>,
}

impl Debounce {
    /// Whether an offer at `now_ms` is delivered: always on the first offer,
    /// afterwards only when more than `delay_ms` has passed since the last
    /// delivered one.  A clock reading at or before the last delivery never
    /// fires, mirroring saturating elapsed-time arithmetic.
    pub open spec fn spec_should_fire(self, now_ms: u64) -> bool {
        match self.last_run {
            None => true,
            Some(then) => now_ms > then && now_ms - then > self.delay_ms,
        }
    }

    pub fn new(delay_ms: u64) -> (d: Debounce)
        ensures
            d.delay_ms == delay_ms,
            d.last_run is None,
    {
        Debounce { delay_ms, last_run: None }
    }

    /// Reports whether the offer at `now_ms` is delivered and, when it is,
    /// records `now_ms` as the time of the last delivery.
    pub fn maybe_run(&mut self, now_ms: u64) -> (fired: bool)
        ensures
            fired == old(self).spec_should_fire(now_ms),
            final(self).delay_ms == old(self).delay_ms,
            final(self).last_run == if fired {
                Some(now_ms)
            } else {
                old(self).last_run
            },
    {
        match self.last_run {
            None => {
                self.last_run = Some(now_ms);
                true
            },
            Some(then) => {
                if now_ms > then && now_ms - then > self.delay_ms {
                    self.last_run = Some(now_ms);
                    true
                } else {
                    false
                }
            },
        }
    }
}

} // verus!

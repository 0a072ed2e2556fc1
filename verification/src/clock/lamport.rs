//! Lamport scalar clocks: one counter per process satisfying the clock
//! condition (if `a` happened before `b` then `C(a) < C(b)`).
use vstd::prelude::*;

verus! {

/// One process's Lamport clock. Starts at 0, meaning "no event yet"; the
/// first event is time 1.
#[derive(Debug, Clone, Copy, PartialEq, Eq, Structural)]
pub struct LamportClock {
    time: u64,
}

impl LamportClock {
    pub closed spec fn spec_time(&self) -> u64 {
        self.time
    }

    pub fn new() -> (c: LamportClock)
        ensures
            c.time() == 0,
    {
        LamportClock { time: 0 }
    }

    /// The time of this process's most recent event (0 if none).
    #[verifier::when_used_as_spec(spec_time)]
    pub fn time(&self) -> (t: u64)
        ensures
            t == self.time(),
    {
        self.time
    }

    /// A local or send event: advance by one and return the event's time.
    pub fn tick(&mut self) -> (t: u64)
        requires
            old(self).time() < u64::MAX,
        ensures
            t == old(self).time() + 1,
            final(self).time() == t,
    {
        self.time = self.time + 1;
        self.time
    }

    /// A receive event for a message stamped `remote`: jump past both this
    /// clock and the sender's, so the receive is strictly later than the
    /// send that caused it.
    pub fn observe(&mut self, remote: u64) -> (t: u64)
        requires
            old(self).time() < u64::MAX,
            remote < u64::MAX,
        ensures
            t == max_time(old(self).time(), remote) + 1,
            final(self).time() == t,
    {
        let m = if self.time >= remote {
            self.time
        } else {
            remote
        };
        self.time = m + 1;
        self.time
    }
}

/// The larger of two times.
pub open spec fn max_time(a: u64, b: u64) -> u64 {
    if a >= b {
        a
    } else {
        b
    }
}

} // verus!

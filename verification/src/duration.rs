//! Lengths of time.

use vstd::prelude::*;

verus! {

/// Nanoseconds to the second.
pub const NANOS: u64 = 1_000_000_000;

/// A length of time: whole seconds, and the nanoseconds past them.
#[derive(Debug, Clone, Copy, PartialEq, Eq, Structural)]
pub struct Duration {
    pub secs: u64,
    pub nanos: u32,
}

impl Duration {
    /// The nanoseconds stay below a second.
    pub open spec fn wf(self) -> bool {
        self.nanos < NANOS
    }

    /// The whole length in nanoseconds.
    pub open spec fn length(self) -> int {
        self.secs * NANOS + self.nanos
    }

    /// No time at all.
    pub fn zero() -> (r: Self)
        ensures
            r.wf(),
            r.length() == 0,
    {
        Duration { secs: 0, nanos: 0 }
    }

    pub fn from_secs(secs: u64) -> (r: Self)
        ensures
            r.wf(),
            r == (Duration { secs, nanos: 0 }),
    {
        Duration { secs, nanos: 0 }
    }

    /// Whole seconds; the rest is dropped.
    pub fn as_secs(self) -> (r: u64)
        ensures
            r == self.secs,
    {
        self.secs
    }

    /// A length given in nanoseconds.
    pub fn from_nanos(nanos: u128) -> (r: Self)
        requires
            nanos / 1_000_000_000 <= u64::MAX,
        ensures
            r.wf(),
            r.length() == nanos,
    {
        Duration { secs: (nanos / 1_000_000_000) as u64, nanos: (nanos % 1_000_000_000) as u32 }
    }
}

} // verus!

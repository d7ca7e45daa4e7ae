//! Noticing that the machine slept, and for how long.
//!
//! **Nothing can sample during a suspend**: userspace is frozen, no timer fires,
//! no file is read. What is measurable is the pair of readings either side of
//! it, and over hours that is a better rate than sampling would give: one clean
//! interval instead of a noisy average.
//!
//! **The clocks disagree.** The wall clock advances across a suspend and the
//! monotonic one does not, so their divergence *is* the time spent asleep.

use std::time::Instant;

use vstd::prelude::*;

use crate::clock::{read, Moment};
use crate::duration::{Duration, NANOS};

verus! {

/// The clocks always disagree a little: scheduling, a slow poll, a clock being
/// set. Only a divergence past this is a suspend.
pub const SLEPT_SECS: u64 = 10;

/// How far a clock came, with a clock that was set back not having moved.
pub open spec fn came(from: int, to: int) -> int {
    if to > from {
        to - from
    } else {
        0
    }
}

/// How far the wall clock got ahead of the monotonic one, in nanoseconds.
pub open spec fn divergence(before: Moment, now: Moment) -> int {
    came(before.wall as int, now.wall as int) - came(before.mono as int, now.mono as int)
}

/// What `slept` tells of two moments.
pub open spec fn is_slept(before: Moment, now: Moment, slept: Option<Duration>) -> bool {
    match slept {
        Some(length) => {
            &&& divergence(before, now) > SLEPT_SECS * NANOS
            &&& length.wf()
            &&& length.length() == divergence(before, now)
        },
        None => divergence(before, now) <= SLEPT_SECS * NANOS,
    }
}

/// How long the machine was asleep between two moments, when it was: as long as
/// the wall clock got ahead of the monotonic one.
pub fn slept(before: Moment, now: Moment) -> (r: Option<Duration>)
    requires
        before.wf(),
        now.wf(),
    ensures
        is_slept(before, now, r),
{
    let by_wall: i128 = if now.wall > before.wall {
        now.wall - before.wall
    } else {
        0
    };
    let by_mono: u128 = if now.mono > before.mono {
        now.mono - before.mono
    } else {
        0
    };
    let ahead: u128 = by_wall as u128;
    if ahead > by_mono && ahead - by_mono > 10 * 1_000_000_000 {
        Some(Duration::from_nanos(ahead - by_mono))
    } else {
        None
    }
}

/// Time awake is not counted: letting both clocks run on together changes
/// nothing of how long the machine slept.
pub proof fn law_time_awake_is_not_counted(
    before: Moment,
    now: Moment,
    later: Moment,
    slept: Option<Duration>,
)
    requires
        before.wall <= now.wall,
        before.mono <= now.mono,
        later.wall - now.wall == later.mono - now.mono,
        later.wall >= now.wall,
    ensures
        is_slept(before, later, slept) <==> is_slept(before, now, slept),
{
}

/// A sleep reads as its wall clock length: with the monotonic clock standing
/// still, a jump of more than `SLEPT_SECS` seconds is a suspend of that length.
pub proof fn law_a_sleep_reads_as_its_wall_clock_length(
    before: Moment,
    now: Moment,
    slept: Option<Duration>,
)
    requires
        before.mono == now.mono,
        now.wall - before.wall > SLEPT_SECS * NANOS,
        is_slept(before, now, slept),
    ensures
        slept is Some,
        slept->0.length() == now.wall - before.wall,
{
}

/// Watches the two clocks drift apart.
#[derive(Debug)]
pub struct Clocks {
    /// Where the monotonic clock is counted from.
    pub origin: Option<Instant>,
    /// What the clocks said at the previous call.
    pub last: Option<Moment>,
}

impl Default for Clocks {
    fn default() -> (r: Self)
        ensures
            r.wf(),
            r.last is None,
            r.origin is None,
    {
        Clocks { origin: None, last: None }
    }
}

impl Clocks {
    pub open spec fn wf(self) -> bool {
        &&& self.last matches Some(before) ==> before.wf()
    }

    /// Call once per poll. Returns how long the machine was asleep since the
    /// previous call, when it was.
    pub fn advance(&mut self) -> (r: Option<Duration>)
        requires
            old(self).wf(),
        ensures
            final(self).wf(),
            final(self).last is Some,
            final(self).origin is Some,
            old(self).origin is Some ==> final(self).origin == old(self).origin,
            match old(self).last {
                Some(before) => is_slept(before, final(self).last->0, r),
                None => r is None,
            },
    {
        let origin: Instant = match self.origin {
            Some(origin) => origin,
            None => Instant::now(),
        };
        self.origin = Some(origin);
        let now = read(&origin);
        self.advance_to(now)
    }

    /// What `advance` does with what the clocks said.
    pub fn advance_to(&mut self, now: Moment) -> (r: Option<Duration>)
        requires
            old(self).wf(),
            now.wf(),
        ensures
            final(self).wf(),
            final(self).last == Some(now),
            final(self).origin == old(self).origin,
            match old(self).last {
                Some(before) => is_slept(before, now, r),
                None => r is None,
            },
    {
        let told = match self.last {
            Some(before) => slept(before, now),
            None => None,
        };
        self.last = Some(now);
        told
    }

    /// Forget the previous reading, so the next call cannot report a suspend.
    /// Used when the poll interval itself changed and a long quiet stretch is
    /// expected rather than suspicious.
    pub fn reset(&mut self)
        ensures
            final(self).wf(),
            final(self).last is None,
            final(self).origin == old(self).origin,
    {
        self.last = None;
    }
}

/// The machine slept when and only when the wall clock came more than ten seconds
/// further than the monotonic one, and then for as long as it came further. A wall
/// clock that was set back is no sleep.
pub proof fn law_a_sleep_is_what_the_wall_clock_came_further(
    before: Moment,
    now: Moment,
    slept: Option<Duration>,
)
    requires
        before.mono <= now.mono,
        is_slept(before, now, slept),
    ensures
        before.wall <= now.wall ==> {
            let ahead = now.wall - before.wall - (now.mono - before.mono);
            &&& slept is Some <==> ahead > 10_000_000_000
            &&& slept matches Some(length) ==> length.secs * 1_000_000_000 + length.nanos == ahead
        },
        before.wall > now.wall ==> slept is None,
{
}

} // verus!

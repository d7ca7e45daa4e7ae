//! What the machine's clocks say.
//!
//! There are two. The wall clock tells the time of day and keeps going while the
//! machine sleeps, but it can be set. The monotonic clock only ever counts up,
//! and stands still while the machine sleeps.

use std::time::{Instant, SystemTime};

use vstd::prelude::*;

use crate::duration::{Duration, NANOS};

verus! {

/// A moment of the wall clock. Opaque.
#[verifier::external_type_specification]
#[verifier::external_body]
pub struct ExSystemTime(SystemTime);

/// A moment of the monotonic clock. Opaque.
#[verifier::external_type_specification]
#[verifier::external_body]
pub struct ExInstant(Instant);

/// `SystemTime::now`: the wall clock's present moment. It depends on when it is
/// called, so nothing is claimed of it.
pub assume_specification[ SystemTime::now ]() -> (r: SystemTime);

/// `Instant::now`: the monotonic clock's present moment. It depends on when it
/// is called, so nothing is claimed of it.
pub assume_specification[ Instant::now ]() -> (r: Instant);

/// Where a moment lies from the epoch: so long after it, or so long before it.
#[derive(Debug, Clone, Copy, PartialEq, Eq)]
pub enum FromEpoch {
    After(Duration),
    Before(Duration),
}

impl FromEpoch {
    pub open spec fn wf(self) -> bool {
        match self {
            FromEpoch::After(length) => length.wf(),
            FromEpoch::Before(length) => length.wf(),
        }
    }
}

/// `SystemTime::duration_since`, asked of the epoch: how long after it the moment
/// is, or from the error how long before. Claims that the nanoseconds of the
/// length stay below a second; how long it is depends on an opaque moment and is
/// left unsaid.
#[verifier::external_body]
fn from_epoch(at: SystemTime) -> (r: FromEpoch)
    ensures
        r.wf(),
{
    match at.duration_since(SystemTime::UNIX_EPOCH) {
        Ok(after) => {
            FromEpoch::After(Duration { secs: after.as_secs(), nanos: after.subsec_nanos() })
        },
        Err(error) => {
            let before = error.duration();
            FromEpoch::Before(Duration { secs: before.as_secs(), nanos: before.subsec_nanos() })
        },
    }
}

/// `Instant::elapsed`: how far the monotonic clock has come since `origin`.
/// Claims that the nanoseconds of the length stay below a second; how long it is
/// depends on when it is asked and is left unsaid.
#[verifier::external_body]
fn counted_since(origin: &Instant) -> (r: Duration)
    ensures
        r.wf(),
{
    let counted = origin.elapsed();
    Duration { secs: counted.as_secs(), nanos: counted.subsec_nanos() }
}

/// The seconds to either side of the epoch that a moment can lie from it.
pub const FARTHEST: u64 = 0x7FFF_FFFF_FFFF_FFFF;

/// What both clocks say at one moment, in nanoseconds: the wall clock from the
/// epoch, the monotonic clock from a start of its own.
#[derive(Debug, Clone, Copy, PartialEq, Eq, Structural)]
pub struct Moment {
    pub wall: i128,
    pub mono: u128,
}

impl Moment {
    /// The wall clock stays within `FARTHEST` seconds of the epoch.
    pub open spec fn wf(self) -> bool {
        -(FARTHEST * NANOS) <= self.wall <= FARTHEST * NANOS
    }
}

/// Nanoseconds from the epoch, counted negative before it; a moment farther away
/// than `FARTHEST` is taken to be that far.
pub open spec fn wall_nanos(reading: FromEpoch) -> int {
    match reading {
        FromEpoch::After(length) => if length.length() < FARTHEST * NANOS {
            length.length()
        } else {
            FARTHEST * NANOS
        },
        FromEpoch::Before(length) => if length.length() < FARTHEST * NANOS {
            -length.length()
        } else {
            -(FARTHEST * NANOS)
        },
    }
}

fn nanos_of(length: Duration) -> (r: i128)
    requires
        length.wf(),
    ensures
        r == if length.length() < FARTHEST * NANOS {
            length.length()
        } else {
            FARTHEST * NANOS
        },
{
    if length.secs >= FARTHEST {
        0x7FFF_FFFF_FFFF_FFFF * 1_000_000_000
    } else {
        length.secs as i128 * 1_000_000_000 + length.nanos as i128
    }
}

/// Nanoseconds from the epoch.
pub fn wall_time(reading: FromEpoch) -> (r: i128)
    requires
        reading.wf(),
    ensures
        r == wall_nanos(reading),
{
    match reading {
        FromEpoch::After(length) => nanos_of(length),
        FromEpoch::Before(length) => -nanos_of(length),
    }
}

/// The second in which a moment lies, counted from the epoch.
pub fn second_of(wall: i128) -> (r: i64)
    requires
        -(FARTHEST * NANOS) <= wall <= FARTHEST * NANOS,
    ensures
        r == wall as int / NANOS as int,
{
    if wall >= 0 {
        (wall / 1_000_000_000) as i64
    } else {
        // Division cuts towards zero, and the second before the epoch is not the
        // one after it.
        (-((999_999_999 - wall) / 1_000_000_000)) as i64
    }
}

/// What both clocks say, given how far the wall clock is from the epoch and how
/// far the monotonic clock has come.
pub open spec fn is_moment(reading: FromEpoch, counted: Duration, moment: Moment) -> bool {
    &&& moment.wall == wall_nanos(reading)
    &&& moment.mono == counted.length()
}

/// The moment of two readings.
pub fn moment_of(reading: FromEpoch, counted: Duration) -> (r: Moment)
    requires
        reading.wf(),
        counted.wf(),
    ensures
        r.wf(),
        is_moment(reading, counted, r),
{
    Moment {
        wall: wall_time(reading),
        mono: counted.secs as u128 * 1_000_000_000 + counted.nanos as u128,
    }
}

/// What the wall clock says, in whole seconds since the epoch: the second of
/// whatever it read. What it reads is the time and is left unsaid.
///
/// A reading carries its second and no more, as the files do: that a second was
/// recorded already can be told, and a run reads back with the start that it is
/// known by.
pub fn present_second() -> (r: i64)
    ensures
        -FARTHEST <= r <= FARTHEST,
        exists|reading: FromEpoch|
            reading.wf() && r == #[trigger] wall_nanos(reading) / NANOS as int,
{
    let reading = from_epoch(SystemTime::now());
    second_of(wall_time(reading))
}

/// What both clocks say, the monotonic one counted from `origin`: the moment of
/// whatever they read. What they read is the time and is left unsaid.
pub fn read(origin: &Instant) -> (r: Moment)
    ensures
        r.wf(),
        exists|reading: FromEpoch, counted: Duration|
            reading.wf() && counted.wf() && #[trigger] is_moment(reading, counted, r),
{
    let reading = from_epoch(SystemTime::now());
    let counted = counted_since(origin);
    moment_of(reading, counted)
}

/// A moment is so many nanoseconds after the epoch, or so many before it, as far as
/// a clock goes; and both clocks are read as they are.
pub proof fn law_a_moment_counts_from_the_epoch(
    length: Duration,
    counted: Duration,
    moment: Moment,
)
    requires
        length.wf(),
        length.secs < 0x7FFF_FFFF_FFFF_FFFF,
    ensures
        wall_nanos(FromEpoch::After(length)) == length.secs * 1_000_000_000 + length.nanos,
        wall_nanos(FromEpoch::Before(length)) == -(length.secs * 1_000_000_000 + length.nanos),
        is_moment(FromEpoch::After(length), counted, moment) ==> moment.wall == length.secs
            * 1_000_000_000 + length.nanos && moment.mono == counted.secs * 1_000_000_000
            + counted.nanos,
{
}

} // verus!

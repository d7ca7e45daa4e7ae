//! The charge plot: percentage against wall-clock time, coloured by what the
//! battery was doing.
//!
//! `draw` takes a resolved `Palette` and touches no widget: it tells what to
//! paint, in order, and whoever holds a canvas carries it out. Lengths on the
//! canvas are in millionths of a pixel.

pub mod drawn;
pub mod laws;

use vstd::prelude::*;

use crate::battery::history::{elapsed, Follows, History, Sample};
use crate::battery::types::Status;
use crate::decimal::{fixed, push_fixed};
use crate::duration::Duration;
use crate::format::{duration, duration_text};
use crate::micro::{clip, clipped, div_nearest, nearest, Micro, UNIT};
use crate::recordings::{point, point_of, Point};

verus! {

/// The margin around the plot, in pixels.
pub const PAD: i32 = 14;

pub const LINE_WIDTH: Micro = 2_000_000;

pub const FILL_ALPHA: Micro = 140_000;

pub const GRID_ALPHA: Micro = 100_000;

/// How strongly a stretch is drawn in which the battery was doing nothing.
pub const IDLE_ALPHA: Micro = 450_000;

pub const DOT_RADIUS: Micro = 3_500_000;

// ---------------------------------------------------------------------------
// Colours

#[derive(Debug, Clone, Copy, PartialEq, Eq, Structural)]
pub enum Trend {
    Charging,
    Discharging,
    Idle,
}

impl Trend {
    pub open spec fn of_status(status: Status) -> Self {
        match status {
            Status::Charging => Trend::Charging,
            Status::Discharging => Trend::Discharging,
            _ => Trend::Idle,
        }
    }

    pub fn of(status: Status) -> (r: Self)
        ensures
            r == Trend::of_status(status),
    {
        match status {
            Status::Charging => Trend::Charging,
            Status::Discharging => Trend::Discharging,
            _ => Trend::Idle,
        }
    }
}

/// A colour, each part in millionths of full strength.
#[derive(Debug, Clone, Copy, PartialEq, Eq, Structural)]
pub struct Rgba {
    pub red: Micro,
    pub green: Micro,
    pub blue: Micro,
    pub alpha: Micro,
}

impl Rgba {
    pub open spec fn faded(self, alpha: Micro) -> Self {
        Rgba { alpha, ..self }
    }

    pub fn with_alpha(self, alpha: Micro) -> (r: Self)
        ensures
            r == self.faded(alpha),
    {
        Rgba { red: self.red, green: self.green, blue: self.blue, alpha }
    }
}

/// Every colour the plot needs, resolved before drawing starts.
#[derive(Debug, Clone, Copy, PartialEq, Eq, Structural)]
pub struct Palette {
    pub charging: Rgba,
    pub discharging: Rgba,
    pub idle: Rgba,
    pub grid: Rgba,
}

impl Palette {
    pub open spec fn over_foreground(charging: Rgba, discharging: Rgba, foreground: Rgba) -> Self {
        Palette {
            charging,
            discharging,
            idle: foreground.faded(IDLE_ALPHA),
            grid: foreground.faded(GRID_ALPHA),
        }
    }

    /// The palette for a foreground colour, with the colours of the two trends.
    pub fn of(charging: Rgba, discharging: Rgba, foreground: Rgba) -> (r: Self)
        ensures
            r == Palette::over_foreground(charging, discharging, foreground),
    {
        Palette {
            charging,
            discharging,
            idle: foreground.with_alpha(IDLE_ALPHA),
            grid: foreground.with_alpha(GRID_ALPHA),
        }
    }

    pub open spec fn ink(self, trend: Trend) -> Rgba {
        match trend {
            Trend::Charging => self.charging,
            Trend::Discharging => self.discharging,
            Trend::Idle => self.idle,
        }
    }

    pub fn trend(self, trend: Trend) -> (r: Rgba)
        ensures
            r == self.ink(trend),
    {
        match trend {
            Trend::Charging => self.charging,
            Trend::Discharging => self.discharging,
            Trend::Idle => self.idle,
        }
    }
}

// ---------------------------------------------------------------------------
// The shape of a history

#[derive(Debug, Clone, PartialEq)]
pub struct Segment {
    pub trend: Trend,
    /// Whether a real gap precedes this segment, as opposed to just a change of
    /// trend. Only a gap breaks the filled area.
    pub broke: bool,
    /// (seconds since the first sample, percent)
    pub points: Vec<Point>,
}

/// What a segment says, its points as a sequence.
#[verifier::ext_equal]
pub struct SegmentModel {
    pub trend: Trend,
    pub broke: bool,
    pub points: Seq<Point>,
}

impl View for Segment {
    type V = SegmentModel;

    open spec fn view(&self) -> SegmentModel {
        SegmentModel { trend: self.trend, broke: self.broke, points: self.points@ }
    }
}

pub open spec fn shapes(v: Seq<Segment>) -> Seq<SegmentModel> {
    v.map_values(|segment: Segment| segment@)
}

/// A gap in the readings: the readings on either side of it, and what it was.
#[derive(Debug, Clone, Copy, PartialEq, Eq)]
pub struct Bridge {
    pub from: Point,
    pub to: Point,
    pub follows: Follows,
}

/// One reading as the plot has it.
#[derive(Debug, Clone, Copy, PartialEq, Eq)]
pub struct Mark {
    /// (seconds since the first reading, percent)
    pub point: Point,
    pub trend: Trend,
    pub follows: Follows,
}

/// A reading of a history that began at `start` as the plot has it.
pub open spec fn mark_of(start: int, x: Sample) -> Mark {
    Mark { point: point_of(start, x), trend: Trend::of_status(x.status), follows: x.follows }
}

/// The readings of a history as the plot has them.
pub open spec fn marks_in(s: Seq<Sample>) -> Seq<Mark> {
    s.map_values(|x: Sample| mark_of(s[0].at as int, x))
}

/// The stored points of a run as the plot has them. What a gap among them was is
/// not stored.
pub open spec fn marks_of(points: Seq<Point>, trend: Trend) -> Seq<Mark> {
    points.map_values(|point: Point| Mark { point, trend, follows: Follows::Poll })
}

/// Whether reading `i` comes so long after the one before it that nothing is
/// known of the time between.
pub open spec fn gap_before(s: Seq<Mark>, i: int, gap: int) -> bool {
    i > 0 && s[i].point.0 - s[i - 1].point.0 > gap
}

/// Whether reading `i` starts a segment.
pub open spec fn opens(s: Seq<Mark>, i: int, gap: int) -> bool {
    i == 0 || gap_before(s, i, gap) || s[i].trend != s[i - 1].trend
}

/// The first reading from `i` on that starts a segment.
pub open spec fn segment_end(s: Seq<Mark>, i: int, gap: int) -> int
    decreases s.len() - i,
{
    if i >= s.len() || opens(s, i, gap) {
        i
    } else {
        segment_end(s, i + 1, gap)
    }
}

/// The readings from `a` to before `b` as points of the plot. A colour change
/// with no gap carries the previous point over, so the line stays unbroken where
/// only the trend changed.
pub open spec fn segment_points(s: Seq<Mark>, a: int, b: int, gap: int) -> Seq<Point> {
    let carried = if a > 0 && !gap_before(s, a, gap) {
        seq![s[a - 1].point]
    } else {
        seq![]
    };
    carried + Seq::new((b - a) as nat, |k: int| s[a + k].point)
}

/// The segment that starts with reading `a`.
pub open spec fn segment_at(s: Seq<Mark>, a: int, gap: int) -> SegmentModel {
    SegmentModel {
        trend: s[a].trend,
        broke: a == 0 || gap_before(s, a, gap),
        points: segment_points(s, a, segment_end(s, a + 1, gap), gap),
    }
}

/// Every segment from reading `a` on.
pub open spec fn segments_from(s: Seq<Mark>, a: int, gap: int) -> Seq<SegmentModel>
    decreases s.len() - a,
{
    if a < 0 || a >= s.len() {
        seq![]
    } else {
        proof {
            lemma_segment_end(s, a + 1, gap);
        }
        seq![segment_at(s, a, gap)] + segments_from(s, segment_end(s, a + 1, gap), gap)
    }
}

/// The gap before reading `i`.
pub open spec fn bridge_at(s: Seq<Mark>, i: int) -> Bridge {
    Bridge { from: s[i - 1].point, to: s[i].point, follows: s[i].follows }
}

/// The gaps among the first `n` readings.
pub open spec fn bridges_upto(s: Seq<Mark>, n: int, gap: int) -> Seq<Bridge>
    decreases n,
{
    if n <= 0 {
        seq![]
    } else {
        let rest = bridges_upto(s, n - 1, gap);
        if gap_before(s, n - 1, gap) {
            rest.push(bridge_at(s, n - 1))
        } else {
            rest
        }
    }
}

pub proof fn lemma_segment_end(s: Seq<Mark>, i: int, gap: int)
    requires
        0 <= i <= s.len(),
    ensures
        i <= segment_end(s, i, gap) <= s.len(),
        segment_end(s, i, gap) < s.len() ==> opens(s, segment_end(s, i, gap), gap),
        forall|k: int| i <= k < segment_end(s, i, gap) ==> !opens(s, k, gap),
    decreases s.len() - i,
{
    if i < s.len() && !opens(s, i, gap) {
        lemma_segment_end(s, i + 1, gap);
    }
}

/// `segment_end` is the only position with these properties.
proof fn lemma_segment_end_unique(s: Seq<Mark>, i: int, b: int, gap: int)
    requires
        0 <= i <= b <= s.len(),
        b < s.len() ==> opens(s, b, gap),
        forall|k: int| i <= k < b ==> !opens(s, k, gap),
    ensures
        segment_end(s, i, gap) == b,
    decreases b - i,
{
    if i < b {
        assert(!opens(s, i, gap));
        lemma_segment_end_unique(s, i + 1, b, gap);
    }
}

/// How many points there are over all segments.
pub open spec fn count(v: Seq<SegmentModel>) -> nat
    decreases v.len(),
{
    if v.len() == 0 {
        0
    } else {
        count(v.drop_last()) + v.last().points.len()
    }
}

/// Segments merged back together across trend changes, so the filled area is
/// continuous and only a real gap splits it.
pub open spec fn merged(v: Seq<SegmentModel>) -> Seq<Seq<Point>>
    decreases v.len(),
{
    if v.len() == 0 {
        seq![]
    } else {
        let rest = merged(v.drop_last());
        let segment = v.last();
        if rest.len() > 0 && !segment.broke {
            // A trend change repeats the boundary point; drop the copy.
            rest.drop_last().push(rest.last() + without_first(segment.points))
        } else {
            rest.push(segment.points)
        }
    }
}

pub open spec fn without_first(points: Seq<Point>) -> Seq<Point> {
    if points.len() > 0 {
        points.drop_first()
    } else {
        points
    }
}

/// The runs of points as sequences.
pub open spec fn lines_of(v: Seq<Vec<Point>>) -> Seq<Seq<Point>> {
    v.map_values(|points: Vec<Point>| points@)
}

/// A drawable snapshot of the history.
#[derive(Debug, Clone, PartialEq)]
pub struct Series {
    pub segments: Vec<Segment>,
    pub bridges: Vec<Bridge>,
    /// Seconds from the first reading to the last.
    pub span: Micro,
}

impl Series {
    /// This shows the samples of a history, broken where two of them lie further
    /// apart than `gap`.
    pub open spec fn shows(self, s: Seq<Sample>, gap: int) -> bool {
        &&& shapes(self.segments@) =~= segments_from(marks_in(s), 0, gap)
        &&& self.bridges@ =~= bridges_upto(marks_in(s), s.len() as int, gap)
        &&& self.span == if s.len() == 0 {
            0
        } else {
            clipped(elapsed(s[0].at as int, s.last().at as int) * UNIT)
        }
    }

    /// This shows the stored points of a run.
    pub open spec fn shows_run(self, points: Seq<Point>, charging: bool, gap: int) -> bool {
        let trend = if charging {
            Trend::Charging
        } else {
            Trend::Discharging
        };
        let marks = marks_of(points, trend);
        &&& shapes(self.segments@) =~= segments_from(marks, 0, gap)
        &&& self.bridges@ =~= bridges_upto(marks, points.len() as int, gap)
        &&& self.span == if points.len() > 0 {
            points.last().0
        } else {
            0
        }
    }

    /// Everything to paint on a canvas of that many pixels.
    pub open spec fn painted(self, width: i32, height: i32, palette: Palette) -> Seq<Command> {
        drawing(
            shapes(self.segments@),
            self.bridges@,
            Frame { width, height, span: self.span },
            palette,
        )
    }

    /// `gap` is how far apart two samples must be, in millionths of a second,
    /// before the line breaks rather than inventing a slope across them. It
    /// belongs to the caller because it is only meaningful against the ring's
    /// own recording cadence: a threshold below that cadence makes every pair
    /// look like a gap.
    pub fn from_history(history: &History, gap: Micro) -> (r: Self)
        ensures
            r.shows(history@, gap as int),
    {
        let ghost all = marks_in(history@);
        let n = history.len();
        let start: i64 = if n > 0 {
            history.at(0).at
        } else {
            0
        };
        let mut marks: Vec<Mark> = Vec::new();
        let mut i: usize = 0;
        while i < n
            invariant
                i <= n,
                n == history@.len(),
                all == marks_in(history@),
                n > 0 ==> start == history@[0].at,
                marks@ == all.take(i as int),
            decreases n - i,
        {
            let sample = history.at(i);
            marks.push(
                Mark {
                    point: point(start, &sample),
                    trend: Trend::of(sample.status),
                    follows: sample.follows,
                },
            );
            assert(marks@.last() == all[i as int]);
            i += 1;
        }
        assert(marks@ == all);
        Series::from_marks(&marks, clip(history.span_secs() as i128 * 1_000_000), gap)
    }

    /// The stored shape of a run, broken where two of its points lie further apart
    /// than `gap`, in millionths of a second.
    pub fn from_points(points: &Vec<Point>, charging: bool, gap: Micro) -> (r: Self)
        ensures
            r.shows_run(points@, charging, gap as int),
    {
        let trend = if charging {
            Trend::Charging
        } else {
            Trend::Discharging
        };
        let ghost all = marks_of(points@, trend);
        let mut marks: Vec<Mark> = Vec::new();
        let mut i: usize = 0;
        while i < points.len()
            invariant
                i <= points@.len(),
                all == marks_of(points@, trend),
                marks@ == all.take(i as int),
            decreases points@.len() - i,
        {
            marks.push(Mark { point: points[i], trend, follows: Follows::Poll });
            assert(marks@.last() == all[i as int]);
            i += 1;
        }
        assert(marks@ == all);
        let span: Micro = if points.len() > 0 {
            points[points.len() - 1].0
        } else {
            0
        };
        Series::from_marks(&marks, span, gap)
    }

    fn from_marks(marks: &Vec<Mark>, span: Micro, gap: Micro) -> (r: Self)
        ensures
            shapes(r.segments@) == segments_from(marks@, 0, gap as int),
            r.bridges@ == bridges_upto(marks@, marks@.len() as int, gap as int),
            r.span == span,
    {
        let ghost s = marks@;
        let ghost g = gap as int;
        let mut segments: Vec<Segment> = Vec::new();
        let mut bridges: Vec<Bridge> = Vec::new();
        assert(shapes(segments@) == Seq::<SegmentModel>::empty());
        if marks.len() == 0 {
            return Series { segments, bridges, span };
        }
        let n = marks.len();
        let mut previous: Mark = marks[0];
        let mut trend = previous.trend;
        let mut broke = true;
        let mut points: Vec<Point> = Vec::new();
        points.push(previous.point);
        let mut i: usize = 1;
        let ghost mut a: int = 0;
        assert(points@ == segment_points(s, 0, 1, g));
        assert(shapes(segments@) + segments_from(s, 0, g) == segments_from(s, 0, g));
        assert(bridges_upto(s, 0, g) == Seq::<Bridge>::empty());
        while i < n
            invariant
                1 <= i <= n,
                n == s.len(),
                s == marks@,
                g == gap,
                0 <= a < i,
                trend == s[a].trend,
                broke == (a == 0 || gap_before(s, a, g)),
                points@ == segment_points(s, a, i as int, g),
                forall|k: int| a < k < i ==> !opens(s, k, g),
                previous == s[i - 1],
                previous.trend == trend,
                shapes(segments@) + segments_from(s, a, g) == segments_from(s, 0, g),
                bridges@ == bridges_upto(s, i as int, g),
            decreases n - i,
        {
            let here: Mark = marks[i];
            let broken = here.point.0 as i128 - previous.point.0 as i128 > gap as i128;
            assert(broken == gap_before(s, i as int, g));
            if broken {
                bridges.push(
                    Bridge { from: previous.point, to: here.point, follows: here.follows },
                );
            }
            if broken || here.trend != trend {
                let ghost before = segments@;
                segments.push(Segment { trend, broke, points });
                points = Vec::new();
                if !broken {
                    points.push(previous.point);
                }
                proof {
                    lemma_segment_end_unique(s, a + 1, i as int, g);
                    assert(shapes(segments@) == shapes(before).push(segment_at(s, a, g)));
                    assert(shapes(segments@) + segments_from(s, i as int, g) == shapes(before)
                        + segments_from(s, a, g));
                    a = i as int;
                    assert(points@ == segment_points(s, a, a, g));
                }
                trend = here.trend;
                broke = broken;
            }
            points.push(here.point);
            assert(points@ == segment_points(s, a, i + 1, g));
            previous = here;
            i += 1;
        }
        proof {
            lemma_segment_end_unique(s, a + 1, n as int, g);
        }
        let ghost before = segments@;
        segments.push(Segment { trend, broke, points });
        assert(shapes(segments@) == shapes(before).push(segment_at(s, a, g)));
        assert(segments_from(s, n as int, g) == Seq::<SegmentModel>::empty());
        assert(shapes(segments@) == shapes(before) + segments_from(s, a, g));
        Series { segments, bridges, span }
    }

    /// How many points there are, as far as a `usize` can tell.
    pub fn points(&self) -> (r: usize)
        ensures
            r == if count(shapes(self.segments@)) < usize::MAX {
                count(shapes(self.segments@))
            } else {
                usize::MAX as nat
            },
    {
        let ghost v = shapes(self.segments@);
        let mut n: usize = 0;
        let mut i: usize = 0;
        while i < self.segments.len()
            invariant
                i <= self.segments@.len(),
                v == shapes(self.segments@),
                n == if count(v.take(i as int)) < usize::MAX {
                    count(v.take(i as int))
                } else {
                    usize::MAX as nat
                },
            decreases self.segments@.len() - i,
        {
            assert(v.take(i + 1).drop_last() == v.take(i as int));
            let more = self.segments[i].points.len();
            if more > usize::MAX - n {
                n = usize::MAX;
            } else {
                n += more;
            }
            i += 1;
        }
        assert(v.take(i as int) == v);
        n
    }

    /// Segments merged back together across trend changes, so the filled area
    /// is continuous and only a real gap splits it. Without this a two-sample
    /// discharge blip while charging fills as a solid vertical bar.
    pub fn runs(&self) -> (r: Vec<Vec<Point>>)
        ensures
            lines_of(r@) == merged(shapes(self.segments@)),
    {
        let ghost v = shapes(self.segments@);
        let mut runs: Vec<Vec<Point>> = Vec::new();
        let mut i: usize = 0;
        assert(v.take(0) == Seq::<SegmentModel>::empty());
        assert(lines_of(runs@) == Seq::<Seq<Point>>::empty());
        while i < self.segments.len()
            invariant
                i <= self.segments@.len(),
                v == shapes(self.segments@),
                lines_of(runs@) == merged(v.take(i as int)),
            decreases self.segments@.len() - i,
        {
            let ghost before = runs@;
            let ghost rest = merged(v.take(i as int));
            let segment = &self.segments[i];
            assert(v.take(i + 1).drop_last() == v.take(i as int));
            assert(v.take(i + 1).last() == segment@);
            assert(rest.len() == before.len());
            let mut run: Vec<Point> = Vec::new();
            let mut from: usize = 0;
            let joins = runs.len() > 0 && !segment.broke;
            if joins {
                if let Some(open) = runs.pop() {
                    assert(before.last() == open);
                    assert(lines_of(before).last() == open@);
                    run = open;
                }
                if segment.points.len() > 0 {
                    from = 1;
                }
            }
            let ghost kept = runs@;
            assert(joins ==> lines_of(kept) == rest.drop_last());
            let ghost start = run@;
            let mut j: usize = from;
            assert(start + segment.points@.subrange(from as int, from as int) == start);
            while j < segment.points.len()
                invariant
                    from <= j <= segment.points@.len(),
                    run@ == start + segment.points@.subrange(from as int, j as int),
                decreases segment.points@.len() - j,
            {
                run.push(segment.points[j]);
                assert(segment.points@.subrange(from as int, j + 1) == segment.points@.subrange(
                    from as int,
                    j as int,
                ).push(segment.points@[j as int]));
                j += 1;
            }
            proof {
                let p = segment.points@;
                if joins {
                    assert(p.subrange(from as int, p.len() as int) == without_first(p));
                } else {
                    assert(run@ == p);
                }
            }
            runs.push(run);
            assert(lines_of(runs@) == lines_of(kept).push(run@));
            i += 1;
        }
        assert(v.take(i as int) == v);
        runs
    }
}

impl Bridge {
    /// How long the gap lasted, in whole seconds.
    pub open spec fn lasted(self) -> int {
        if self.to.0 > self.from.0 {
            (self.to.0 - self.from.0) / (UNIT as int)
        } else {
            0
        }
    }

    /// The charge that went while nobody was watching.
    pub open spec fn used(self) -> int {
        clipped(self.from.1 - self.to.1)
    }

    /// What a gap was called.
    pub open spec fn name_text(self) -> Seq<char> {
        match self.follows {
            Follows::Sleep => "Asleep"@,
            Follows::Launch => "App closed"@,
            Follows::Poll => "No readings"@,
        }
    }

    /// "Asleep · 8 h · 11% used (1.4%/h)": what it was, how long it took and, where
    /// the charge fell, by how much and how fast.
    pub open spec fn readout_text(self) -> Seq<char> {
        let head = self.name_text() + " · "@ + duration_text(self.lasted());
        if self.used() > 0 && self.lasted() > 0 {
            head + " · "@ + fixed(self.used(), 0) + "% used ("@ + fixed(
                clipped(nearest(self.used() * 3600, self.lasted())),
                1,
            ) + "%/h)"@
        } else {
            head
        }
    }

    pub fn readout(&self) -> (r: String)
        ensures
            r@ == self.readout_text(),
    {
        let name = match self.follows {
            Follows::Sleep => "Asleep",
            Follows::Launch => "App closed",
            Follows::Poll => "No readings",
        };
        let lasted: u64 = if self.to.0 > self.from.0 {
            ((self.to.0 as i128 - self.from.0 as i128) / 1_000_000) as u64
        } else {
            0
        };
        let used: Micro = clip(self.from.1 as i128 - self.to.1 as i128);
        let mut out = String::new();
        out.append(name);
        out.append(" · ");
        let length = duration(Duration::from_secs(lasted));
        out.append(length.as_str());
        if used > 0 && lasted > 0 {
            out.append(" · ");
            push_fixed(&mut out, used, 0);
            out.append("% used (");
            let pace: Micro = clip(div_nearest(used as i128 * 3600, lasted as i128));
            push_fixed(&mut out, pace, 1);
            out.append("%/h)");
        }
        assert(out@ == self.readout_text());
        out
    }
}

// ---------------------------------------------------------------------------
// Drawing

/// One step of a drawing. Lengths are in millionths of a pixel.
#[derive(Debug, Clone, Copy, PartialEq, Eq, Structural)]
pub enum Command {
    LineWidth(Micro),
    /// Lines end and join round.
    RoundEnds,
    Dashed,
    Solid,
    Source(Rgba),
    MoveTo(Micro, Micro),
    LineTo(Micro, Micro),
    ClosePath,
    /// A whole circle around a point.
    Circle(Micro, Micro, Micro),
    Fill,
    Stroke,
}

/// Where the plot lies on the canvas, and the time it spans.
#[derive(Debug, Clone, Copy, PartialEq, Eq, Structural)]
pub struct Frame {
    pub width: i32,
    pub height: i32,
    pub span: Micro,
}

impl Frame {
    /// There is room for a plot inside the margins.
    pub open spec fn has_room(self) -> bool {
        self.width > 2 * PAD && self.height > 2 * PAD
    }

    /// How far down a charge lies: full at the top margin, empty at the bottom.
    pub open spec fn down(self, percent: int) -> int {
        clipped(PAD * UNIT + nearest((100 * UNIT - percent) * (self.height - 2 * PAD), 100))
    }

    /// How far across a moment lies: the first at the left margin, the last at
    /// the right.
    pub open spec fn across(self, at: int) -> int {
        clipped(PAD * UNIT + nearest(at * ((self.width - 2 * PAD) * UNIT), self.span as int))
    }

    pub open spec fn bottom_edge(self) -> int {
        (self.height - PAD) * UNIT
    }

    pub open spec fn right_edge(self) -> int {
        (self.width - PAD) * UNIT
    }

    fn y(&self, percent: Micro) -> (r: Micro)
        requires
            self.has_room(),
        ensures
            r == self.down(percent as int),
    {
        let up: i128 = 100_000_000 - percent as i128;
        let tall: i128 = self.height as i128 - 28;
        assert(-0x8000_0000_0000_0000_0000_0000 < up * tall < 0x8000_0000_0000_0000_0000_0000)
            by (nonlinear_arith)
            requires
                -0x1_0000_0000_0000_0000 < up < 0x1_0000_0000_0000_0000,
                0 < tall < 0x7FFF_FFFF,
        ;
        clip(14_000_000 + div_nearest(up * tall, 100))
    }

    fn x(&self, at: Micro) -> (r: Micro)
        requires
            self.has_room(),
            self.span > 0,
        ensures
            r == self.across(at as int),
    {
        let wide: i128 = (self.width as i128 - 28) * 1_000_000;
        let along: i128 = at as i128;
        assert(-0x1000_0000_0000_0000_0000_0000_0000_0000 < along * wide
            < 0x1000_0000_0000_0000_0000_0000_0000_0000) by (nonlinear_arith)
            requires
                -0x8000_0000_0000_0000 <= along < 0x8000_0000_0000_0000,
                0 < wide < 0x8_0000_0000_0000,
        ;
        clip(14_000_000 + div_nearest(along * wide, self.span as i128))
    }

    fn bottom(&self) -> (r: Micro)
        ensures
            r == self.bottom_edge(),
    {
        (self.height as i64 - 14) * 1_000_000
    }

    fn right(&self) -> (r: Micro)
        ensures
            r == self.right_edge(),
    {
        (self.width as i64 - 14) * 1_000_000
    }

    pub open spec fn move_to(self, p: Point) -> Command {
        Command::MoveTo(self.across(p.0 as int) as i64, self.down(p.1 as int) as i64)
    }

    pub open spec fn line_to(self, p: Point) -> Command {
        Command::LineTo(self.across(p.0 as int) as i64, self.down(p.1 as int) as i64)
    }

    /// A line at one charge, from margin to margin.
    pub open spec fn rule(self, percent: int) -> Seq<Command> {
        seq![
            Command::MoveTo((PAD * UNIT) as i64, self.down(percent) as i64),
            Command::LineTo(self.right_edge() as i64, self.down(percent) as i64),
        ]
    }

    /// Five faint rules, at each quarter of the charge.
    pub open spec fn grid(self, palette: Palette) -> Seq<Command> {
        seq![Command::LineWidth(UNIT), Command::Source(palette.grid)] + self.rule(0) + self.rule(
            25 * UNIT,
        ) + self.rule(50 * UNIT) + self.rule(75 * UNIT) + self.rule(100 * UNIT) + seq![
            Command::Stroke,
        ]
    }

    /// The line through the points.
    pub open spec fn path(self, points: Seq<Point>) -> Seq<Command> {
        Seq::new(
            points.len(),
            |i: int|
                if i == 0 {
                    self.move_to(points[i])
                } else {
                    self.line_to(points[i])
                },
        )
    }

    /// The area between a run and the bottom of the plot. A single point has none.
    pub open spec fn area(self, run: Seq<Point>) -> Seq<Command> {
        if run.len() < 2 {
            seq![]
        } else {
            self.path(run) + seq![
                Command::LineTo(self.across(run.last().0 as int) as i64, self.bottom_edge() as i64),
                Command::LineTo(self.across(run[0].0 as int) as i64, self.bottom_edge() as i64),
                Command::ClosePath,
                Command::Fill,
            ]
        }
    }

    pub open spec fn areas(self, runs: Seq<Seq<Point>>) -> Seq<Command>
        decreases runs.len(),
    {
        if runs.len() == 0 {
            seq![]
        } else {
            self.areas(runs.drop_last()) + self.area(runs.last())
        }
    }

    /// A dashed line over each gap.
    pub open spec fn dashes(self, bridges: Seq<Bridge>) -> Seq<Command>
        decreases bridges.len(),
    {
        if bridges.len() == 0 {
            seq![]
        } else {
            self.dashes(bridges.drop_last()) + seq![
                self.move_to(bridges.last().from),
                self.line_to(bridges.last().to),
                Command::Stroke,
            ]
        }
    }

    /// A segment's line in the colour of its trend. A single point has none.
    pub open spec fn stroke(self, segment: SegmentModel, palette: Palette) -> Seq<Command> {
        if segment.points.len() < 2 {
            seq![]
        } else {
            self.path(segment.points) + seq![
                Command::Source(palette.ink(segment.trend)),
                Command::Stroke,
            ]
        }
    }

    pub open spec fn strokes(self, v: Seq<SegmentModel>, palette: Palette) -> Seq<Command>
        decreases v.len(),
    {
        if v.len() == 0 {
            seq![]
        } else {
            self.strokes(v.drop_last(), palette) + self.stroke(v.last(), palette)
        }
    }

    /// The newest reading as a dot.
    pub open spec fn dot(self, v: Seq<SegmentModel>, palette: Palette) -> Seq<Command> {
        if v.len() > 0 && v.last().points.len() > 0 {
            let last = v.last().points.last();
            seq![
                Command::Source(palette.ink(v.last().trend)),
                Command::Circle(
                    self.across(last.0 as int) as i64,
                    self.down(last.1 as int) as i64,
                    DOT_RADIUS,
                ),
                Command::Fill,
            ]
        } else {
            seq![]
        }
    }

    /// One fill for each run, tinted by what the battery is doing now, then the
    /// gaps, then the per-trend strokes, then the dot.
    pub open spec fn charge(
        self,
        v: Seq<SegmentModel>,
        bridges: Seq<Bridge>,
        palette: Palette,
    ) -> Seq<Command> {
        let current = if v.len() > 0 {
            v.last().trend
        } else {
            Trend::Idle
        };
        seq![
            Command::LineWidth(LINE_WIDTH),
            Command::RoundEnds,
            Command::Source(palette.ink(current).faded(FILL_ALPHA)),
        ] + self.areas(merged(v)) + seq![Command::Dashed, Command::Source(palette.idle)]
            + self.dashes(bridges) + seq![Command::Solid] + self.strokes(v, palette) + self.dot(
            v,
            palette,
        )
    }

    fn push_path(&self, out: &mut Vec<Command>, points: &Vec<Point>)
        requires
            self.has_room(),
            self.span > 0,
        ensures
            final(out)@ == old(out)@ + self.path(points@),
    {
        let ghost start = out@;
        let mut i: usize = 0;
        assert(start + self.path(points@).take(0) == start);
        while i < points.len()
            invariant
                i <= points@.len(),
                self.has_room(),
                self.span > 0,
                out@ == start + self.path(points@).take(i as int),
            decreases points@.len() - i,
        {
            let x: Micro = self.x(points[i].0);
            let y: Micro = self.y(points[i].1);
            if i == 0 {
                out.push(Command::MoveTo(x, y));
            } else {
                out.push(Command::LineTo(x, y));
            }
            assert(self.path(points@).take(i + 1) == self.path(points@).take(i as int).push(
                self.path(points@)[i as int],
            ));
            i += 1;
        }
        assert(self.path(points@).take(i as int) == self.path(points@));
    }

    fn push_rule(&self, out: &mut Vec<Command>, percent: Micro)
        requires
            self.has_room(),
        ensures
            final(out)@ == old(out)@ + self.rule(percent as int),
    {
        let y: Micro = self.y(percent);
        out.push(Command::MoveTo(14_000_000, y));
        out.push(Command::LineTo(self.right(), y));
        assert(out@ == old(out)@ + self.rule(percent as int));
    }

    fn push_grid(&self, out: &mut Vec<Command>, palette: Palette)
        requires
            self.has_room(),
        ensures
            final(out)@ == old(out)@ + self.grid(palette),
    {
        out.push(Command::LineWidth(UNIT));
        out.push(Command::Source(palette.grid));
        self.push_rule(out, 0);
        self.push_rule(out, 25_000_000);
        self.push_rule(out, 50_000_000);
        self.push_rule(out, 75_000_000);
        self.push_rule(out, 100_000_000);
        out.push(Command::Stroke);
        assert(out@ == old(out)@ + self.grid(palette));
    }

    fn push_areas(&self, out: &mut Vec<Command>, runs: &Vec<Vec<Point>>)
        requires
            self.has_room(),
            self.span > 0,
        ensures
            final(out)@ == old(out)@ + self.areas(lines_of(runs@)),
    {
        let ghost start = out@;
        let ghost all = lines_of(runs@);
        let mut i: usize = 0;
        assert(all.take(0) == Seq::<Seq<Point>>::empty());
        assert(start + self.areas(all.take(0)) == start);
        while i < runs.len()
            invariant
                i <= runs@.len(),
                all == lines_of(runs@),
                self.has_room(),
                self.span > 0,
                out@ == start + self.areas(all.take(i as int)),
            decreases runs@.len() - i,
        {
            let run = &runs[i];
            let ghost before = out@;
            assert(all.take(i + 1).drop_last() == all.take(i as int));
            assert(all.take(i + 1).last() == run@);
            if run.len() >= 2 {
                self.push_path(out, run);
                out.push(Command::LineTo(self.x(run[run.len() - 1].0), self.bottom()));
                out.push(Command::LineTo(self.x(run[0].0), self.bottom()));
                out.push(Command::ClosePath);
                out.push(Command::Fill);
            }
            assert(out@ == before + self.area(run@));
            assert(out@ == start + self.areas(all.take(i + 1)));
            i += 1;
        }
        assert(all.take(i as int) == all);
    }

    fn push_dashes(&self, out: &mut Vec<Command>, bridges: &Vec<Bridge>)
        requires
            self.has_room(),
            self.span > 0,
        ensures
            final(out)@ == old(out)@ + self.dashes(bridges@),
    {
        let ghost start = out@;
        let mut i: usize = 0;
        assert(bridges@.take(0) == Seq::<Bridge>::empty());
        assert(start + self.dashes(bridges@.take(0)) == start);
        while i < bridges.len()
            invariant
                i <= bridges@.len(),
                self.has_room(),
                self.span > 0,
                out@ == start + self.dashes(bridges@.take(i as int)),
            decreases bridges@.len() - i,
        {
            let bridge = bridges[i];
            assert(bridges@.take(i + 1).drop_last() == bridges@.take(i as int));
            out.push(Command::MoveTo(self.x(bridge.from.0), self.y(bridge.from.1)));
            out.push(Command::LineTo(self.x(bridge.to.0), self.y(bridge.to.1)));
            out.push(Command::Stroke);
            assert(out@ == start + self.dashes(bridges@.take(i + 1)));
            i += 1;
        }
        assert(bridges@.take(i as int) == bridges@);
    }

    fn push_strokes(&self, out: &mut Vec<Command>, segments: &Vec<Segment>, palette: Palette)
        requires
            self.has_room(),
            self.span > 0,
        ensures
            final(out)@ == old(out)@ + self.strokes(shapes(segments@), palette),
    {
        let ghost start = out@;
        let ghost v = shapes(segments@);
        let mut i: usize = 0;
        assert(v.take(0) == Seq::<SegmentModel>::empty());
        assert(start + self.strokes(v.take(0), palette) == start);
        while i < segments.len()
            invariant
                i <= segments@.len(),
                v == shapes(segments@),
                self.has_room(),
                self.span > 0,
                out@ == start + self.strokes(v.take(i as int), palette),
            decreases segments@.len() - i,
        {
            let segment = &segments[i];
            let ghost before = out@;
            assert(v.take(i + 1).drop_last() == v.take(i as int));
            assert(v.take(i + 1).last() == segment@);
            if segment.points.len() >= 2 {
                self.push_path(out, &segment.points);
                out.push(Command::Source(palette.trend(segment.trend)));
                out.push(Command::Stroke);
            }
            assert(out@ == before + self.stroke(segment@, palette));
            assert(out@ == start + self.strokes(v.take(i + 1), palette));
            i += 1;
        }
        assert(v.take(i as int) == v);
    }

    fn push_dot(&self, out: &mut Vec<Command>, segments: &Vec<Segment>, palette: Palette)
        requires
            self.has_room(),
            self.span > 0,
        ensures
            final(out)@ == old(out)@ + self.dot(shapes(segments@), palette),
    {
        let ghost v = shapes(segments@);
        if segments.len() > 0 {
            let segment = &segments[segments.len() - 1];
            assert(v.last() == segment@);
            if segment.points.len() > 0 {
                let last: Point = segment.points[segment.points.len() - 1];
                out.push(Command::Source(palette.trend(segment.trend)));
                out.push(Command::Circle(self.x(last.0), self.y(last.1), DOT_RADIUS));
                out.push(Command::Fill);
            }
        }
        assert(out@ == old(out)@ + self.dot(v, palette));
    }
}

/// What is drawn of a series: nothing where there is no room, only the grid where
/// there is no line to draw.
pub open spec fn drawing(
    v: Seq<SegmentModel>,
    bridges: Seq<Bridge>,
    frame: Frame,
    palette: Palette,
) -> Seq<Command> {
    if !frame.has_room() {
        seq![]
    } else if frame.span <= 0 || count(v) < 2 {
        frame.grid(palette)
    } else {
        frame.grid(palette) + frame.charge(v, bridges, palette)
    }
}

impl Series {
    /// Everything to paint on a canvas of that many pixels, in order.
    pub fn draw(&self, width: i32, height: i32, palette: Palette) -> (r: Vec<Command>)
        ensures
            r@ == self.painted(width, height, palette),
    {
        let frame = Frame { width, height, span: self.span };
        let ghost v = shapes(self.segments@);
        let mut out: Vec<Command> = Vec::new();
        if width <= 28 || height <= 28 {
            return out;
        }
        frame.push_grid(&mut out, palette);
        assert(out@ == frame.grid(palette));
        if self.span <= 0 || self.points() < 2 {
            return out;
        }
        let current = if self.segments.len() > 0 {
            assert(v.last() == self.segments@.last()@);
            self.segments[self.segments.len() - 1].trend
        } else {
            Trend::Idle
        };
        out.push(Command::LineWidth(LINE_WIDTH));
        out.push(Command::RoundEnds);
        out.push(Command::Source(palette.trend(current).with_alpha(FILL_ALPHA)));
        let runs = self.runs();
        frame.push_areas(&mut out, &runs);
        out.push(Command::Dashed);
        out.push(Command::Source(palette.idle));
        frame.push_dashes(&mut out, &self.bridges);
        out.push(Command::Solid);
        frame.push_strokes(&mut out, &self.segments, palette);
        frame.push_dot(&mut out, &self.segments, palette);
        assert(out@ == frame.grid(palette) + frame.charge(v, self.bridges@, palette));
        out
    }
}

/// Whether a place across the canvas lies over a gap.
pub open spec fn over(frame: Frame, bridge: Bridge, x: int) -> bool {
    frame.across(bridge.from.0 as int) <= x <= frame.across(bridge.to.0 as int)
}

impl Series {
    /// The gap at a place across the canvas; the first where there are several.
    pub fn bridge_under(&self, width: i32, height: i32, x: Micro) -> (r: Option<Bridge>)
        ensures
            ({
                let frame = Frame { width, height, span: self.span };
                match r {
                    Some(bridge) => {
                        &&& frame.has_room() && self.span > 0
                        &&& exists|i: int|
                            0 <= i < self.bridges@.len() && bridge == #[trigger] self.bridges@[i]
                                && over(frame, bridge, x as int) && forall|j: int|
                                0 <= j < i ==> !over(frame, #[trigger] self.bridges@[j], x as int)
                    },
                    None => frame.has_room() && self.span > 0 ==> forall|j: int|
                        0 <= j < self.bridges@.len() ==> !over(
                            frame,
                            #[trigger] self.bridges@[j],
                            x as int,
                        ),
                }
            }),
    {
        let frame = Frame { width, height, span: self.span };
        if width <= 28 || height <= 28 || self.span <= 0 {
            return None;
        }
        let mut i: usize = 0;
        while i < self.bridges.len()
            invariant
                i <= self.bridges@.len(),
                frame == (Frame { width, height, span: self.span }),
                frame.has_room(),
                self.span > 0,
                forall|j: int|
                    0 <= j < i ==> !over(frame, #[trigger] self.bridges@[j], x as int),
            decreases self.bridges@.len() - i,
        {
            let bridge = self.bridges[i];
            if frame.x(bridge.from.0) <= x && x <= frame.x(bridge.to.0) {
                return Some(bridge);
            }
            i += 1;
        }
        None
    }
}

} // verus!

//! What a drawing shows of the readings, step by step.

use vstd::prelude::*;

use super::laws::{
    laid_out, law_every_reading_is_drawn_once, law_only_a_gap_splits_the_filled_area, points_upto,
};
use super::{
    bridge_at, bridges_upto, count, drawing, gap_before, lemma_segment_end, mark_of, marks_in,
    marks_of, merged, opens, over, segment_at, segment_end, segments_from, without_first, Bridge,
    Command, Frame, Mark, Palette, Rgba, SegmentModel, Series, Trend, FILL_ALPHA, LINE_WIDTH,
};
use crate::battery::history::{Follows, Sample};
use crate::battery::types::Status;
use crate::decimal::fixed;
use crate::format::duration_text;
use crate::micro::{law_nearest_lies_within_a_half, nearest, UNIT};
use crate::order::{ordered, Timed};
use crate::recordings::Point;

verus! {

// ---------------------------------------------------------------------------
// Where a reading lies

/// A reading lies as far along the plot as its moment lies along the time that
/// the plot spans, and as far down from the top as the charge lies below full, to
/// the nearest millionth of a pixel. The margins are fourteen pixels.
pub proof fn law_where_a_reading_lies(frame: Frame, at: int, percent: int)
    requires
        frame.width > 28,
        frame.height > 28,
        0 <= at <= frame.span,
        0 < frame.span,
        0 <= percent <= 100_000_000,
    ensures
        -frame.span <= 2 * (frame.span * (frame.across(at) - 14_000_000) - at * ((frame.width - 28)
            * 1_000_000)) <= frame.span,
        -100 <= 2 * (100 * (frame.down(percent) - 14_000_000) - (100_000_000 - percent) * (
        frame.height - 28)) <= 100,
{
    let wide = (frame.width - 28) * 1_000_000;
    let span = frame.span as int;
    law_nearest_lies_within_a_half(at * wide, span);
    let x = nearest(at * wide, span);
    assert(-1 <= x <= wide + 1) by (nonlinear_arith)
        requires
            -span <= 2 * (span * x - at * wide) <= span,
            0 <= at <= span,
            0 < span,
            wide > 0,
    ;
    let tall = frame.height - 28;
    let up = 100_000_000 - percent;
    law_nearest_lies_within_a_half(up * tall, 100);
    let y = nearest(up * tall, 100);
    assert(0 <= up * tall <= 100_000_000 * tall) by (nonlinear_arith)
        requires
            0 <= up <= 100_000_000,
            tall > 0,
    ;
}

/// The later a reading, the further right it lies; the fuller, the higher.
pub proof fn law_the_plot_keeps_the_order(frame: Frame, a: int, b: int)
    requires
        frame.width > 28,
        frame.height > 28,
        0 < frame.span,
    ensures
        0 <= a <= b <= frame.span ==> frame.across(a) <= frame.across(b),
        0 <= a <= b <= 100_000_000 ==> frame.down(a) >= frame.down(b),
{
    let span = frame.span as int;
    let wide = (frame.width - 28) * 1_000_000;
    let tall = frame.height - 28;
    if 0 <= a <= b <= span {
        law_where_a_reading_lies(frame, a, 0);
        law_where_a_reading_lies(frame, b, 0);
        law_nearest_lies_within_a_half(a * wide, span);
        let x = frame.across(a) - 14_000_000;
        let y = frame.across(b) - 14_000_000;
        if a < b {
            assert(x <= y) by (nonlinear_arith)
                requires
                    2 * (span * x - a * wide) <= span,
                    2 * (span * y - b * wide) >= -span,
                    a < b,
                    wide > 0,
                    span > 0,
            ;
        }
    }
    if 0 <= a <= b <= 100_000_000 {
        law_where_a_reading_lies(frame, 0, a);
        law_where_a_reading_lies(frame, 0, b);
        let x = frame.down(a) - 14_000_000;
        let y = frame.down(b) - 14_000_000;
        if a < b {
            assert(x >= y) by (nonlinear_arith)
                requires
                    2 * (100 * x - (100_000_000 - a) * tall) >= -100,
                    2 * (100 * y - (100_000_000 - b) * tall) <= 100,
                    a < b,
                    tall > 0,
            ;
        }
    }
}

/// A reading of a history is on the plot with its own charge, as many seconds
/// along as it came after the first, in the colour of what the battery was doing.
pub proof fn law_a_reading_as_the_plot_has_it(s: Seq<Sample>, i: int)
    requires
        ordered(s),
        0 <= i < s.len(),
        s.last().at - s[0].at <= 9_000_000_000_000,
    ensures
        marks_in(s).len() == s.len(),
        marks_in(s)[i].point.0 == (s[i].at - s[0].at) * UNIT,
        marks_in(s)[i].point.1 == s[i].percent,
        marks_in(s)[i].follows == s[i].follows,
        marks_in(s)[i].trend == Trend::Charging <==> s[i].status == Status::Charging,
        marks_in(s)[i].trend == Trend::Discharging <==> s[i].status == Status::Discharging,
{
    if 0 < i {
        assert(s[0].time() <= s[i].time());
    }
    if i < s.len() - 1 {
        assert(s[i].time() <= s[s.len() - 1].time());
    }
    assert(marks_in(s)[i] == mark_of(s[0].at as int, s[i]));
}

/// Each trend has its own colour.
pub proof fn law_each_trend_has_its_own_colour(palette: Palette)
    ensures
        palette.ink(Trend::Charging) == palette.charging,
        palette.ink(Trend::Discharging) == palette.discharging,
        palette.ink(Trend::Idle) == palette.idle,
{
}

// ---------------------------------------------------------------------------
// Lines between readings

/// All that is drawn of some readings.
pub open spec fn plot(s: Seq<Mark>, gap: int, frame: Frame, palette: Palette) -> Seq<Command> {
    drawing(segments_from(s, 0, gap), bridges_upto(s, s.len() as int, gap), frame, palette)
}

/// What belongs to no trend is in the foreground colour: nearly half of it where
/// the battery idles, a tenth of it in the grid.
pub proof fn law_the_rest_is_faded_foreground(charging: Rgba, discharging: Rgba, foreground: Rgba)
    ensures
        ({
            let palette = Palette::over_foreground(charging, discharging, foreground);
            &&& palette.charging == charging
            &&& palette.discharging == discharging
            &&& palette.idle == (Rgba { alpha: 450_000, ..foreground })
            &&& palette.grid == (Rgba { alpha: 100_000, ..foreground })
        }),
{
}

/// The colour of a trend.
pub open spec fn colour(palette: Palette, trend: Trend) -> Rgba {
    match trend {
        Trend::Charging => palette.charging,
        Trend::Discharging => palette.discharging,
        Trend::Idle => palette.idle,
    }
}

/// Step `j` of a drawing comes to the place of `p`.
pub open spec fn comes_to(d: Seq<Command>, j: int, frame: Frame, p: Point) -> bool {
    let x = frame.across(p.0 as int) as i64;
    let y = frame.down(p.1 as int) as i64;
    0 <= j < d.len() && (d[j] == Command::MoveTo(x, y) || d[j] == Command::LineTo(x, y))
}

/// Step `j` of a drawing starts at the place of `p`.
pub open spec fn starts_at(d: Seq<Command>, j: int, frame: Frame, p: Point) -> bool {
    0 <= j < d.len() && d[j] == Command::MoveTo(
        frame.across(p.0 as int) as i64,
        frame.down(p.1 as int) as i64,
    )
}

/// Step `j` of a drawing draws a line to the place of `p`.
pub open spec fn draws_to(d: Seq<Command>, j: int, frame: Frame, p: Point) -> bool {
    0 <= j < d.len() && d[j] == Command::LineTo(
        frame.across(p.0 as int) as i64,
        frame.down(p.1 as int) as i64,
    )
}

/// Nothing but lines is drawn from step `j` to before step `k`.
pub open spec fn only_lines(d: Seq<Command>, j: int, k: int) -> bool {
    forall|l: int| j <= l < k ==> (#[trigger] d[l]) is LineTo
}

/// From step `j` on a line is drawn from `p` to `q`, and the path it is in is
/// stroked in that colour.
pub open spec fn strokes_between(
    d: Seq<Command>,
    j: int,
    k: int,
    frame: Frame,
    p: Point,
    q: Point,
    ink: Rgba,
) -> bool {
    &&& comes_to(d, j, frame, p)
    &&& draws_to(d, j + 1, frame, q)
    &&& j + 1 < k < d.len() - 1
    &&& only_lines(d, j + 1, k)
    &&& d[k] == Command::Source(ink)
    &&& d[k + 1] == Command::Stroke
}

/// From step `j` on a line is drawn from `p` to `q`, and the area under the path
/// it is in is filled down to the bottom of the plot.
pub open spec fn fills_between(
    d: Seq<Command>,
    j: int,
    k: int,
    frame: Frame,
    p: Point,
    q: Point,
) -> bool {
    &&& comes_to(d, j, frame, p)
    &&& draws_to(d, j + 1, frame, q)
    &&& j + 3 < k < d.len() - 1
    &&& only_lines(d, j + 1, k)
    &&& d[k - 2]->LineTo_1 == (frame.height - 14) * 1_000_000
    &&& d[k - 1]->LineTo_1 == (frame.height - 14) * 1_000_000
    &&& d[k] == Command::ClosePath
    &&& d[k + 1] == Command::Fill
}

/// `q` comes right after `p` among the points of a segment of that trend.
spec fn segment_joins(v: Seq<SegmentModel>, m: int, l: int, p: Mark, q: Mark) -> bool {
    &&& 0 <= m < v.len()
    &&& 0 <= l < v[m].points.len() - 1
    &&& v[m].points[l] == p.point
    &&& v[m].points[l + 1] == q.point
    &&& v[m].trend == q.trend
}

proof fn lemma_pair(s: Seq<Mark>, gap: int, a: int, i: int) -> (r: (int, int))
    requires
        0 <= a <= i < s.len(),
        0 < i,
        opens(s, a, gap),
        !gap_before(s, i, gap),
    ensures
        segment_joins(segments_from(s, a, gap), r.0, r.1, s[i - 1], s[i]),
    decreases s.len() - a,
{
    lemma_segment_end(s, a + 1, gap);
    let b = segment_end(s, a + 1, gap);
    let v = segments_from(s, a, gap);
    let rest = segments_from(s, b, gap);
    if i < b {
        let segment = segment_at(s, a, gap);
        assert(v[0] == segment);
        let carried: int = if a > 0 && !gap_before(s, a, gap) {
            1
        } else {
            0
        };
        let l = carried + i - 1 - a;
        lemma_same_trend(s, gap, a, i);
        if i > a {
            assert(segment.points[l] == s[a + (l - carried)].point);
        } else {
            assert(segment.points[0] == s[a - 1].point);
        }
        assert(segment.points[l + 1] == s[a + (l + 1 - carried)].point);
        (0, l)
    } else {
        let r = lemma_pair(s, gap, b, i);
        assert(v[r.0 + 1] == rest[r.0]);
        (r.0 + 1, r.1)
    }
}

/// Within a segment the trend is one.
proof fn lemma_same_trend(s: Seq<Mark>, gap: int, a: int, i: int)
    requires
        0 <= a <= i < s.len(),
        forall|k: int| a < k <= i ==> !opens(s, k, gap),
    ensures
        s[i].trend == s[a].trend,
    decreases i - a,
{
    if a < i {
        assert(!opens(s, i, gap));
        lemma_same_trend(s, gap, a, i - 1);
    }
}

/// Where the steps of `part` stand in `whole`.
spec fn stands_in(part: Seq<Command>, whole: Seq<Command>, o: int) -> bool {
    &&& 0 <= o
    &&& o + part.len() <= whole.len()
    &&& forall|t: int| 0 <= t < part.len() ==> whole[o + t] == #[trigger] part[t]
}

proof fn lemma_stroke_stands(frame: Frame, v: Seq<SegmentModel>, palette: Palette, m: int) -> (o:
    int)
    requires
        0 <= m < v.len(),
    ensures
        stands_in(frame.stroke(v[m], palette), frame.strokes(v, palette), o),
    decreases v.len(),
{
    let init = frame.strokes(v.drop_last(), palette);
    if m == v.len() - 1 {
        init.len() as int
    } else {
        let o = lemma_stroke_stands(frame, v.drop_last(), palette, m);
        o
    }
}

proof fn lemma_area_stands(frame: Frame, runs: Seq<Seq<Point>>, m: int) -> (o: int)
    requires
        0 <= m < runs.len(),
    ensures
        stands_in(frame.area(runs[m]), frame.areas(runs), o),
    decreases runs.len(),
{
    let init = frame.areas(runs.drop_last());
    if m == runs.len() - 1 {
        init.len() as int
    } else {
        let o = lemma_area_stands(frame, runs.drop_last(), m);
        o
    }
}

proof fn lemma_dash_stands(frame: Frame, bridges: Seq<Bridge>, m: int) -> (o: int)
    requires
        0 <= m < bridges.len(),
    ensures
        stands_in(
            seq![
                frame.move_to(bridges[m].from),
                frame.line_to(bridges[m].to),
                Command::Stroke,
            ],
            frame.dashes(bridges),
            o,
        ),
    decreases bridges.len(),
{
    let init = frame.dashes(bridges.drop_last());
    if m == bridges.len() - 1 {
        init.len() as int
    } else {
        let o = lemma_dash_stands(frame, bridges.drop_last(), m);
        o
    }
}

proof fn lemma_count(v: Seq<SegmentModel>, m: int)
    requires
        0 <= m < v.len(),
    ensures
        count(v) >= v[m].points.len(),
    decreases v.len(),
{
    if m < v.len() - 1 {
        lemma_count(v.drop_last(), m);
    }
}

/// Two readings with no gap between them are joined by a line, stroked in the
/// colour of what the battery was doing at the second.
#[verifier::spinoff_prover]
#[verifier::rlimit(40)]
pub proof fn law_neighbours_are_joined(
    s: Seq<Mark>,
    gap: int,
    frame: Frame,
    palette: Palette,
    i: int,
)
    requires
        frame.width > 28,
        frame.height > 28,
        frame.span > 0,
        0 < i < s.len(),
        s[i].point.0 - s[i - 1].point.0 <= gap,
    ensures
        exists|j: int, k: int|
            #[trigger] strokes_between(
                plot(s, gap, frame, palette),
                j,
                k,
                frame,
                s[i - 1].point,
                s[i].point,
                colour(palette, s[i].trend),
            ),
{
    let v = segments_from(s, 0, gap);
    let bridges = bridges_upto(s, s.len() as int, gap);
    let d = plot(s, gap, frame, palette);
    let (m, l) = lemma_pair(s, gap, 0, i);
    lemma_count(v, m);
    let n = v[m].points.len() as int;
    let o = lemma_stroke_stands(frame, v, palette, m);
    let part = frame.stroke(v[m], palette);
    let ahead = frame.grid(palette) + seq![
        Command::LineWidth(LINE_WIDTH),
        Command::RoundEnds,
        Command::Source(palette.ink(v.last().trend).faded(FILL_ALPHA)),
    ] + frame.areas(merged(v)) + seq![Command::Dashed, Command::Source(palette.idle)]
        + frame.dashes(bridges) + seq![Command::Solid];
    let all = frame.strokes(v, palette);
    assert(d == ahead + all + frame.dot(v, palette));
    let base = ahead.len() + o;
    assert forall|t: int| 0 <= t < part.len() implies d[base + t] == #[trigger] part[t] by {
        assert(all[o + t] == part[t]);
    }
    let j = base + l;
    let k = base + n;
    assert(d[base + l] == part[l]);
    assert(d[base + l + 1] == part[l + 1]);
    assert(d[base + n] == part[n]);
    assert(d[base + n + 1] == part[n + 1]);
    assert forall|t: int| j + 1 <= t < k implies (#[trigger] d[t]) is LineTo by {
        assert(d[base + (t - base)] == part[t - base]);
    }
    assert(strokes_between(
        d,
        j,
        k,
        frame,
        s[i - 1].point,
        s[i].point,
        colour(palette, s[i].trend),
    ));
}

/// `q` comes right after `p` in one of the runs.
spec fn run_joins(runs: Seq<Seq<Point>>, r: int, l: int, p: Point, q: Point) -> bool {
    0 <= r < runs.len() && 0 <= l < runs[r].len() - 1 && runs[r][l] == p && runs[r][l + 1] == q
}

spec fn in_a_run(runs: Seq<Seq<Point>>, p: Point, q: Point) -> bool {
    exists|r: int, l: int| run_joins(runs, r, l, p, q)
}

/// Every two of the first `a` readings with no gap between them are in one run.
spec fn joined_upto(s: Seq<Mark>, gap: int, pre: Seq<SegmentModel>, a: int) -> bool {
    &&& forall|i: int|
        0 < i < a && !(#[trigger] gap_before(s, i, gap)) ==> in_a_run(
            merged(pre),
            s[i - 1].point,
            s[i].point,
        )
    &&& if a == 0 {
        pre.len() == 0
    } else {
        merged(pre).len() > 0 && merged(pre).last().len() > 0 && merged(pre).last().last() == s[a
            - 1].point
    }
}

/// The segment that starts with reading `a` ends the last run, after what the run
/// held where no gap lies between.
proof fn lemma_grown(s: Seq<Mark>, gap: int, pre: Seq<SegmentModel>, a: int) -> (from: int)
    requires
        0 <= a < s.len(),
        a == 0 ==> pre.len() == 0,
        a > 0 ==> merged(pre).len() > 0 && merged(pre).last().len() > 0,
    ensures
        ({
            let all = merged(pre.push(segment_at(s, a, gap)));
            let n = segment_end(s, a + 1, gap) - a;
            &&& n > 0
            &&& all.len() > 0
            &&& all.last().len() == from + n
            &&& forall|t: int| 0 <= t < n ==> #[trigger] all.last()[from + t] == s[a + t].point
            &&& a > 0 && !gap_before(s, a, gap) ==> from > 0 && all.last()[from - 1] == merged(
                pre,
            ).last().last()
            &&& merged(pre).len() <= all.len()
            &&& forall|r: int|
                0 <= r < merged(pre).len() ==> (#[trigger] merged(pre)[r]).len() <= all[r].len()
            &&& forall|r: int, l: int|
                0 <= r < merged(pre).len() && 0 <= l < merged(pre)[r].len() ==> (
                #[trigger] merged(pre)[r][l]) == all[r][l]
        }),
{
    lemma_segment_end(s, a + 1, gap);
    let b = segment_end(s, a + 1, gap);
    let segment = segment_at(s, a, gap);
    let next = pre.push(segment);
    assert(next.drop_last() == pre);
    let rest = merged(pre);
    let fresh = Seq::new((b - a) as nat, |k: int| s[a + k].point);
    if segment.broke {
        assert(segment.points == fresh);
        if a == 0 {
            assert(rest == Seq::<Seq<Point>>::empty());
        }
        assert(merged(next) == rest.push(fresh));
        0
    } else {
        assert(segment.points == seq![s[a - 1].point] + fresh);
        assert(without_first(segment.points) == fresh);
        assert(merged(next) == rest.drop_last().push(rest.last() + fresh));
        rest.last().len() as int
    }
}

proof fn lemma_join_more(s: Seq<Mark>, gap: int, pre: Seq<SegmentModel>, a: int)
    requires
        0 <= a < s.len(),
        opens(s, a, gap),
        joined_upto(s, gap, pre, a),
    ensures
        joined_upto(s, gap, pre.push(segment_at(s, a, gap)), segment_end(s, a + 1, gap)),
{
    let from = lemma_grown(s, gap, pre, a);
    let b = segment_end(s, a + 1, gap);
    let rest = merged(pre);
    let all = merged(pre.push(segment_at(s, a, gap)));
    let last = all.len() - 1;
    assert(all.last()[from + (b - a - 1)] == s[a + (b - a - 1)].point);
    assert forall|i: int| 0 < i < b && !(#[trigger] gap_before(s, i, gap)) implies in_a_run(
        all,
        s[i - 1].point,
        s[i].point,
    ) by {
        let p = s[i - 1].point;
        let q = s[i].point;
        if i < a {
            assert(in_a_run(rest, p, q));
            let (r, l) = choose|r: int, l: int| run_joins(rest, r, l, p, q);
            assert(rest[r][l] == all[r][l] && rest[r][l + 1] == all[r][l + 1]);
            assert(rest[r].len() <= all[r].len());
            assert(run_joins(all, r, l, p, q));
        } else if i == a {
            assert(all.last()[from + 0] == s[a + 0].point);
            assert(run_joins(all, last, from - 1, p, q));
        } else {
            assert(all.last()[from + (i - 1 - a)] == s[a + (i - 1 - a)].point);
            assert(all.last()[from + (i - a)] == s[a + (i - a)].point);
            assert(run_joins(all, last, from + i - 1 - a, p, q));
        }
    }
}

proof fn lemma_join_prefix(s: Seq<Mark>, gap: int, pre: Seq<SegmentModel>, a: int)
    requires
        0 <= a <= s.len(),
        a < s.len() ==> opens(s, a, gap),
        segments_from(s, 0, gap) == pre + segments_from(s, a, gap),
        joined_upto(s, gap, pre, a),
    ensures
        joined_upto(s, gap, segments_from(s, 0, gap), s.len() as int),
    decreases s.len() - a,
{
    if a >= s.len() {
        assert(pre + segments_from(s, a, gap) == pre);
    } else {
        lemma_segment_end(s, a + 1, gap);
        let b = segment_end(s, a + 1, gap);
        let next = pre.push(segment_at(s, a, gap));
        assert(pre + segments_from(s, a, gap) == next + segments_from(s, b, gap));
        lemma_join_more(s, gap, pre, a);
        lemma_join_prefix(s, gap, next, b);
    }
}

/// Two readings with no gap between them are joined in the filled area too: under
/// the line from one to the other it reaches down to the bottom of the plot.
#[verifier::spinoff_prover]
#[verifier::rlimit(40)]
pub proof fn law_the_area_under_neighbours_is_filled(
    s: Seq<Mark>,
    gap: int,
    frame: Frame,
    palette: Palette,
    i: int,
)
    requires
        frame.width > 28,
        frame.height > 28,
        frame.span > 0,
        0 < i < s.len(),
        s[i].point.0 - s[i - 1].point.0 <= gap,
    ensures
        exists|j: int, k: int|
            #[trigger] fills_between(
                plot(s, gap, frame, palette),
                j,
                k,
                frame,
                s[i - 1].point,
                s[i].point,
            ),
{
    let v = segments_from(s, 0, gap);
    let bridges = bridges_upto(s, s.len() as int, gap);
    let d = plot(s, gap, frame, palette);
    let (m, _) = lemma_pair(s, gap, 0, i);
    lemma_count(v, m);
    let none = Seq::<SegmentModel>::empty();
    assert(none + v == v);
    lemma_join_prefix(s, gap, none, 0);
    assert(!gap_before(s, i, gap));
    let runs = merged(v);
    let p = s[i - 1].point;
    let q = s[i].point;
    assert(in_a_run(runs, p, q));
    let (r, l) = choose|r: int, l: int| run_joins(runs, r, l, p, q);
    let run = runs[r];
    let o = lemma_area_stands(frame, runs, r);
    let part = frame.area(run);
    let ahead = frame.grid(palette) + seq![
        Command::LineWidth(LINE_WIDTH),
        Command::RoundEnds,
        Command::Source(palette.ink(v.last().trend).faded(FILL_ALPHA)),
    ];
    let all = frame.areas(runs);
    let after = seq![Command::Dashed, Command::Source(palette.idle)] + frame.dashes(bridges)
        + seq![Command::Solid] + frame.strokes(v, palette) + frame.dot(v, palette);
    assert(d == ahead + all + after);
    let base = ahead.len() + o;
    assert forall|t: int| 0 <= t < part.len() implies d[base + t] == #[trigger] part[t] by {
        assert(all[o + t] == part[t]);
    }
    let n = run.len() as int;
    let j = base + l;
    let k = base + n + 2;
    assert(d[base + l] == part[l]);
    assert(d[base + l + 1] == part[l + 1]);
    assert(d[base + n] == part[n]);
    assert(d[base + n + 1] == part[n + 1]);
    assert(d[base + n + 2] == part[n + 2]);
    assert(d[base + n + 3] == part[n + 3]);
    assert forall|t: int| j + 1 <= t < k implies (#[trigger] d[t]) is LineTo by {
        assert(d[base + (t - base)] == part[t - base]);
    }
    assert(fills_between(d, j, k, frame, s[i - 1].point, s[i].point));
}

proof fn lemma_bridge_found(s: Seq<Mark>, gap: int, n: int, i: int) -> (m: int)
    requires
        0 < i < n <= s.len(),
        gap_before(s, i, gap),
    ensures
        0 <= m < bridges_upto(s, n, gap).len(),
        bridges_upto(s, n, gap)[m] == bridge_at(s, i),
    decreases n,
{
    let rest = bridges_upto(s, n - 1, gap);
    if i == n - 1 {
        rest.len() as int
    } else {
        lemma_bridge_found(s, gap, n - 1, i)
    }
}

/// Each gap is among the bridges: from the last reading before it to the first
/// after it, as what that one says it follows.
pub proof fn law_every_gap_is_bridged(s: Seq<Mark>, gap: int, i: int)
    requires
        0 < i < s.len(),
        s[i].point.0 - s[i - 1].point.0 > gap,
    ensures
        exists|m: int|
            {
                &&& 0 <= m < bridges_upto(s, s.len() as int, gap).len()
                &&& (#[trigger] bridges_upto(s, s.len() as int, gap)[m]).from == s[i - 1].point
                &&& bridges_upto(s, s.len() as int, gap)[m].to == s[i].point
                &&& bridges_upto(s, s.len() as int, gap)[m].follows == s[i].follows
            },
{
    let m = lemma_bridge_found(s, gap, s.len() as int, i);
    assert(bridges_upto(s, s.len() as int, gap)[m].from == s[i - 1].point);
}

/// The bridge leads from reading `i - 1` to reading `i`, which lies further from it
/// than the gap.
pub open spec fn bridges_gap(bridge: Bridge, s: Seq<Mark>, i: int, gap: int) -> bool {
    &&& 0 < i < s.len()
    &&& bridge.from == s[i - 1].point
    &&& bridge.to == s[i].point
    &&& bridge.follows == s[i].follows
    &&& s[i].point.0 - s[i - 1].point.0 > gap
}

/// And nothing else is: each bridge spans two neighbours further apart than the
/// threshold.
pub proof fn law_only_gaps_are_bridged(s: Seq<Mark>, gap: int, n: int, m: int)
    requires
        0 <= n <= s.len(),
        0 <= m < bridges_upto(s, n, gap).len(),
    ensures
        exists|i: int| i < n && #[trigger] bridges_gap(bridges_upto(s, n, gap)[m], s, i, gap),
    decreases n,
{
    let rest = bridges_upto(s, n - 1, gap);
    if m < rest.len() {
        law_only_gaps_are_bridged(s, gap, n - 1, m);
    } else {
        assert(bridges_gap(bridges_upto(s, n, gap)[m], s, n - 1, gap));
    }
}

/// A dashed line of its own leads over each gap.
#[verifier::spinoff_prover]
#[verifier::rlimit(40)]
pub proof fn law_a_dashed_line_leads_over_a_gap(
    s: Seq<Mark>,
    gap: int,
    frame: Frame,
    palette: Palette,
    i: int,
)
    requires
        frame.width > 28,
        frame.height > 28,
        frame.span > 0,
        0 < i < s.len(),
        s[i].point.0 - s[i - 1].point.0 > gap,
        count(segments_from(s, 0, gap)) >= 2,
    ensures
        exists|b: int, j: int, e: int|
            #[trigger] only_dashes(plot(s, gap, frame, palette), b, j, e) && plot(
                s,
                gap,
                frame,
                palette,
            )[b + 1] == Command::Source(palette.idle) && starts_at(
                plot(s, gap, frame, palette),
                j,
                frame,
                s[i - 1].point,
            ) && draws_to(plot(s, gap, frame, palette), j + 1, frame, s[i].point) && plot(
                s,
                gap,
                frame,
                palette,
            )[j + 2] == Command::Stroke,
{
    let v = segments_from(s, 0, gap);
    let bridges = bridges_upto(s, s.len() as int, gap);
    let d = plot(s, gap, frame, palette);
    let m = lemma_bridge_found(s, gap, s.len() as int, i);
    let o = lemma_dash_stands(frame, bridges, m);
    let part = seq![
        frame.move_to(bridges[m].from),
        frame.line_to(bridges[m].to),
        Command::Stroke,
    ];
    let ahead = frame.grid(palette) + seq![
        Command::LineWidth(LINE_WIDTH),
        Command::RoundEnds,
        Command::Source(palette.ink(v.last().trend).faded(FILL_ALPHA)),
    ] + frame.areas(merged(v));
    let all = frame.dashes(bridges);
    assert(v.len() > 0);
    let head = seq![Command::Dashed, Command::Source(palette.idle)];
    let after = seq![Command::Solid] + frame.strokes(v, palette) + frame.dot(v, palette);
    assert(d == ahead + head + all + after);
    let b = ahead.len() as int;
    let base = b + 2 + o;
    let e = b + 2 + all.len();
    assert(all[o] == part[0] && all[o + 1] == part[1] && all[o + 2] == part[2]);
    assert(d[base] == part[0] && d[base + 1] == part[1] && d[base + 2] == part[2]);
    lemma_dashes_plain(frame, bridges);
    assert forall|t: int| b < t < e implies (#[trigger] d[t]) !is Solid && d[t] !is Dashed by {
        if t > b + 1 {
            assert(d[t] == all[t - b - 2]);
        }
    }
    assert(only_dashes(d, b, base, e));
}

/// From step `b` to step `e` lines are dashed, and step `j` lies between.
pub open spec fn only_dashes(d: Seq<Command>, b: int, j: int, e: int) -> bool {
    &&& 0 <= b < j < e < d.len()
    &&& d[b] == Command::Dashed
    &&& d[e] == Command::Solid
    &&& forall|t: int| b < t < e ==> (#[trigger] d[t]) !is Solid && d[t] !is Dashed
}

proof fn lemma_dashes_plain(frame: Frame, bridges: Seq<Bridge>)
    ensures
        forall|t: int|
            0 <= t < frame.dashes(bridges).len() ==> (#[trigger] frame.dashes(bridges)[t])
                !is Solid && frame.dashes(bridges)[t] !is Dashed,
    decreases bridges.len(),
{
    if bridges.len() > 0 {
        lemma_dashes_plain(frame, bridges.drop_last());
        let init = frame.dashes(bridges.drop_last());
        let all = frame.dashes(bridges);
        assert forall|t: int| 0 <= t < all.len() implies (#[trigger] all[t]) !is Solid && all[t]
            !is Dashed by {
            if t < init.len() {
                assert(all[t] == init[t]);
            }
        }
    }
}

// ---------------------------------------------------------------------------
// What ends a drawing, and what it stands on

proof fn lemma_last_segment(s: Seq<Mark>, gap: int, a: int)
    requires
        0 <= a < s.len(),
        opens(s, a, gap),
    ensures
        segments_from(s, a, gap).len() > 0,
        segments_from(s, a, gap).last().trend == s.last().trend,
        segments_from(s, a, gap).last().points.len() > 0,
        segments_from(s, a, gap).last().points.last() == s.last().point,
    decreases s.len() - a,
{
    lemma_segment_end(s, a + 1, gap);
    let b = segment_end(s, a + 1, gap);
    let segment = segment_at(s, a, gap);
    let rest = segments_from(s, b, gap);
    let v = segments_from(s, a, gap);
    if b < s.len() {
        lemma_last_segment(s, gap, b);
        assert(v.last() == rest.last());
    } else {
        assert(rest == Seq::<SegmentModel>::empty());
        assert(v.last() == segment);
        lemma_same_trend(s, gap, a, b - 1);
        let carried: int = if a > 0 && !gap_before(s, a, gap) {
            1
        } else {
            0
        };
        assert(segment.points[carried + (b - 1 - a)] == s[a + (b - 1 - a)].point);
    }
}

/// A drawing ends with the newest reading as a dot, in the colour of what the
/// battery is doing now; and the area is tinted by that too.
pub proof fn law_the_newest_reading_is_a_dot(
    s: Seq<Mark>,
    gap: int,
    frame: Frame,
    palette: Palette,
)
    requires
        frame.width > 28,
        frame.height > 28,
        frame.span > 0,
        s.len() > 0,
        count(segments_from(s, 0, gap)) >= 2,
    ensures
        ({
            let d = plot(s, gap, frame, palette);
            let ink = colour(palette, s.last().trend);
            let n = d.len() as int;
            &&& n > 18
            &&& d[n - 3] == Command::Source(ink)
            &&& d[n - 2] == Command::Circle(
                frame.across(s.last().point.0 as int) as i64,
                frame.down(s.last().point.1 as int) as i64,
                3_500_000,
            )
            &&& d[n - 1] == Command::Fill
            &&& d[13] == Command::LineWidth(2_000_000)
            &&& d[14] == Command::RoundEnds
            &&& d[15] == Command::Source(Rgba { alpha: 140_000, ..ink })
        }),
{
    let v = segments_from(s, 0, gap);
    let bridges = bridges_upto(s, s.len() as int, gap);
    let d = drawing(v, bridges, frame, palette);
    lemma_last_segment(s, gap, 0);
    let dot = frame.dot(v, palette);
    let ahead = frame.grid(palette) + seq![
        Command::LineWidth(LINE_WIDTH),
        Command::RoundEnds,
        Command::Source(palette.ink(v.last().trend).faded(FILL_ALPHA)),
    ] + frame.areas(merged(v)) + seq![Command::Dashed, Command::Source(palette.idle)]
        + frame.dashes(bridges) + seq![Command::Solid] + frame.strokes(v, palette);
    assert(d == ahead + dot);
    assert(dot.len() == 3);
    assert(frame.grid(palette).len() == 13);
    assert(ahead[15] == Command::Source(palette.ink(v.last().trend).faded(FILL_ALPHA)));
}

/// Where there is no room nothing is drawn; otherwise a drawing stands on five
/// faint rules from margin to margin, one at each quarter of the charge, and where
/// there is no line to draw that is all.
pub proof fn law_a_drawing_stands_on_its_rules(
    v: Seq<SegmentModel>,
    bridges: Seq<Bridge>,
    frame: Frame,
    palette: Palette,
    quarter: int,
)
    requires
        0 <= quarter <= 4,
    ensures
        ({
            let d = drawing(v, bridges, frame, palette);
            &&& frame.width <= 28 || frame.height <= 28 ==> d.len() == 0
            &&& frame.width > 28 && frame.height > 28 ==> {
                &&& d.len() >= 13
                &&& d.len() == 13 <==> frame.span <= 0 || count(v) < 2
                &&& d[0] == Command::LineWidth(1_000_000)
                &&& d[1] == Command::Source(palette.grid)
                &&& d[2 + 2 * quarter] == Command::MoveTo(
                    14_000_000,
                    frame.down(quarter * 25_000_000) as i64,
                )
                &&& d[3 + 2 * quarter] == Command::LineTo(
                    ((frame.width - 14) * 1_000_000) as i64,
                    frame.down(quarter * 25_000_000) as i64,
                )
                &&& d[12] == Command::Stroke
            }
        }),
{
    let d = drawing(v, bridges, frame, palette);
    let grid = frame.grid(palette);
    assert(grid.len() == 13);
    if frame.width > 28 && frame.height > 28 {
        assert forall|t: int| 0 <= t < 13 implies #[trigger] d[t] == grid[t] by {}
        assert(quarter == 0 || quarter == 1 || quarter == 2 || quarter == 3 || quarter == 4);
        assert(d[0] == grid[0] && d[1] == grid[1] && d[12] == grid[12]);
        assert(d[2 + 2 * quarter] == grid[2 + 2 * quarter]);
        assert(d[3 + 2 * quarter] == grid[3 + 2 * quarter]);
    }
}

// ---------------------------------------------------------------------------
// What a gap is called

/// A gap is told by what it was and by how long it lasted, and where charge went
/// during it, by how much and how fast: so many percent an hour.
pub proof fn law_a_gap_is_told(bridge: Bridge)
    requires
        bridge.from.0 <= bridge.to.0,
        0 <= bridge.from.1 <= 100_000_000,
        0 <= bridge.to.1 <= 100_000_000,
    ensures
        exists|name: Seq<char>, secs: int, rate: int|
            #![trigger duration_text(secs), fixed(rate, 1), name.len()]
            {
                &&& bridge.follows == Follows::Sleep ==> name == "Asleep"@
                &&& bridge.follows == Follows::Launch ==> name == "App closed"@
                &&& bridge.follows == Follows::Poll ==> name == "No readings"@
                &&& secs * 1_000_000 <= bridge.to.0 - bridge.from.0 < (secs + 1) * 1_000_000
                &&& if bridge.to.1 < bridge.from.1 && secs > 0 {
                    &&& -secs <= 2 * (secs * rate - (bridge.from.1 - bridge.to.1) * 3600) <= secs
                    &&& bridge.readout_text() == name + " · "@ + duration_text(secs) + " · "@
                        + fixed(bridge.from.1 - bridge.to.1, 0) + "% used ("@ + fixed(rate, 1)
                        + "%/h)"@
                } else {
                    bridge.readout_text() == name + " · "@ + duration_text(secs)
                }
            },
{
    let secs = bridge.lasted();
    let used = bridge.from.1 - bridge.to.1;
    let name = bridge.name_text();
    let rate = nearest(used * 3600, secs);
    if used > 0 && secs > 0 {
        law_nearest_lies_within_a_half(used * 3600, secs);
        assert(0 <= rate <= 400_000_000_000) by (nonlinear_arith)
            requires
                -secs <= 2 * (secs * rate - used * 3600) <= secs,
                2 * (secs * rate - used * 3600) > -secs,
                0 < used <= 100_000_000,
                secs > 0,
        ;
    }
    assert(secs * 1_000_000 <= bridge.to.0 - bridge.from.0 < (secs + 1) * 1_000_000);
    let text = duration_text(secs);
    let told = fixed(rate, 1);
    assert(name.len() >= 0);
}

// ---------------------------------------------------------------------------
// Each part of a drawing

/// A path comes to each of its points, once and in order, and to nothing else.
pub proof fn law_a_path_comes_to_each_point(frame: Frame, points: Seq<Point>, k: int)
    requires
        0 <= k < points.len(),
    ensures
        frame.path(points).len() == points.len(),
        k == 0 ==> starts_at(frame.path(points), k, frame, points[k]),
        k > 0 ==> draws_to(frame.path(points), k, frame, points[k]),
{
}

/// What is filled of a run of two points or more: its path, down to the bottom of
/// the plot under its last point, along it to under the first, and closed. A single
/// point has no area and no line.
pub proof fn law_an_area_is_what_lies_under_its_path(
    frame: Frame,
    run: Seq<Point>,
    trend: Trend,
    broke: bool,
    palette: Palette,
    k: int,
)
    requires
        0 <= k < run.len(),
    ensures
        ({
            let area = frame.area(run);
            let line = frame.stroke(SegmentModel { trend, broke, points: run }, palette);
            let n = run.len() as int;
            let low = ((frame.height - 14) * 1_000_000) as i64;
            &&& n == 1 ==> area.len() == 0 && line.len() == 0
            &&& n >= 2 ==> {
                &&& area.len() == n + 4
                &&& line.len() == n + 2
                &&& k == 0 ==> starts_at(area, k, frame, run[k]) && starts_at(
                    line,
                    k,
                    frame,
                    run[k],
                )
                &&& k > 0 ==> draws_to(area, k, frame, run[k]) && draws_to(line, k, frame, run[k])
                &&& area[n] == Command::LineTo(frame.across(run.last().0 as int) as i64, low)
                &&& area[n + 1] == Command::LineTo(frame.across(run[0].0 as int) as i64, low)
                &&& area[n + 2] == Command::ClosePath
                &&& area[n + 3] == Command::Fill
                &&& line[n] == Command::Source(colour(palette, trend))
                &&& line[n + 1] == Command::Stroke
            }
        }),
{
    let area = frame.area(run);
    let line = frame.stroke(SegmentModel { trend, broke, points: run }, palette);
    let n = run.len() as int;
    if n >= 2 {
        assert(area[k] == frame.path(run)[k]);
        assert(line[k] == frame.path(run)[k]);
    }
}

/// The parts of a drawing add up: what is drawn of two lists, one after the other,
/// is what is drawn of each.
pub proof fn law_drawings_add_up(
    frame: Frame,
    palette: Palette,
    a: Seq<Seq<Point>>,
    b: Seq<Seq<Point>>,
    v: Seq<SegmentModel>,
    w: Seq<SegmentModel>,
)
    ensures
        frame.areas(a + b) == frame.areas(a) + frame.areas(b),
        frame.strokes(v + w, palette) == frame.strokes(v, palette) + frame.strokes(w, palette),
    decreases b.len(), w.len(),
{
    if b.len() > 0 {
        assert((a + b).drop_last() == a + b.drop_last());
        law_drawings_add_up(frame, palette, a, b.drop_last(), v, w);
        assert(frame.areas(a + b) == frame.areas(a) + frame.areas(b));
    } else if w.len() > 0 {
        assert(a + b == a);
        assert((v + w).drop_last() == v + w.drop_last());
        law_drawings_add_up(frame, palette, a, b, v, w.drop_last());
        assert(frame.strokes(v + w, palette) == frame.strokes(v, palette) + frame.strokes(
            w,
            palette,
        ));
    } else {
        assert(a + b == a);
        assert(v + w == v);
        assert(frame.areas(a) + frame.areas(b) == frame.areas(a));
        assert(frame.strokes(v, palette) + frame.strokes(w, palette) == frame.strokes(v, palette));
    }
}

/// One run is one area, one segment one line.
pub proof fn law_one_run_is_one_area(
    frame: Frame,
    palette: Palette,
    run: Seq<Point>,
    segment: SegmentModel,
)
    ensures
        frame.areas(seq![run]) == frame.area(run),
        frame.strokes(seq![segment], palette) == frame.stroke(segment, palette),
        frame.areas(Seq::<Seq<Point>>::empty()).len() == 0,
        frame.strokes(Seq::<SegmentModel>::empty(), palette).len() == 0,
{
    assert(seq![run].drop_last() == Seq::<Seq<Point>>::empty());
    assert(seq![segment].drop_last() == Seq::<SegmentModel>::empty());
    assert(frame.areas(Seq::<Seq<Point>>::empty()) == Seq::<Command>::empty());
    assert(frame.strokes(Seq::<SegmentModel>::empty(), palette) == Seq::<Command>::empty());
    assert(frame.areas(seq![run]) == frame.area(run));
    assert(frame.strokes(seq![segment], palette) == frame.stroke(segment, palette));
}

/// No line but the dashed one leads over a gap: the readings on either side of it
/// are in different runs, with one more run for each gap, and each reading is in
/// one of them, once and in order.
pub proof fn law_a_gap_parts_the_runs(s: Seq<Mark>, gap: int)
    requires
        s.len() > 0,
    ensures
        merged(segments_from(s, 0, gap)).len() == 1 + bridges_upto(s, s.len() as int, gap).len(),
        laid_out(merged(segments_from(s, 0, gap))).len() == s.len(),
        forall|i: int|
            0 <= i < s.len() ==> #[trigger] laid_out(merged(segments_from(s, 0, gap)))[i]
                == s[i].point,
{
    law_only_a_gap_splits_the_filled_area(s, gap);
    law_every_reading_is_drawn_once(s, gap);
    let all = laid_out(merged(segments_from(s, 0, gap)));
    assert forall|i: int| 0 <= i < s.len() implies #[trigger] all[i] == s[i].point by {
        assert(all[i] == points_upto(s, s.len() as int)[i]);
    }
}

// ---------------------------------------------------------------------------
// From readings to canvas

/// Where reading `i` of a history is on the plot: so many seconds after the first,
/// with the charge it told, in millionths.
pub open spec fn spot(s: Seq<Sample>, i: int) -> Point {
    (((s[i].at - s[0].at) * 1_000_000) as i64, s[i].percent)
}

/// The colour of what the battery was doing.
pub open spec fn colour_of(palette: Palette, status: Status) -> Rgba {
    match status {
        Status::Charging => palette.charging,
        Status::Discharging => palette.discharging,
        _ => palette.idle,
    }
}

/// The canvas of a history, from its first reading to its last.
pub open spec fn canvas(s: Seq<Sample>, width: i32, height: i32) -> Frame {
    Frame { width, height, span: ((s.last().at - s[0].at) * 1_000_000) as i64 }
}

/// On the canvas a line leads through every two readings of a history that lie no
/// further apart than the gap, in the colour of what the battery was doing at the
/// second, and the area under it is filled.
pub proof fn law_a_history_on_canvas(
    series: Series,
    s: Seq<Sample>,
    gap: int,
    width: i32,
    height: i32,
    palette: Palette,
    i: int,
)
    requires
        series.shows(s, gap),
        ordered(s),
        0 < i < s.len(),
        0 < s.last().at - s[0].at <= 9_000_000_000_000,
        (s[i].at - s[i - 1].at) * 1_000_000 <= gap,
        width > 28,
        height > 28,
    ensures
        exists|j: int, k: int|
            #[trigger] strokes_between(
                series.painted(width, height, palette),
                j,
                k,
                canvas(s, width, height),
                spot(s, i - 1),
                spot(s, i),
                colour_of(palette, s[i].status),
            ),
        exists|j: int, k: int|
            #[trigger] fills_between(
                series.painted(width, height, palette),
                j,
                k,
                canvas(s, width, height),
                spot(s, i - 1),
                spot(s, i),
            ),
{
    let m = marks_in(s);
    let frame = canvas(s, width, height);
    law_a_reading_as_the_plot_has_it(s, i);
    law_a_reading_as_the_plot_has_it(s, i - 1);
    assert(series.painted(width, height, palette) == plot(m, gap, frame, palette));
    assert(m[i].point == spot(s, i) && m[i - 1].point == spot(s, i - 1));
    let p = m[i - 1].point;
    let q = m[i].point;
    let d = plot(m, gap, frame, palette);
    let ink = colour(palette, m[i].trend);
    assert(ink == colour_of(palette, s[i].status));
    law_neighbours_are_joined(m, gap, frame, palette, i);
    let (j, k) = choose|j: int, k: int| strokes_between(d, j, k, frame, p, q, ink);
    assert(strokes_between(
        series.painted(width, height, palette),
        j,
        k,
        frame,
        spot(s, i - 1),
        spot(s, i),
        colour_of(palette, s[i].status),
    ));
    law_the_area_under_neighbours_is_filled(m, gap, frame, palette, i);
    let (j, k) = choose|j: int, k: int| fills_between(d, j, k, frame, p, q);
    assert(fills_between(
        series.painted(width, height, palette),
        j,
        k,
        frame,
        spot(s, i - 1),
        spot(s, i),
    ));
}

/// Each gap of a history is bridged, as what the reading after it says; each bridge
/// is such a gap.
pub proof fn law_a_history_is_bridged(series: Series, s: Seq<Sample>, gap: int, i: int, b: int)
    requires
        series.shows(s, gap),
        ordered(s),
        s.len() > 0,
        s.last().at - s[0].at <= 9_000_000_000_000,
        0 < i < s.len(),
        0 <= b,
    ensures
        (s[i].at - s[i - 1].at) * 1_000_000 > gap ==> exists|n: int|
            0 <= n < series.bridges@.len() && #[trigger] series.bridges@[n] == (Bridge {
                from: spot(s, i - 1),
                to: spot(s, i),
                follows: s[i].follows,
            }),
        b < series.bridges@.len() ==> exists|k: int|
            #[trigger] leads_over(series.bridges@[b], s, k, gap),
{
    let m = marks_in(s);
    law_a_reading_as_the_plot_has_it(s, i);
    law_a_reading_as_the_plot_has_it(s, i - 1);
    assert(m[i].point == spot(s, i) && m[i - 1].point == spot(s, i - 1));
    if (s[i].at - s[i - 1].at) * 1_000_000 > gap {
        let n = lemma_bridge_found(m, gap, m.len() as int, i);
        assert(series.bridges@[n] == bridge_at(m, i));
    }
    if b < series.bridges@.len() {
        law_only_gaps_are_bridged(m, gap, m.len() as int, b);
        let k = choose|k: int|
            k < m.len() && #[trigger] bridges_gap(
                bridges_upto(m, m.len() as int, gap)[b],
                m,
                k,
                gap,
            );
        law_a_reading_as_the_plot_has_it(s, k);
        law_a_reading_as_the_plot_has_it(s, k - 1);
        assert(m[k].point == spot(s, k) && m[k - 1].point == spot(s, k - 1));
        assert(leads_over(series.bridges@[b], s, k, gap));
    }
}

/// The bridge leads from one reading of a history to the next, over a gap.
pub open spec fn leads_over(bridge: Bridge, s: Seq<Sample>, k: int, gap: int) -> bool {
    &&& 0 < k < s.len()
    &&& (s[k].at - s[k - 1].at) * 1_000_000 > gap
    &&& bridge == (Bridge { from: spot(s, k - 1), to: spot(s, k), follows: s[k].follows })
}

/// The colour of a run.
pub open spec fn run_colour(palette: Palette, charging: bool) -> Rgba {
    if charging {
        palette.charging
    } else {
        palette.discharging
    }
}

/// A stored run on the canvas: a line in the colour of its kind leads through every
/// two of its points that lie no further apart than the gap, and the rest is
/// bridged; what a gap was is not known any more.
pub proof fn law_a_run_on_canvas(
    series: Series,
    points: Seq<Point>,
    charging: bool,
    gap: int,
    width: i32,
    height: i32,
    palette: Palette,
    i: int,
)
    requires
        series.shows_run(points, charging, gap),
        0 < i < points.len(),
        0 < points.last().0,
        width > 28,
        height > 28,
    ensures
        points[i].0 - points[i - 1].0 <= gap ==> exists|j: int, k: int|
            #[trigger] strokes_between(
                series.painted(width, height, palette),
                j,
                k,
                (Frame { width, height, span: points.last().0 }),
                points[i - 1],
                points[i],
                run_colour(palette, charging),
            ),
        points[i].0 - points[i - 1].0 > gap ==> exists|n: int|
            0 <= n < series.bridges@.len() && #[trigger] series.bridges@[n] == (Bridge {
                from: points[i - 1],
                to: points[i],
                follows: Follows::Poll,
            }),
{
    let trend = if charging {
        Trend::Charging
    } else {
        Trend::Discharging
    };
    let m = marks_of(points, trend);
    let frame = Frame { width, height, span: points.last().0 };
    assert(m[i].point == points[i] && m[i - 1].point == points[i - 1]);
    assert(series.painted(width, height, palette) == plot(m, gap, frame, palette));
    if points[i].0 - points[i - 1].0 <= gap {
        law_neighbours_are_joined(m, gap, frame, palette, i);
        let ink = colour(palette, trend);
        let d = plot(m, gap, frame, palette);
        let p = m[i - 1].point;
        let q = m[i].point;
        let (j, k) = choose|j: int, k: int| strokes_between(d, j, k, frame, p, q, ink);
        assert(strokes_between(
            series.painted(width, height, palette),
            j,
            k,
            frame,
            points[i - 1],
            points[i],
            run_colour(palette, charging),
        ));
    } else {
        let n = lemma_bridge_found(m, gap, m.len() as int, i);
        assert(series.bridges@[n] == bridge_at(m, i));
    }
}

/// How many areas are closed.
pub open spec fn closes(d: Seq<Command>) -> nat
    decreases d.len(),
{
    if d.len() == 0 {
        0
    } else {
        closes(d.drop_last()) + if d.last() == Command::ClosePath {
            1nat
        } else {
            0
        }
    }
}

proof fn lemma_closes_both(a: Seq<Command>, b: Seq<Command>)
    ensures
        closes(a + b) == closes(a) + closes(b),
    decreases b.len(),
{
    if b.len() == 0 {
        assert(a + b == a);
    } else {
        assert((a + b).drop_last() == a + b.drop_last());
        lemma_closes_both(a, b.drop_last());
    }
}

proof fn lemma_closes_none(d: Seq<Command>)
    requires
        forall|t: int| 0 <= t < d.len() ==> #[trigger] d[t] != Command::ClosePath,
    ensures
        closes(d) == 0,
    decreases d.len(),
{
    if d.len() > 0 {
        assert(d[d.len() - 1] != Command::ClosePath);
        let init = d.drop_last();
        assert forall|t: int| 0 <= t < init.len() implies #[trigger] init[t]
            != Command::ClosePath by {
            assert(init[t] == d[t]);
        }
        lemma_closes_none(init);
    }
}

proof fn lemma_closes_areas(frame: Frame, runs: Seq<Seq<Point>>)
    ensures
        closes(frame.areas(runs)) <= runs.len(),
    decreases runs.len(),
{
    if runs.len() > 0 {
        lemma_closes_areas(frame, runs.drop_last());
        let run = runs.last();
        let path = frame.path(run);
        if run.len() >= 2 {
            let corners = seq![
                Command::LineTo(
                    frame.across(run.last().0 as int) as i64,
                    frame.bottom_edge() as i64,
                ),
                Command::LineTo(frame.across(run[0].0 as int) as i64, frame.bottom_edge() as i64),
            ];
            let close = seq![Command::ClosePath];
            let fill = seq![Command::Fill];
            assert(frame.area(run) == path + corners + close + fill);
            lemma_closes_none(path);
            lemma_closes_none(corners);
            lemma_closes_none(fill);
            assert(close.drop_last() == Seq::<Command>::empty());
            assert(closes(Seq::<Command>::empty()) == 0);
            lemma_closes_both(path, corners);
            lemma_closes_both(path + corners, close);
            lemma_closes_both(path + corners + close, fill);
        }
        lemma_closes_both(frame.areas(runs.drop_last()), frame.area(run));
    }
}

proof fn lemma_closes_dashes(frame: Frame, bridges: Seq<Bridge>)
    ensures
        closes(frame.dashes(bridges)) == 0,
    decreases bridges.len(),
{
    if bridges.len() > 0 {
        lemma_closes_dashes(frame, bridges.drop_last());
        let one = seq![
            frame.move_to(bridges.last().from),
            frame.line_to(bridges.last().to),
            Command::Stroke,
        ];
        lemma_closes_none(one);
        lemma_closes_both(frame.dashes(bridges.drop_last()), one);
    }
}

proof fn lemma_closes_strokes(frame: Frame, v: Seq<SegmentModel>, palette: Palette)
    ensures
        closes(frame.strokes(v, palette)) == 0,
    decreases v.len(),
{
    if v.len() > 0 {
        lemma_closes_strokes(frame, v.drop_last(), palette);
        lemma_closes_none(frame.stroke(v.last(), palette));
        lemma_closes_both(frame.strokes(v.drop_last(), palette), frame.stroke(v.last(), palette));
    }
}

/// Only a gap parts the filled area: there is one area more than there are gaps at
/// most, so a change of colour does not cut it in two.
pub proof fn law_one_area_for_each_stretch(
    s: Seq<Mark>,
    gap: int,
    frame: Frame,
    palette: Palette,
)
    requires
        s.len() > 0,
    ensures
        closes(plot(s, gap, frame, palette)) <= 1 + bridges_upto(s, s.len() as int, gap).len(),
{
    let v = segments_from(s, 0, gap);
    let bridges = bridges_upto(s, s.len() as int, gap);
    let d = plot(s, gap, frame, palette);
    lemma_closes_none(Seq::<Command>::empty());
    lemma_closes_none(frame.grid(palette));
    if frame.has_room() && frame.span > 0 && count(v) >= 2 {
        lemma_last_segment(s, gap, 0);
        let head = frame.grid(palette) + seq![
            Command::LineWidth(LINE_WIDTH),
            Command::RoundEnds,
            Command::Source(palette.ink(v.last().trend).faded(FILL_ALPHA)),
        ];
        let areas = frame.areas(merged(v));
        let between = seq![Command::Dashed, Command::Source(palette.idle)];
        let dashes = frame.dashes(bridges);
        let solid = seq![Command::Solid];
        let strokes = frame.strokes(v, palette);
        let dot = frame.dot(v, palette);
        assert(d == head + areas + between + dashes + solid + strokes + dot);
        lemma_closes_none(head);
        lemma_closes_areas(frame, merged(v));
        lemma_closes_none(between);
        lemma_closes_dashes(frame, bridges);
        lemma_closes_none(solid);
        lemma_closes_strokes(frame, v, palette);
        lemma_closes_none(dot);
        lemma_closes_both(head, areas);
        lemma_closes_both(head + areas, between);
        lemma_closes_both(head + areas + between, dashes);
        lemma_closes_both(head + areas + between + dashes, solid);
        lemma_closes_both(head + areas + between + dashes + solid, strokes);
        lemma_closes_both(head + areas + between + dashes + solid + strokes, dot);
        law_only_a_gap_splits_the_filled_area(s, gap);
    }
}

/// The points of segments are counted once each.
pub proof fn law_points_are_counted(v: Seq<SegmentModel>, segment: SegmentModel)
    ensures
        count(Seq::<SegmentModel>::empty()) == 0,
        count(v.push(segment)) == count(v) + segment.points.len(),
{
    assert(v.push(segment).drop_last() == v);
}

/// A place lies over a gap when and only when it is no further left than where the
/// gap begins and no further right than where it ends.
pub proof fn law_what_lies_over_a_gap(frame: Frame, bridge: Bridge, x: int)
    ensures
        over(frame, bridge, x) <==> frame.across(bridge.from.0 as int) <= x && x <= frame.across(
            bridge.to.0 as int,
        ),
{
}

} // verus!

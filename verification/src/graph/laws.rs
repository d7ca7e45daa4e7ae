//! What holds of every plot.

use vstd::prelude::*;

use super::{
    bridges_upto, count, gap_before, lemma_segment_end, merged, opens, segment_at,
    segment_end, segment_points, segments_from, without_first, Frame, Mark, SegmentModel,
    PAD,
};
use crate::micro::{nearest, UNIT};
use crate::recordings::Point;

verus! {

/// The points of all runs, one run after another.
pub open spec fn laid_out(runs: Seq<Seq<Point>>) -> Seq<Point>
    decreases runs.len(),
{
    if runs.len() == 0 {
        seq![]
    } else {
        laid_out(runs.drop_last()) + runs.last()
    }
}

/// The readings before `n` as points of the plot.
pub open spec fn points_upto(s: Seq<Mark>, n: int) -> Seq<Point> {
    Seq::new(n as nat, |i: int| s[i].point)
}

/// Each segment that no gap precedes starts where the one before it ended.
pub open spec fn meet(v: Seq<SegmentModel>) -> bool {
    forall|k: int| 0 < k < v.len() && !(#[trigger] v[k]).broke ==> joins(v[k - 1], v[k])
}

/// The second segment starts where the first ended.
pub open spec fn joins(first: SegmentModel, second: SegmentModel) -> bool {
    &&& first.points.len() > 0
    &&& second.points.len() > 0
    &&& second.points[0] == first.points.last()
}

/// What holds of the segments that end before reading `a`.
spec fn holds_upto(s: Seq<Mark>, gap: int, pre: Seq<SegmentModel>, a: int) -> bool {
    &&& laid_out(merged(pre)) == points_upto(s, a)
    &&& meet(pre)
    &&& if a == 0 {
        pre.len() == 0
    } else {
        &&& merged(pre).len() == 1 + bridges_upto(s, a, gap).len()
        &&& pre.len() > 0
        &&& pre.last().points.len() > 0
        &&& pre.last().points.last() == s[a - 1].point
    }
}

proof fn lemma_one_more(s: Seq<Mark>, gap: int, pre: Seq<SegmentModel>, a: int)
    requires
        0 <= a < s.len(),
        opens(s, a, gap),
        holds_upto(s, gap, pre, a),
    ensures
        holds_upto(s, gap, pre.push(segment_at(s, a, gap)), segment_end(s, a + 1, gap)),
{
    lemma_segment_end(s, a + 1, gap);
    let b = segment_end(s, a + 1, gap);
    let segment = segment_at(s, a, gap);
    let next = pre.push(segment);
    assert(next.drop_last() == pre);
    let rest = merged(pre);
    let fresh = Seq::new((b - a) as nat, |k: int| s[a + k].point);
    lemma_no_more_bridges(s, gap, a, b);
    assert(segment.points.last() == s[b - 1].point) by {
        assert(segment.points[segment.points.len() - 1] == fresh[b - a - 1]);
    }
    assert(laid_out(merged(next)) == laid_out(rest) + fresh) by {
        if segment.broke {
            assert(segment.points == fresh);
            assert(merged(next) == rest.push(fresh)) by {
                if a == 0 {
                    assert(rest == Seq::<Seq<Point>>::empty());
                }
            }
            assert(merged(next).drop_last() == rest);
        } else {
            assert(segment.points == seq![s[a - 1].point] + fresh);
            assert(without_first(segment.points) == fresh);
            let grown = rest.last() + fresh;
            assert(merged(next) == rest.drop_last().push(grown));
            assert(merged(next).drop_last() == rest.drop_last());
            assert(laid_out(rest.drop_last()) + grown == laid_out(rest) + fresh);
        }
    }
    assert(points_upto(s, b) == points_upto(s, a) + fresh);
    assert(meet(next)) by {
        assert forall|k: int| 0 < k < next.len() && !(#[trigger] next[k]).broke implies joins(
            next[k - 1],
            next[k],
        ) by {
            if k < pre.len() {
                assert(next[k] == pre[k] && next[k - 1] == pre[k - 1]);
                assert(joins(pre[k - 1], pre[k]));
            } else {
                assert(next[k - 1] == pre.last());
                assert(segment.points[0] == s[a - 1].point);
            }
        }
    }
}

proof fn lemma_prefix(s: Seq<Mark>, gap: int, pre: Seq<SegmentModel>, a: int)
    requires
        0 <= a <= s.len(),
        a < s.len() ==> opens(s, a, gap),
        segments_from(s, 0, gap) == pre + segments_from(s, a, gap),
        holds_upto(s, gap, pre, a),
    ensures
        holds_upto(s, gap, segments_from(s, 0, gap), s.len() as int),
    decreases s.len() - a,
{
    if a >= s.len() {
        assert(pre + segments_from(s, a, gap) == pre);
    } else {
        lemma_segment_end(s, a + 1, gap);
        let b = segment_end(s, a + 1, gap);
        let next = pre.push(segment_at(s, a, gap));
        assert(pre + segments_from(s, a, gap) == next + segments_from(s, b, gap));
        lemma_one_more(s, gap, pre, a);
        lemma_prefix(s, gap, next, b);
    }
}

proof fn lemma_all(s: Seq<Mark>, gap: int)
    ensures
        holds_upto(s, gap, segments_from(s, 0, gap), s.len() as int),
{
    let none = Seq::<SegmentModel>::empty();
    assert(none + segments_from(s, 0, gap) == segments_from(s, 0, gap));
    assert(laid_out(merged(none)) == points_upto(s, 0));
    lemma_prefix(s, gap, none, 0);
}

/// Within a segment there is no gap.
proof fn lemma_no_more_bridges(s: Seq<Mark>, gap: int, a: int, b: int)
    requires
        0 <= a < b <= s.len(),
        forall|k: int| a < k < b ==> !opens(s, k, gap),
    ensures
        bridges_upto(s, b, gap).len() == bridges_upto(s, a, gap).len() + if gap_before(s, a, gap) {
            1nat
        } else {
            0nat
        },
    decreases b - a,
{
    if b > a + 1 {
        assert(!opens(s, b - 1, gap));
        lemma_no_more_bridges(s, gap, a, b - 1);
    }
}

/// The filled area holds every reading, once and in order.
pub proof fn law_every_reading_is_drawn_once(s: Seq<Mark>, gap: int)
    ensures
        laid_out(merged(segments_from(s, 0, gap))) == points_upto(s, s.len() as int),
{
    lemma_all(s, gap);
}

/// Only a gap splits the filled area: there is one run more than there are gaps.
pub proof fn law_only_a_gap_splits_the_filled_area(s: Seq<Mark>, gap: int)
    requires
        s.len() > 0,
    ensures
        merged(segments_from(s, 0, gap)).len() == 1 + bridges_upto(s, s.len() as int, gap).len(),
{
    lemma_all(s, gap);
}

/// Where only the trend changes the line stays unbroken: the new segment starts
/// at the point where the one before it ended.
pub proof fn law_a_trend_change_leaves_no_hole(s: Seq<Mark>, gap: int)
    ensures
        meet(segments_from(s, 0, gap)),
{
    lemma_all(s, gap);
}

/// Readings of one trend, none of them farther from the one before than `gap`,
/// are one segment and one filled run, with a point for each reading.
pub proof fn law_a_steady_cadence_is_one_line(s: Seq<Mark>, gap: int)
    requires
        s.len() > 0,
        forall|i: int|
            0 < i < s.len() ==> !gap_before(s, i, gap) && (#[trigger] s[i]).trend == s[i
                - 1].trend,
    ensures
        segments_from(s, 0, gap).len() == 1,
        segments_from(s, 0, gap)[0].points == points_upto(s, s.len() as int),
        merged(segments_from(s, 0, gap)) == seq![points_upto(s, s.len() as int)],
        count(segments_from(s, 0, gap)) == s.len(),
{
    lemma_segment_end(s, 1, gap);
    let b = segment_end(s, 1, gap);
    assert(b == s.len()) by {
        if b < s.len() {
            assert(opens(s, b, gap));
            assert(s[b] == s[b]);
        }
    }
    let all = segments_from(s, 0, gap);
    assert(segments_from(s, b, gap) == Seq::<SegmentModel>::empty());
    assert(all == seq![segment_at(s, 0, gap)]);
    assert(segment_points(s, 0, b, gap) == points_upto(s, b));
    assert(all.drop_last() == Seq::<SegmentModel>::empty());
    assert(merged(all.drop_last()) == Seq::<Seq<Point>>::empty());
    assert(count(all.drop_last()) == 0);
}

proof fn lemma_share(part: int, whole: int, length: int)
    requires
        0 <= part <= whole,
        0 < whole,
        0 <= length,
    ensures
        0 <= nearest(part * length, whole) <= length,
{
    let a = part * length;
    assert(0 <= a <= whole * length) by (nonlinear_arith)
        requires
            0 <= part <= whole,
            0 <= length,
            a == part * length,
    ;
    let q = a / whole;
    let r = a % whole;
    assert(a == whole * q + r && 0 <= r < whole && q >= 0) by (nonlinear_arith)
        requires
            a >= 0,
            whole > 0,
            q == a / whole,
            r == a % whole,
    ;
    if r == 0 {
        assert(q <= length) by (nonlinear_arith)
            requires
                whole * q <= whole * length,
                whole > 0,
        ;
    } else {
        assert(q < length) by (nonlinear_arith)
            requires
                whole * q + r <= whole * length,
                r > 0,
                whole > 0,
        ;
    }
}

/// The plot stays inside its margins: a charge from empty to full and a moment
/// within the span lie on it.
pub proof fn law_the_plot_stays_inside_its_margins(frame: Frame, at: int, percent: int)
    requires
        frame.has_room(),
        0 <= at <= frame.span,
        0 < frame.span,
        0 <= percent <= 100 * UNIT,
    ensures
        PAD * UNIT <= frame.across(at) <= frame.right_edge(),
        PAD * UNIT <= frame.down(percent) <= frame.bottom_edge(),
{
    lemma_share(at, frame.span as int, (frame.width - 2 * PAD) * UNIT);
    let tall = frame.height - 2 * PAD;
    lemma_down(100 * UNIT - percent, tall);
}

/// A hundredth of a length is the share it has of a hundred whole lengths.
proof fn lemma_down(up: int, tall: int)
    requires
        0 <= up <= 100 * UNIT,
        0 < tall,
    ensures
        0 <= nearest(up * tall, 100) <= tall * UNIT,
{
    let a = up * tall;
    assert(0 <= a <= 100 * UNIT * tall) by (nonlinear_arith)
        requires
            0 <= up <= 100 * UNIT,
            0 < tall,
            a == up * tall,
    ;
    assert(100 * UNIT * tall == 100 * (tall * UNIT)) by (nonlinear_arith);
}

} // verus!

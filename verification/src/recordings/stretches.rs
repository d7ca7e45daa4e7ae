//! What a run is, told by the readings alone.

use vstd::prelude::*;

use super::laws::{drawn_from, law_every_long_run_is_recorded, law_thinning_keeps_real_observations};
use super::{
    every, goes_on, lemma_run_end_bounds, lemma_stride, long, points_of, recorded, run_at, run_end,
    runs_from, stride, thinned, Kind, Point, RunModel, SERIES_POINTS,
};
use crate::battery::history::{average, readings, total, Follows, Sample};
use crate::battery::laws::{lemma_mean_fits, lemma_sums, power_count, power_sum};
use crate::battery::types::Status;
use crate::micro::{law_nearest_lies_within_a_half, UNIT};
use crate::order::{ordered, Timed};

verus! {

/// Reading `i` belongs with the one before it. Both are of one trend, and where
/// nothing was read between them the charge went on the way it was going.
pub open spec fn belongs(s: Seq<Sample>, i: int) -> bool {
    &&& 0 < i < s.len()
    &&& {
        ||| s[i - 1].status == Status::Charging && s[i].status == Status::Charging && (s[i].follows
            == Follows::Poll || s[i].percent >= s[i - 1].percent)
        ||| s[i - 1].status == Status::Discharging && s[i].status == Status::Discharging && (
        s[i].follows == Follows::Poll || s[i].percent <= s[i - 1].percent)
    }
}

/// The readings from `a` to before `b` belong together, and neither the one before
/// them nor the one after them belongs with them.
pub open spec fn is_stretch(s: Seq<Sample>, a: int, b: int) -> bool {
    &&& 0 <= a < b <= s.len()
    &&& s[a].status == Status::Charging || s[a].status == Status::Discharging
    &&& !belongs(s, a)
    &&& forall|k: int| a < k < b ==> #[trigger] belongs(s, k)
    &&& !belongs(s, b)
}

/// The reading that ends such a stretch: the one after it, or the newest of all
/// where it is still going on.
pub open spec fn ends_with(s: Seq<Sample>, b: int) -> int {
    if b < s.len() {
        b
    } else {
        b - 1
    }
}

/// The run tells of the readings from `a` to before `b`.
pub open spec fn tells(run: RunModel, s: Seq<Sample>, a: int, b: int) -> bool {
    let e = ends_with(s, b);
    let n = power_count(s, a, b);
    &&& run.kind == Kind::Charge <==> s[a].status == Status::Charging
    &&& run.started == s[a].at
    &&& run.from_percent == s[a].percent
    &&& run.ended == s[e].at
    &&& run.to_percent == s[e].percent
    &&& run.in_progress <==> b == s.len()
    &&& match run.watts {
        Some(watts) => n > 0 && -n <= 2 * (watts * n - power_sum(s, a, b)) <= n,
        None => n == 0,
    }
}

proof fn lemma_belongs(s: Seq<Sample>, i: int)
    ensures
        belongs(s, i) == goes_on(s, i),
{
}

/// What is told of the readings from where a run starts to where it ends.
proof fn lemma_run_tells(s: Seq<Sample>, a: int)
    requires
        0 <= a < s.len(),
        s[a].status == Status::Charging || s[a].status == Status::Discharging,
        !belongs(s, a),
    ensures
        is_stretch(s, a, run_end(s, a + 1)),
        tells(run_at(s, a), s, a, run_end(s, a + 1)),
{
    lemma_run_end_bounds(s, a + 1);
    let b = run_end(s, a + 1);
    lemma_belongs(s, b);
    assert forall|k: int| a < k < b implies #[trigger] belongs(s, k) by {
        assert(goes_on(s, k));
    }
    lemma_sums(s, a, b);
    let r = readings(s.subrange(a, b));
    lemma_mean_fits(r);
    let n = power_count(s, a, b);
    if r.len() > 0 {
        law_nearest_lies_within_a_half(total(r), n);
        let m = average(r)->0;
        assert(n * m == m * n) by (nonlinear_arith);
    }
}

proof fn lemma_stretch_end(s: Seq<Sample>, a: int, b: int)
    requires
        is_stretch(s, a, b),
    ensures
        run_end(s, a + 1) == b,
{
    lemma_run_end_bounds(s, a + 1);
    let c = run_end(s, a + 1);
    if c < b {
        assert(belongs(s, c));
        assert(goes_on(s, c));
    } else if b < c {
        assert(goes_on(s, b));
    }
}

/// Every run among them starts a stretch.
proof fn lemma_runs_start(s: Seq<Sample>, i: int)
    requires
        0 <= i,
        !goes_on(s, i),
    ensures
        forall|k: int|
            0 <= k < runs_from(s, i).len() ==> exists|a: int|
                i <= a < s.len() && Kind::of_status(s[a].status) is Some && !goes_on(s, a)
                    && #[trigger] runs_from(s, i)[k] == #[trigger] run_at(s, a),
    decreases s.len() - i,
{
    let all = runs_from(s, i);
    if i >= s.len() {
    } else if Kind::of_status(s[i].status) is None {
        assert(!goes_on(s, i + 1));
        lemma_runs_start(s, i + 1);
    } else {
        lemma_run_end_bounds(s, i + 1);
        let b = run_end(s, i + 1);
        lemma_runs_start(s, b);
        let rest = runs_from(s, b);
        assert forall|k: int| 0 <= k < all.len() implies exists|a: int|
            i <= a < s.len() && Kind::of_status(s[a].status) is Some && !goes_on(s, a)
                && #[trigger] all[k] == #[trigger] run_at(s, a) by {
            if k == 0 {
                assert(all[k] == run_at(s, i));
            } else {
                assert(all[k] == rest[k - 1]);
                let a = choose|a: int|
                    b <= a < s.len() && Kind::of_status(s[a].status) is Some && !goes_on(s, a)
                        && rest[k - 1] == #[trigger] run_at(s, a);
                assert(all[k] == run_at(s, a));
            }
        }
    }
}

/// A recorded run is a stretch of readings that belong together, no more of them
/// and no fewer: it starts with the first, ends with the one that ended it, and
/// tells their mean power.
pub proof fn law_a_recorded_run_is_a_stretch(s: Seq<Sample>, run: RunModel)
    requires
        recorded(s).contains(run),
    ensures
        exists|a: int, b: int|
            #![trigger is_stretch(s, a, b)]
            is_stretch(s, a, b) && tells(run, s, a, b) && s[ends_with(s, b)].at - s[a].at >= 300,
{
    let all = runs_from(s, 0);
    all.lemma_filter_contains_rev(long(), run);
    let k = choose|k: int| 0 <= k < all.len() && all[k] == run;
    lemma_runs_start(s, 0);
    let a = choose|a: int|
        0 <= a < s.len() && Kind::of_status(s[a].status) is Some && !goes_on(s, a) && all[k]
            == #[trigger] run_at(s, a);
    lemma_belongs(s, a);
    lemma_run_tells(s, a);
    let b = run_end(s, a + 1);
    lemma_long(all, run);
    assert(is_stretch(s, a, b));
}

proof fn lemma_long(q: Seq<RunModel>, run: RunModel)
    requires
        q.filter(long()).contains(run),
    ensures
        run.is_long(),
    decreases q.len(),
{
    reveal(Seq::filter);
    if q.len() > 0 {
        let before = q.drop_last().filter(long());
        let all = q.filter(long());
        let k = choose|k: int| 0 <= k < all.len() && all[k] == run;
        if k < before.len() {
            assert(before[k] == run);
            lemma_long(q.drop_last(), run);
        }
    }
}

/// Every stretch of at least five minutes is recorded: each discharge and each
/// charge, start to finish.
pub proof fn law_every_stretch_is_recorded(s: Seq<Sample>, a: int, b: int)
    requires
        is_stretch(s, a, b),
        s[ends_with(s, b)].at - s[a].at >= 300,
    ensures
        exists|run: RunModel| #[trigger] recorded(s).contains(run) && tells(run, s, a, b),
{
    lemma_stretch_end(s, a, b);
    lemma_run_tells(s, a);
    lemma_belongs(s, a);
    assert(run_at(s, a).is_long());
    law_every_long_run_is_recorded(s, a);
    assert(recorded(s).contains(run_at(s, a)));
}

/// A pause does not split what went on: of two charging readings with nothing read
/// between them, the second is in the run of the first when and only when the
/// charge is at least what it was; of two discharging ones, at most.
pub proof fn law_a_pause_splits_only_what_turned(s: Seq<Sample>, a: int, b: int, i: int)
    requires
        is_stretch(s, a, b),
        a < i <= b,
        i < s.len(),
        s[i].status == s[i - 1].status,
        s[i].follows == Follows::Sleep || s[i].follows == Follows::Launch,
    ensures
        s[i].status == Status::Charging ==> (run_end(s, a + 1) > i <==> s[i].percent >= s[i
            - 1].percent),
        s[i].status == Status::Discharging ==> (run_end(s, a + 1) > i <==> s[i].percent <= s[i
            - 1].percent),
{
    lemma_stretch_end(s, a, b);
    if i < b {
        assert(belongs(s, i));
    }
}

/// A poll after a poll never splits a run: while the trend stays, so does the run,
/// whatever the charge says.
pub proof fn law_polls_of_one_trend_are_one_run(s: Seq<Sample>, a: int, b: int, i: int)
    requires
        is_stretch(s, a, b),
        a < i <= b,
        i < s.len(),
        s[i].follows == Follows::Poll,
        s[i].status == s[i - 1].status,
        s[i].status == Status::Charging || s[i].status == Status::Discharging,
    ensures
        run_end(s, a + 1) > i,
{
    lemma_stretch_end(s, a, b);
}

/// The shape of a run is made of its readings: each point is one of them, so many
/// seconds after the first, with the charge it told; the first and the last are
/// among them, in the order of time.
pub proof fn law_the_shape_is_made_of_readings(s: Seq<Sample>, a: int, b: int)
    requires
        is_stretch(s, a, b),
        ordered(s),
        s[ends_with(s, b)].at - s[a].at <= 9_000_000_000_000,
    ensures
        exists|at: Seq<int>|
            {
                &&& #[trigger] at.len() == run_at(s, a).series.len()
                &&& at.len() > 0 && at[0] == a && at.last() == ends_with(s, b)
                &&& forall|k: int|
                    0 <= k < at.len() ==> a <= #[trigger] at[k] <= ends_with(s, b) && run_at(
                        s,
                        a,
                    ).series[k].0 == (s[at[k]].at - s[a].at) * UNIT && run_at(s, a).series[k].1
                        == s[at[k]].percent
                &&& forall|j: int, k: int|
                    0 <= j < k < at.len() ==> #[trigger] at[j] < #[trigger] at[k]
            },
{
    lemma_stretch_end(s, a, b);
    let e = ends_with(s, b);
    let p = points_of(s, a, e + 1);
    let sub = s.subrange(a, e + 1);
    law_thinning_keeps_real_observations(p);
    let from = choose|from: Seq<int>| drawn_from(thinned(p), p, from);
    let at = Seq::new(from.len(), |k: int| from[k] + a);
    let series = run_at(s, a).series;
    assert(series == thinned(p));
    assert forall|k: int| 0 <= k < at.len() implies a <= #[trigger] at[k] <= e && series[k].0 == (
    s[at[k]].at - s[a].at) * UNIT && series[k].1 == s[at[k]].percent by {
        let j = from[k];
        assert(0 <= j < p.len() && series[k] == p[j]);
        assert(sub[j] == s[a + j]);
        if a < a + j {
            assert(s[a].time() <= s[a + j].time());
        }
        if a + j < e {
            assert(s[a + j].time() <= s[e].time());
        }
    }
    assert forall|j: int, k: int| 0 <= j < k < at.len() implies #[trigger] at[j] < #[trigger] at[k]
        by {
        assert(from[j] < from[k]);
    }
    assert(at.len() == series.len());
    assert(from.len() > 0 && from[0] == 0 && from[from.len() - 1] == p.len() - 1);
}

/// No two neighbours of `at` lie further apart than `far`.
pub open spec fn no_further_than(at: Seq<int>, far: int) -> bool {
    forall|k: int| 0 < k < at.len() ==> #[trigger] after_last_of(at, k) <= far
}

/// How far after the one before it an index lies.
pub open spec fn after_last_of(at: Seq<int>, k: int) -> int {
    at[k] - at[k - 1]
}

/// Up to sixty-four points are all kept. Of more, the points kept are spread evenly
/// over all of them: more than thirty-two, at most sixty-four, and no two
/// neighbours further apart than twice the stride, which is the sixty-fourth part
/// of all of them, rounded up.
pub proof fn law_thinning_spreads_evenly(points: Seq<Point>, far: int)
    requires
        64 * far >= points.len() > 64 * (far - 1),
    ensures
        points.len() <= 64 ==> thinned(points) == points,
        points.len() > 64 ==> 32 < thinned(points).len() <= 64 && exists|at: Seq<int>|
            #[trigger] drawn_from(thinned(points), points, at) && no_further_than(at, 2 * far),
{
    let n = points.len() as int;
    if n > 64 {
        lemma_stride(n);
        let s = stride(n);
        assert(s == far);
        let c = (n + s - 1) / s;
        assert(c > 32) by (nonlinear_arith)
            requires
                c * s >= n,
                64 * (s - 1) < n,
                s >= 2,
        ;
        let kept = thinned(points);
        let taken = every(points, s);
        let even = Seq::new(c as nat, |k: int| k * s);
        assert((c - 1) * s == c * s - s && (c - 2) * s == c * s - 2 * s) by (nonlinear_arith);
        assert(0 <= (c - 1) * s < n);
        assert forall|j: int, k: int| 0 <= j < k < c implies #[trigger] even[j] < #[trigger] even[k]
            && 0 <= even[j] && even[k] < n by {
            assert(0 <= j * s < n);
            assert(0 <= k * s < n);
            assert(j * s < k * s) by (nonlinear_arith)
                requires
                    j < k,
                    s > 0,
            ;
        }
        assert(0 * s == 0);
        assert(even[0] == 0);
        assert(taken.last() == points[even[c - 1]]);
        let last = n - 1;
        let appended = taken.last() != points.last() && taken.len() < SERIES_POINTS;
        let at = if appended {
            even.push(last)
        } else {
            even.drop_last().push(last)
        };
        assert forall|j: int, k: int| 0 <= j < k < at.len() implies #[trigger] at[j]
            < #[trigger] at[k] by {
            if appended {
                assert(even[c - 1] < last);
                if k < c {
                    assert(even[j] < even[k]);
                } else if j < c - 1 {
                    assert(even[j] < even[c - 1]);
                }
            } else {
                assert(even[j] < even[k]);
            }
        }
        assert forall|k: int| 0 <= k < at.len() implies 0 <= #[trigger] at[k] < points.len()
            && kept[k] == points[at[k]] by {
            if k < at.len() - 1 {
                assert(at[k] == even[k] == k * s);
                assert(0 <= k * s < n);
            }
        }
        assert(at[0] == even[0]);
        assert(drawn_from(kept, points, at));
        assert forall|k: int| 0 < k < at.len() implies #[trigger] after_last_of(at, k) <= 2
            * far by {
            assert(k * s == (k - 1) * s + s) by (nonlinear_arith);
            assert(at[k - 1] == even[k - 1] == (k - 1) * s);
            if k < at.len() - 1 {
                assert(at[k] == even[k] == k * s);
            }
        }
    }
}

} // verus!

//! What holds of recorded runs, whatever was read.

use vstd::prelude::*;

use super::{
    after_merging, any_news, columns, every, file_text, folded, goes_on, law_kind_keys_round_trip,
    lemma_run_end_bounds, lemma_started_at, lemma_started_at_unique, lemma_stride, listed, loaded,
    long, moves_on, newest_first, of_kind, parsed, point_in, point_of, point_text, points_in,
    points_of, recorded, run_at, run_end, runs_from, saved, saved_of, series_text, started_at,
    stride, thinned, with_run, written, Kind, Point, Run, RunModel, KEEP_PER_KIND, MIN_RUN_SECS,
    SERIES_POINTS, SHOWN_PER_KIND,
};
use crate::battery::history::{elapsed, Sample};
use crate::decimal::{cut_to, fixed, is_digit, lemma_cut_once, lemma_fixed_reads_back};
use crate::decimal::{lemma_natural_reads_back, natural};
use crate::micro::{clipped, UNIT};
use crate::order::{from_moment, in_order, is_from, law_in_order_is_ordered};
use crate::order::{law_in_order_is_stable, law_ordered_stays, lemma_place, ordered, place, Timed};
use crate::store::{lemma_numeral_plain, lemma_power_reads_back};
use crate::text::{fields, is_space, joined, lemma_fields_of_joined, lemma_first_at};
use crate::text::{lemma_first_at_bounds, lemma_lines_of_more, lemma_trimmed_alone, lines_of, trimmed};

verus! {

// ---------------------------------------------------------------------------
// The file

pub open spec fn stored_point(point: Point) -> Point {
    (cut_to(point.0 as int, 0) as i64, cut_to(point.1 as int, 1) as i64)
}

/// The run as the file can hold it: charges to a tenth of a percent, powers to a
/// hundredth of a watt, offsets to the second, and finished.
pub open spec fn as_stored(run: RunModel) -> RunModel {
    RunModel {
        from_percent: cut_to(run.from_percent as int, 1) as i64,
        to_percent: cut_to(run.to_percent as int, 1) as i64,
        watts: match run.watts {
            Some(watts) => Some(cut_to(watts as int, 2) as i64),
            None => None,
        },
        series: run.series.map_values(|point: Point| stored_point(point)),
        in_progress: false,
        ..run
    }
}

/// Writing what was read back loses nothing more.
pub proof fn law_storing_a_run_again_changes_nothing(run: RunModel)
    ensures
        as_stored(as_stored(run)) == as_stored(run),
{
    lemma_cut_once(run.from_percent as int, 1);
    lemma_cut_once(run.to_percent as int, 1);
    if let Some(watts) = run.watts {
        lemma_cut_once(watts as int, 2);
    }
    let once = as_stored(run).series;
    let twice = as_stored(as_stored(run)).series;
    assert forall|i: int| 0 <= i < once.len() implies #[trigger] twice[i] == once[i] by {
        lemma_cut_once(run.series[i].0 as int, 0);
        lemma_cut_once(run.series[i].1 as int, 1);
    }
    assert(twice == once);
}

proof fn lemma_point_reads_back(point: Point)
    ensures
        point_in(point_text(point)) == Some(stored_point(point)),
        point_text(point).len() > 0,
        !is_space(point_text(point)[0]),
        !is_space(point_text(point).last()),
        !point_text(point).contains(','),
        !point_text(point).contains('\t'),
        !point_text(point).contains('\n'),
        point_text(point).last() != '\r',
{
    let a = fixed(point.0 as int, 0);
    let b = fixed(point.1 as int, 1);
    let t = point_text(point);
    lemma_fixed_reads_back(point.0 as int, 0);
    lemma_fixed_reads_back(point.1 as int, 1);
    lemma_numeral_plain(a);
    lemma_numeral_plain(b);
    assert forall|j: int| 0 <= j < a.len() implies t[j] != ':' by {
        assert(t[j] == a[j]);
    }
    lemma_first_at(t, ':', a.len() as int);
    assert(t.take(a.len() as int) == a);
    assert(t.skip(a.len() as int + 1) == b);
    assert(t[0] == a[0]);
    assert(t.last() == b.last());
    assert(is_digit(a[0]) || a[0] == '.' || a[0] == '-');
    assert(is_digit(b.last()) || b.last() == '.' || b.last() == '-');
    assert forall|i: int| 0 <= i < t.len() implies t[i] != ',' && t[i] != '\t' && t[i] != '\n' by {
        if i < a.len() {
            assert(t[i] == a[i]);
        } else if i > a.len() {
            assert(t[i] == b[i - a.len() - 1]);
        }
    }
}

/// Joining adds nothing but separators.
proof fn lemma_joined_free(parts: Seq<Seq<char>>, sep: char, c: char)
    requires
        c != sep,
        forall|i: int| 0 <= i < parts.len() ==> !(#[trigger] parts[i]).contains(c),
    ensures
        !joined(parts, sep).contains(c),
    decreases parts.len(),
{
    if parts.len() > 1 {
        let rest = parts.drop_first();
        assert forall|i: int| 0 <= i < rest.len() implies !(#[trigger] rest[i]).contains(c) by {
            assert(rest[i] == parts[i + 1]);
        }
        lemma_joined_free(rest, sep, c);
        let head = parts[0];
        let tail = joined(rest, sep);
        let t = joined(parts, sep);
        assert forall|i: int| 0 <= i < t.len() implies t[i] != c by {
            if i < head.len() {
                assert(t[i] == head[i]);
            } else if i > head.len() {
                assert(t[i] == tail[i - head.len() - 1]);
            }
        }
    } else if parts.len() == 1 {
        assert(!parts[0].contains(c));
    }
}

/// Joined text begins with the first part and ends with the last.
proof fn lemma_joined_ends(parts: Seq<Seq<char>>, sep: char)
    requires
        parts.len() > 0,
        parts[0].len() > 0,
        parts.last().len() > 0,
    ensures
        joined(parts, sep).len() > 0,
        joined(parts, sep)[0] == parts[0][0],
        joined(parts, sep).last() == parts.last().last(),
    decreases parts.len(),
{
    if parts.len() > 1 {
        lemma_joined_last(parts, sep);
    }
}

proof fn lemma_joined_last(parts: Seq<Seq<char>>, sep: char)
    requires
        parts.len() > 0,
        parts.last().len() > 0,
    ensures
        joined(parts, sep).len() > 0,
        joined(parts, sep).last() == parts.last().last(),
    decreases parts.len(),
{
    if parts.len() > 1 {
        let rest = parts.drop_first();
        assert(rest.last() == parts.last());
        lemma_joined_last(rest, sep);
    }
}

proof fn lemma_points_read_back(series: Seq<Point>)
    ensures
        points_in(series.map_values(|point: Point| point_text(point))) == series.map_values(
            |point: Point| stored_point(point),
        ),
    decreases series.len(),
{
    let parts = series.map_values(|point: Point| point_text(point));
    let kept = series.map_values(|point: Point| stored_point(point));
    if series.len() > 0 {
        let init = series.drop_last();
        lemma_points_read_back(init);
        lemma_point_reads_back(series.last());
        assert(parts.drop_last() == init.map_values(|point: Point| point_text(point)));
        assert(kept == init.map_values(|point: Point| stored_point(point)).push(
            stored_point(series.last()),
        ));
    } else {
        assert(parts == Seq::<Seq<char>>::empty());
        assert(kept == Seq::<Point>::empty());
    }
}

proof fn lemma_series_reads_back(series: Seq<Point>)
    ensures
        points_in(fields(trimmed(series_text(series)), ',')) == series.map_values(
            |point: Point| stored_point(point),
        ),
        !series_text(series).contains('\t'),
        !series_text(series).contains('\n'),
        series_text(series).len() > 0 ==> series_text(series).last() != '\r',
{
    let parts = series.map_values(|point: Point| point_text(point));
    let t = series_text(series);
    lemma_points_read_back(series);
    assert forall|i: int| 0 <= i < parts.len() implies !(#[trigger] parts[i]).contains('\t')
        && !parts[i].contains('\n') && !parts[i].contains(',') by {
        lemma_point_reads_back(series[i]);
    }
    lemma_joined_free(parts, ',', '\t');
    lemma_joined_free(parts, ',', '\n');
    if series.len() > 0 {
        lemma_point_reads_back(series[0]);
        lemma_point_reads_back(series.last());
        assert(parts[0] == point_text(series[0]));
        assert(parts.last() == point_text(series.last()));
        lemma_joined_ends(parts, ',');
        lemma_trimmed_alone(t);
        lemma_fields_of_joined(parts, ',');
    } else {
        assert(t == Seq::<char>::empty());
        lemma_trimmed_alone(t);
        lemma_first_at(t, ',', 0);
        let f = fields(t, ',');
        assert(f == seq![t]);
        lemma_first_at(t, ':', 0);
        assert(f.drop_last() == Seq::<Seq<char>>::empty());
        assert(points_in(f.drop_last()) == Seq::<Point>::empty());
        assert(point_in(f.last()) is None);
        assert(series.map_values(|point: Point| stored_point(point)) == Seq::<Point>::empty());
    }
}

/// A run survives a round trip through the file: what its line says is what
/// comes back.
pub proof fn law_a_run_survives_a_round_trip(run: RunModel)
    requires
        run.started >= 0,
        run.ended >= 0,
    ensures
        parsed(written(run).drop_last()) == Some(as_stored(run)),
{
    let c = columns(run);
    assert(written(run).drop_last() == joined(c, '\t'));
    lemma_natural_reads_back(run.started as nat);
    lemma_numeral_plain(natural(run.started as nat));
    lemma_natural_reads_back(run.ended as nat);
    lemma_numeral_plain(natural(run.ended as nat));
    lemma_fixed_reads_back(run.from_percent as int, 1);
    lemma_numeral_plain(fixed(run.from_percent as int, 1));
    lemma_fixed_reads_back(run.to_percent as int, 1);
    lemma_numeral_plain(fixed(run.to_percent as int, 1));
    lemma_power_reads_back(run.watts);
    lemma_series_reads_back(run.series);
    law_kind_keys_round_trip(run.kind);
    reveal_strlit("discharge");
    reveal_strlit("charge");
    lemma_trimmed_alone(run.kind.key_text());
    assert forall|i: int| 0 <= i < c.len() implies !(#[trigger] c[i]).contains('\t') by {}
    lemma_fields_of_joined(c, '\t');
}

/// A line with no series still loads; the graph simply has nothing to draw.
pub proof fn law_a_line_without_a_series_loads(run: RunModel)
    requires
        run.started >= 0,
        run.ended >= 0,
    ensures
        parsed(joined(columns(run).drop_last(), '\t')) == Some(
            (RunModel { series: seq![], ..as_stored(run) }),
        ),
{
    let c = columns(run).drop_last();
    lemma_natural_reads_back(run.started as nat);
    lemma_numeral_plain(natural(run.started as nat));
    lemma_natural_reads_back(run.ended as nat);
    lemma_numeral_plain(natural(run.ended as nat));
    lemma_fixed_reads_back(run.from_percent as int, 1);
    lemma_numeral_plain(fixed(run.from_percent as int, 1));
    lemma_fixed_reads_back(run.to_percent as int, 1);
    lemma_numeral_plain(fixed(run.to_percent as int, 1));
    lemma_power_reads_back(run.watts);
    law_kind_keys_round_trip(run.kind);
    reveal_strlit("discharge");
    reveal_strlit("charge");
    lemma_trimmed_alone(run.kind.key_text());
    assert forall|i: int| 0 <= i < c.len() implies !(#[trigger] c[i]).contains('\t') by {}
    lemma_fields_of_joined(c, '\t');
}

/// Bare percentages cannot say where a gap was, so they load as no series at all.
pub proof fn law_bare_percentages_are_no_series(parts: Seq<Seq<char>>)
    requires
        forall|i: int| 0 <= i < parts.len() ==> !(#[trigger] parts[i]).contains(':'),
    ensures
        points_in(parts).len() == 0,
    decreases parts.len(),
{
    if parts.len() > 0 {
        let init = parts.drop_last();
        assert forall|i: int| 0 <= i < init.len() implies !(#[trigger] init[i]).contains(':') by {
            assert(init[i] == parts[i]);
        }
        law_bare_percentages_are_no_series(init);
        lemma_first_at_bounds(parts[parts.len() - 1], ':');
    }
}

/// What the file holds of the runs: those from the epoch on, in stored form.
pub open spec fn stored_of(runs: Seq<&Run>) -> Seq<RunModel>
    decreases runs.len(),
{
    if runs.len() == 0 {
        seq![]
    } else if runs.last().started >= 0 && runs.last().ended >= 0 {
        stored_of(runs.drop_last()).push(as_stored(runs.last()@))
    } else {
        stored_of(runs.drop_last())
    }
}

/// A line of the file without its line end.
spec fn bare_lines(runs: Seq<&Run>) -> Seq<Seq<char>>
    decreases runs.len(),
{
    if runs.len() == 0 {
        seq![]
    } else if runs.last().started >= 0 && runs.last().ended >= 0 {
        bare_lines(runs.drop_last()).push(written(runs.last()@).drop_last())
    } else {
        bare_lines(runs.drop_last())
    }
}

proof fn lemma_line_plain(run: RunModel)
    requires
        run.started >= 0,
        run.ended >= 0,
    ensures
        !joined(columns(run), '\t').contains('\n'),
        joined(columns(run), '\t').len() > 0 ==> joined(columns(run), '\t').last() != '\r',
{
    let c = columns(run);
    lemma_natural_reads_back(run.started as nat);
    lemma_numeral_plain(natural(run.started as nat));
    lemma_natural_reads_back(run.ended as nat);
    lemma_numeral_plain(natural(run.ended as nat));
    lemma_fixed_reads_back(run.from_percent as int, 1);
    lemma_numeral_plain(fixed(run.from_percent as int, 1));
    lemma_fixed_reads_back(run.to_percent as int, 1);
    lemma_numeral_plain(fixed(run.to_percent as int, 1));
    lemma_power_reads_back(run.watts);
    lemma_series_reads_back(run.series);
    reveal_strlit("discharge");
    reveal_strlit("charge");
    assert forall|i: int| 0 <= i < c.len() implies !(#[trigger] c[i]).contains('\n') by {}
    lemma_joined_free(c, '\t', '\n');
    if series_text(run.series).len() > 0 {
        lemma_joined_last(c, '\t');
    } else {
        lemma_joined_push_empty(c);
    }
}

/// A last part with nothing in it leaves the separator at the end.
proof fn lemma_joined_push_empty(parts: Seq<Seq<char>>)
    requires
        parts.len() > 1,
        parts.last().len() == 0,
    ensures
        joined(parts, '\t').len() > 0,
        joined(parts, '\t').last() == '\t',
    decreases parts.len(),
{
    let rest = parts.drop_first();
    assert(rest.last() == parts.last());
    if parts.len() > 2 {
        lemma_joined_push_empty(rest);
    } else {
        assert(joined(rest, '\t') == parts.last());
    }
}

proof fn lemma_file_lines(runs: Seq<&Run>)
    ensures
        lines_of(file_text(runs)) == bare_lines(runs),
        file_text(runs).len() > 0 ==> file_text(runs).last() == '\n',
    decreases runs.len(),
{
    if runs.len() > 0 {
        let init = runs.drop_last();
        lemma_file_lines(init);
        let run = runs.last()@;
        if run.started >= 0 && run.ended >= 0 {
            lemma_line_plain(run);
            let line = joined(columns(run), '\t');
            assert(written(run).drop_last() == line);
            lemma_lines_of_more(file_text(init), line);
        } else {
            assert(file_text(init) + Seq::<char>::empty() == file_text(init));
        }
    }
}

proof fn lemma_bare_lines_load(runs: Seq<&Run>, lines: Seq<String>)
    requires
        lines.map_values(|l: String| l@) == bare_lines(runs),
    ensures
        loaded(lines) == stored_of(runs),
    decreases runs.len(),
{
    assert(lines.map_values(|l: String| l@).len() == lines.len());
    if runs.len() > 0 {
        let init = runs.drop_last();
        let run = runs.last()@;
        if run.started >= 0 && run.ended >= 0 {
            let before = lines.drop_last();
            assert(lines.map_values(|l: String| l@).last() == lines.last()@);
            assert(before.map_values(|l: String| l@) == lines.map_values(
                |l: String| l@,
            ).drop_last());
            assert(bare_lines(runs).drop_last() == bare_lines(init));
            lemma_bare_lines_load(init, before);
            law_a_run_survives_a_round_trip(run);
        } else {
            lemma_bare_lines_load(init, lines);
        }
    }
}

proof fn lemma_stored_ordered(runs: Seq<&Run>)
    requires
        ordered(runs),
    ensures
        ordered(stored_of(runs)),
        forall|i: int|
            0 <= i < stored_of(runs).len() ==> exists|j: int|
                0 <= j < runs.len() && (#[trigger] stored_of(runs)[i]).started == (
                #[trigger] runs[j]).started,
    decreases runs.len(),
{
    let all = stored_of(runs);
    if runs.len() > 0 {
        let init = runs.drop_last();
        assert(ordered(init)) by {
            assert forall|i: int, j: int| 0 <= i < j < init.len() implies (
            #[trigger] init[i]).time() <= (#[trigger] init[j]).time() by {
                assert(runs[i].time() <= runs[j].time());
            }
        }
        lemma_stored_ordered(init);
        let before = stored_of(init);
        let last = runs.len() - 1;
        assert forall|i: int| 0 <= i < all.len() implies exists|j: int|
            0 <= j < runs.len() && (#[trigger] all[i]).started == (#[trigger] runs[j]).started by {
            if i < before.len() {
                assert(all[i] == before[i]);
                let j = choose|j: int|
                    0 <= j < init.len() && before[i].started == (#[trigger] init[j]).started;
                assert(runs[j] == init[j]);
            } else {
                assert(all[i].started == runs[last].started);
            }
        }
        assert forall|i: int, j: int| 0 <= i < j < all.len() implies (#[trigger] all[i]).time()
            <= (#[trigger] all[j]).time() by {
            assert(all[i] == before[i]);
            if j < before.len() {
                assert(all[j] == before[j]);
            } else {
                let k = choose|k: int|
                    0 <= k < init.len() && before[i].started == (#[trigger] init[k]).started;
                assert(runs[k] == init[k]);
                assert(runs[k].time() <= runs[last].time());
            }
        }
    }
}

/// What was saved is what loads: the runs that were kept, oldest first, in their
/// stored form.
pub proof fn law_a_saved_file_loads(runs: Seq<Run>, lines: Seq<String>)
    requires
        lines.map_values(|l: String| l@) == lines_of(file_text(saved(runs))),
    ensures
        in_order(loaded(lines)) == stored_of(saved(runs)),
{
    let kept = saved(runs);
    lemma_file_lines(kept);
    lemma_bare_lines_load(kept, lines);
    law_in_order_is_ordered(saved_of(runs, Kind::Discharge) + saved_of(runs, Kind::Charge));
    lemma_stored_ordered(kept);
    law_ordered_stays(stored_of(kept));
}

// ---------------------------------------------------------------------------
// Thinning

/// `kept` is made of the points at the indices `at`, in the order of time, the
/// first and the last point among them.
pub open spec fn drawn_from(kept: Seq<Point>, points: Seq<Point>, at: Seq<int>) -> bool {
    &&& at.len() == kept.len()
    &&& points.len() > 0 ==> at.len() > 0 && at[0] == 0 && at.last() == points.len() - 1
    &&& forall|k: int|
        0 <= k < at.len() ==> 0 <= #[trigger] at[k] < points.len() && kept[k] == points[at[k]]
    &&& forall|j: int, k: int| 0 <= j < k < at.len() ==> #[trigger] at[j] < #[trigger] at[k]
}

/// Thinning keeps at most `SERIES_POINTS` points, and every one that survives is
/// an actual observation: they are some of the points in their order, with the
/// first and the last always among them.
pub proof fn law_thinning_keeps_real_observations(points: Seq<Point>)
    ensures
        thinned(points).len() <= SERIES_POINTS,
        exists|at: Seq<int>| drawn_from(thinned(points), points, at),
{
    let n = points.len() as int;
    let kept = thinned(points);
    if n <= SERIES_POINTS {
        let at = Seq::new(points.len(), |k: int| k);
        assert(drawn_from(kept, points, at));
    } else {
        lemma_stride(n);
        let s = stride(n);
        let c = (n + s - 1) / s;
        let taken = every(points, s);
        let even = Seq::new(c as nat, |k: int| k * s);
        assert forall|j: int, k: int| 0 <= j < k < c implies #[trigger] even[j] < #[trigger] even[k]
            && 0 <= even[j] && even[k] < n by {
            assert(0 <= j * s < n);
            assert(0 <= k * s < n);
            assert(j * s < k * s) by (nonlinear_arith)
                requires
                    j < k,
                    s > 0,
            ;
        }
        assert(even[0] == 0 * s);
        assert(taken.last() == points[even[c - 1]]);
        assert(even[0] < even[c - 1]);
        let last = n - 1;
        if taken.last() != points.last() && taken.len() < SERIES_POINTS {
            let at = even.push(last);
            assert(even[c - 1] < last);
            assert forall|j: int, k: int| 0 <= j < k < at.len() implies #[trigger] at[j]
                < #[trigger] at[k] by {
                if k == c && j < c - 1 {
                    assert(even[j] < even[c - 1]);
                }
            }
            assert forall|k: int| 0 <= k < at.len() implies 0 <= #[trigger] at[k] < points.len()
                && kept[k] == points[at[k]] by {
                if k < c {
                    assert(at[k] == even[k] == k * s);
                    assert(0 <= k * s < n);
                }
            }
            assert(drawn_from(kept, points, at));
        } else {
            // The last of the even ones gives way to the last point, or is the
            // same observation.
            let at = even.drop_last().push(last);
            assert forall|j: int, k: int| 0 <= j < k < at.len() implies #[trigger] at[j]
                < #[trigger] at[k] by {
                assert(even[j] < even[k]);
            }
            assert forall|k: int| 0 <= k < at.len() implies 0 <= #[trigger] at[k] < points.len()
                && kept[k] == points[at[k]] by {
                if k < c - 1 {
                    assert(at[k] == even[k] == k * s);
                    assert(0 <= k * s < n);
                }
            }
            assert(drawn_from(kept, points, at));
        }
    }
}

/// The kept points on either side of `i`: the first index of `at` that is no
/// less than `i`.
proof fn lemma_straddle(at: Seq<int>, i: int, upto: int) -> (k: int)
    requires
        0 < upto < at.len(),
        at[0] < i <= at[upto],
    ensures
        0 < k <= upto,
        at[k - 1] < i <= at[k],
    decreases upto,
{
    if at[upto - 1] < i {
        upto
    } else {
        lemma_straddle(at, i, upto - 1)
    }
}

/// A gap survives the thinning: where the observations lie `points[i].0 -
/// points[i - 1].0` apart, some two neighbours among the kept ones lie at least
/// as far apart.
pub proof fn law_a_gap_survives_the_thinning(points: Seq<Point>, i: int)
    requires
        0 < i < points.len(),
        forall|j: int, k: int|
            0 <= j <= k < points.len() ==> (#[trigger] points[j]).0 <= (#[trigger] points[k]).0,
    ensures
        exists|k: int|
            0 < k < thinned(points).len() && (#[trigger] thinned(points)[k]).0 - thinned(points)[k
                - 1].0 >= points[i].0 - points[i - 1].0,
{
    law_thinning_keeps_real_observations(points);
    let kept = thinned(points);
    let at = choose|at: Seq<int>| drawn_from(kept, points, at);
    assert(at.len() > 1) by {
        assert(at[0] == 0 && at[at.len() - 1] == points.len() - 1);
    }
    let k = lemma_straddle(at, i, at.len() - 1);
    assert(at[k - 1] < i <= at[k] && 0 <= at[k - 1] && at[k] < points.len());
    assert(kept[k] == points[at[k]] && kept[k - 1] == points[at[k - 1]]);
    assert(points[i].0 <= points[at[k]].0);
    assert(points[at[k - 1]].0 <= points[i - 1].0);
}

/// Points that stand `d` apart are still evenly spread once thinned: more than half
/// of `SERIES_POINTS` are left, and no two neighbours lie further apart than three
/// times what they lie apart on average.
pub proof fn lemma_even_points_stay_spread(points: Seq<Point>, d: int)
    requires
        points.len() > SERIES_POINTS,
        d > 0,
        forall|i: int| 0 <= i < points.len() ==> (#[trigger] points[i]).0 == points[0].0 + i * d,
    ensures
        thinned(points).len() > SERIES_POINTS / 2,
        forall|k: int|
            0 < k < thinned(points).len() ==> ((#[trigger] thinned(points)[k]).0 - thinned(points)[k
                - 1].0) * (thinned(points).len() - 1) <= 3 * (thinned(points).last().0 - thinned(
                points,
            )[0].0),
{
    let n = points.len() as int;
    let kept = thinned(points);
    lemma_stride(n);
    let s = stride(n);
    let c = (n + s - 1) / s;
    let taken = every(points, s);
    assert(64 * (s - 1) < n);
    assert(c > 32) by (nonlinear_arith)
        requires
            c * s >= n,
            64 * (s - 1) < n,
            s >= 2,
    ;
    assert((c - 1) * s == c * s - s && (c - 2) * s == c * s - 2 * s) by (nonlinear_arith);
    assert(0 <= (c - 1) * s < n);
    let m = kept.len() - 1;
    assert(0 * s == 0);
    assert(kept[0] == points[0]);
    assert(taken.last() == points[(c - 1) * s]);
    assert(kept.last() == points[n - 1]);
    let replaced = taken.last() != points.last() && taken.len() == SERIES_POINTS;
    assert forall|k: int| 0 < k < kept.len() implies ((#[trigger] kept[k]).0 - kept[k - 1].0) * m
        <= 3 * (kept.last().0 - kept[0].0) by {
        let i = (k - 1) * s;
        assert(0 <= i < n);
        assert(kept[k - 1] == points[i]);
        assert(k * s == i + s) by (nonlinear_arith)
            requires
                i == (k - 1) * s,
        ;
        let j = if k < c && !(replaced && k == c - 1) {
            assert(0 <= k * s < n);
            k * s
        } else {
            n - 1
        };
        assert(kept[k] == points[j]);
        let e = j - i;
        if m == c {
            assert(e <= s);
            assert(e * m <= 3 * (n - 1)) by (nonlinear_arith)
                requires
                    e <= s,
                    m == c,
                    c > 32,
                    s > 0,
                    n - 1 >= c * s - s,
            ;
        } else {
            assert(e <= 2 * s);
            assert(e * m <= 3 * (n - 1)) by (nonlinear_arith)
                requires
                    e <= 2 * s,
                    m == c - 1,
                    c > 32,
                    s > 0,
                    n - 1 >= c * s - s,
            ;
        }
        let x = kept[k].0 - kept[k - 1].0;
        let t = kept.last().0 - kept[0].0;
        assert(x == e * d) by (nonlinear_arith)
            requires
                x == j * d - i * d,
                e == j - i,
        ;
        assert(t == (n - 1) * d);
        assert(x * m <= 3 * t) by (nonlinear_arith)
            requires
                x == e * d,
                t == (n - 1) * d,
                e * m <= 3 * (n - 1),
                d > 0,
        ;
    }
}

// ---------------------------------------------------------------------------
// Runs in a history

/// Each comes later than the one before it.
pub open spec fn strictly_ordered<T: Timed>(s: Seq<T>) -> bool {
    forall|i: int, j: int| 0 <= i < j < s.len() ==> (#[trigger] s[i]).time() < (#[trigger]
    s[j]).time()
}

/// The readings' moments as points never go back.
proof fn lemma_points_ordered(s: Seq<Sample>, a: int, b: int)
    requires
        0 <= a < b <= s.len(),
        ordered(s),
    ensures
        forall|j: int, k: int|
            0 <= j <= k < points_of(s, a, b).len() ==> (#[trigger] points_of(s, a, b)[j]).0 <= (
            #[trigger] points_of(s, a, b)[k]).0,
{
    let p = points_of(s, a, b);
    assert forall|j: int, k: int| 0 <= j <= k < p.len() implies (#[trigger] p[j]).0 <= (
    #[trigger] p[k]).0 by {
        assert(s.subrange(a, b)[j] == s[a + j]);
        assert(s.subrange(a, b)[k] == s[a + k]);
        if j < k {
            assert(s[a + j].time() <= s[a + k].time());
        }
        let x = elapsed(s[a].at as int, s[a + j].at as int);
        let y = elapsed(s[a].at as int, s[a + k].at as int);
        assert(x <= y);
        assert(x * UNIT <= y * UNIT);
    }
}

/// Every run among them starts at a reading that starts one.
proof fn lemma_runs_from(s: Seq<Sample>, i: int)
    requires
        0 <= i,
    ensures
        forall|k: int|
            0 <= k < runs_from(s, i).len() ==> exists|a: int|
                i <= a < s.len() && Kind::of_status(s[a].status) is Some && #[trigger] runs_from(
                    s,
                    i,
                )[k] == #[trigger] run_at(s, a),
        forall|k: int|
            0 <= k < runs_from(s, i).len() - 1 ==> !(#[trigger] runs_from(s, i)[k]).in_progress,
        ordered(s) ==> ordered(runs_from(s, i)),
    decreases s.len() - i,
{
    let all = runs_from(s, i);
    if i >= s.len() {
    } else if Kind::of_status(s[i].status) is None {
        lemma_runs_from(s, i + 1);
    } else {
        lemma_run_end_bounds(s, i + 1);
        let b = run_end(s, i + 1);
        lemma_runs_from(s, b);
        let rest = runs_from(s, b);
        let first = run_at(s, i);
        assert forall|k: int| 0 <= k < all.len() implies exists|a: int|
            i <= a < s.len() && Kind::of_status(s[a].status) is Some && #[trigger] all[k]
                == #[trigger] run_at(s, a) by {
            if k == 0 {
                assert(all[k] == run_at(s, i));
            } else {
                assert(all[k] == rest[k - 1]);
                let a = choose|a: int|
                    b <= a < s.len() && Kind::of_status(s[a].status) is Some && rest[k - 1]
                        == #[trigger] run_at(s, a);
                assert(all[k] == run_at(s, a));
            }
        }
        assert forall|k: int| 0 <= k < all.len() - 1 implies !(#[trigger] all[k]).in_progress by {
            if k == 0 {
                assert(b < s.len());
            } else {
                assert(all[k] == rest[k - 1]);
            }
        }
        if ordered(s) {
            assert forall|j: int, k: int| 0 <= j < k < all.len() implies (#[trigger] all[j]).time()
                <= (#[trigger] all[k]).time() by {
                assert(all[k] == rest[k - 1]);
                if j == 0 {
                    let a = choose|a: int|
                        b <= a < s.len() && Kind::of_status(s[a].status) is Some && rest[k - 1]
                            == #[trigger] run_at(s, a);
                    assert(s[i].time() <= s[a].time());
                } else {
                    assert(all[j] == rest[j - 1]);
                }
            }
        }
    }
}

proof fn lemma_runs_apart(s: Seq<Sample>, i: int)
    requires
        0 <= i,
        strictly_ordered(s),
    ensures
        strictly_ordered(runs_from(s, i)),
    decreases s.len() - i,
{
    if i >= s.len() {
    } else if Kind::of_status(s[i].status) is None {
        lemma_runs_apart(s, i + 1);
    } else {
        lemma_run_end_bounds(s, i + 1);
        let b = run_end(s, i + 1);
        lemma_runs_apart(s, b);
        lemma_runs_from(s, b);
        let all = runs_from(s, i);
        let rest = runs_from(s, b);
        assert forall|j: int, k: int| 0 <= j < k < all.len() implies (#[trigger] all[j]).time() < (
        #[trigger] all[k]).time() by {
            assert(all[k] == rest[k - 1]);
            if j == 0 {
                let a = choose|a: int|
                    b <= a < s.len() && Kind::of_status(s[a].status) is Some && rest[k - 1]
                        == #[trigger] run_at(s, a);
                assert(s[i].time() < s[a].time());
            } else {
                assert(all[j] == rest[j - 1]);
            }
        }
    }
}

proof fn lemma_long_ordered(q: Seq<RunModel>)
    ensures
        ordered(q) ==> ordered(q.filter(long())),
        strictly_ordered(q) ==> strictly_ordered(q.filter(long())),
        (forall|k: int| 0 <= k < q.len() - 1 ==> !(#[trigger] q[k]).in_progress) ==> (forall|k: int|
            0 <= k < q.filter(long()).len() - 1 ==> !(#[trigger] q.filter(long())[k]).in_progress),
    decreases q.len(),
{
    if q.len() > 0 {
        let init = q.drop_last();
        lemma_long_ordered(init);
        reveal(Seq::filter);
        let before = init.filter(long());
        let all = q.filter(long());
        if forall|k: int| 0 <= k < q.len() - 1 ==> !(#[trigger] q[k]).in_progress {
            assert forall|k: int| 0 <= k < all.len() - 1 implies !(#[trigger] all[k]).in_progress by {
                assert(all[k] == before[k]);
                init.lemma_filter_contains_rev(long(), before[k]);
                let j = choose|j: int| 0 <= j < init.len() && init[j] == before[k];
                assert(q[j] == init[j]);
            }
        }
        if ordered(q) {
            assert(ordered(init)) by {
                assert forall|i: int, j: int| 0 <= i < j < init.len() implies (
                #[trigger] init[i]).time() <= (#[trigger] init[j]).time() by {
                    assert(q[i].time() <= q[j].time());
                }
            }
            assert forall|i: int, j: int| 0 <= i < j < all.len() implies (#[trigger] all[i]).time()
                <= (#[trigger] all[j]).time() by {
                assert(all[i] == before[i]);
                if j < before.len() {
                    assert(all[j] == before[j]);
                } else {
                    init.lemma_filter_contains_rev(long(), before[i]);
                    let k = choose|k: int| 0 <= k < init.len() && init[k] == before[i];
                    assert(q[k].time() <= q[q.len() - 1].time());
                }
            }
        }
        if strictly_ordered(q) {
            assert(strictly_ordered(init)) by {
                assert forall|i: int, j: int| 0 <= i < j < init.len() implies (
                #[trigger] init[i]).time() < (#[trigger] init[j]).time() by {
                    assert(q[i].time() < q[j].time());
                }
            }
            assert forall|i: int, j: int| 0 <= i < j < all.len() implies (#[trigger] all[i]).time()
                < (#[trigger] all[j]).time() by {
                assert(all[i] == before[i]);
                if j < before.len() {
                    assert(all[j] == before[j]);
                } else {
                    init.lemma_filter_contains_rev(long(), before[i]);
                    let k = choose|k: int| 0 <= k < init.len() && init[k] == before[i];
                    assert(q[k].time() < q[q.len() - 1].time());
                }
            }
        }
    } else {
        assert(q.filter(long()) == q) by {
            reveal(Seq::filter);
        }
    }
}

/// A gap does not end a run: readings of one trend, the charge moving on across
/// every gap among them, all belong to the run that the first of them is in.
pub proof fn law_a_gap_does_not_split_a_run(s: Seq<Sample>, a: int, i: int, kind: Kind)
    requires
        0 <= a < i < s.len(),
        forall|k: int| a <= k <= i ==> Kind::of_status((#[trigger] s[k]).status) == Some(kind),
        forall|k: int|
            a < k <= i && (#[trigger] s[k]).follows.is_gap() ==> moves_on(
                kind,
                s[k - 1].percent as int,
                s[k].percent as int,
            ),
    ensures
        run_end(s, a + 1) > i,
{
    lemma_run_end_bounds(s, a + 1);
    let b = run_end(s, a + 1);
    if b <= i {
        assert(Kind::of_status(s[b].status) == Kind::of_status(s[b - 1].status));
        assert(goes_on(s, b));
    }
}

/// A charge that moved the other way across a gap splits the run: something was
/// plugged in or unplugged unobserved.
pub proof fn law_a_reversal_across_a_gap_splits_the_run(s: Seq<Sample>, a: int, i: int, kind: Kind)
    requires
        0 <= a < i < s.len(),
        Kind::of_status(s[i].status) == Some(kind),
        s[i].follows.is_gap(),
        !moves_on(kind, s[i - 1].percent as int, s[i].percent as int),
    ensures
        run_end(s, a + 1) <= i,
{
    lemma_run_end_bounds(s, a + 1);
    assert(!goes_on(s, i));
}

/// Of the runs in a history only the last may be in progress, and in a history
/// in order of time they come oldest first.
pub proof fn law_runs_come_oldest_first(s: Seq<Sample>)
    ensures
        forall|k: int|
            0 <= k < recorded(s).len() - 1 ==> !(#[trigger] recorded(s)[k]).in_progress,
        ordered(s) ==> ordered(recorded(s)),
{
    lemma_runs_from(s, 0);
    lemma_long_ordered(runs_from(s, 0));
}

/// Blips are not runs: every recorded run lasted at least `MIN_RUN_SECS`. Each
/// carries its own shape: at most `SERIES_POINTS` points, the first at its start
/// with the charge it started from, the last with the charge it came to, so that
/// the row and the graph agree.
pub proof fn law_a_run_carries_its_own_shape(s: Seq<Sample>, run: RunModel)
    requires
        recorded(s).contains(run),
    ensures
        run.lasted() >= MIN_RUN_SECS,
        2 <= run.series.len() <= SERIES_POINTS,
        run.series[0] == (0i64, run.from_percent),
        run.series.last().0 == clipped(run.lasted() * UNIT),
        run.series.last().1 == run.to_percent,
        run.pace() is Some,
{
    runs_from(s, 0).lemma_filter_contains_rev(long(), run);
    lemma_filter_long(runs_from(s, 0), run);
    lemma_runs_from(s, 0);
    let all = runs_from(s, 0);
    let k = choose|k: int| 0 <= k < all.len() && all[k] == run;
    let a = choose|a: int|
        0 <= a < s.len() && Kind::of_status(s[a].status) is Some && all[k] == #[trigger] run_at(
            s,
            a,
        );
    lemma_run_end_bounds(s, a + 1);
    let b = run_end(s, a + 1);
    let ending = if b < s.len() {
        b
    } else {
        b - 1
    };
    let p = points_of(s, a, ending + 1);
    let sub = s.subrange(a, ending + 1);
    assert(sub[0] == s[a]);
    assert(sub.last() == s[ending]);
    assert(p.last() == point_of(s[a].at as int, s[ending]));
    law_thinning_keeps_real_observations(p);
    let at = choose|at: Seq<int>| drawn_from(thinned(p), p, at);
    assert(at[0] == 0 && at[at.len() - 1] == p.len() - 1);
    assert(run.series[0] == p[0]);
    assert(run.series[at.len() - 1] == p[p.len() - 1]);
    assert(run.series.len() >= 2) by {
        if run.series.len() == 1 {
            assert(p.len() == 1);
            assert(ending == a);
        }
    }
}

proof fn lemma_filter_long(q: Seq<RunModel>, run: RunModel)
    requires
        q.filter(long()).contains(run),
    ensures
        run.is_long(),
    decreases q.len(),
{
    reveal(Seq::filter);
    if q.len() > 0 {
        let before = q.drop_last().filter(long());
        let all = q.filter(long());
        let k = choose|k: int| 0 <= k < all.len() && all[k] == run;
        if k < before.len() {
            assert(before[k] == run);
            lemma_filter_long(q.drop_last(), run);
        }
    }
}

/// A gap inside a run survives in its series: where two of its readings lie so
/// far apart, some two neighbours of the series do too.
pub proof fn law_a_gap_inside_a_run_survives(s: Seq<Sample>, a: int, i: int)
    requires
        ordered(s),
        0 <= a < i < s.len(),
        Kind::of_status(s[a].status) is Some,
        i <= run_end(s, a + 1),
    ensures
        exists|k: int|
            0 < k < run_at(s, a).series.len() && (#[trigger] run_at(s, a).series[k]).0 - run_at(
                s,
                a,
            ).series[k - 1].0 >= point_of(s[a].at as int, s[i]).0 - point_of(
                s[a].at as int,
                s[i - 1],
            ).0,
{
    lemma_run_end_bounds(s, a + 1);
    let b = run_end(s, a + 1);
    let ending = if b < s.len() {
        b
    } else {
        b - 1
    };
    let p = points_of(s, a, ending + 1);
    let sub = s.subrange(a, ending + 1);
    lemma_points_ordered(s, a, ending + 1);
    assert(sub[i - a] == s[i] && sub[i - a - 1] == s[i - 1]);
    law_a_gap_survives_the_thinning(p, i - a);
    let series = run_at(s, a).series;
    assert(series == thinned(p));
    let k = choose|k: int|
        0 < k < thinned(p).len() && (#[trigger] thinned(p)[k]).0 - thinned(p)[k - 1].0 >= p[i
            - a].0 - p[i - a - 1].0;
    assert(series[k].0 - series[k - 1].0 >= p[i - a].0 - p[i - a - 1].0);
}

/// Every run that lasted long enough is recorded: a reading that belongs to no
/// run before it starts one.
pub proof fn law_every_long_run_is_recorded(s: Seq<Sample>, a: int)
    requires
        0 <= a < s.len(),
        Kind::of_status(s[a].status) is Some,
        !goes_on(s, a),
        run_at(s, a).is_long(),
    ensures
        recorded(s).contains(run_at(s, a)),
{
    lemma_starts_are_found(s, 0, a);
    let all = runs_from(s, 0);
    all.lemma_filter_contains(long(), choose|k: int| 0 <= k < all.len() && all[k] == run_at(s, a));
}

proof fn lemma_starts_are_found(s: Seq<Sample>, i: int, a: int)
    requires
        0 <= i <= a < s.len(),
        Kind::of_status(s[a].status) is Some,
        !goes_on(s, a),
    ensures
        runs_from(s, i).contains(run_at(s, a)),
    decreases s.len() - i,
{
    let all = runs_from(s, i);
    if Kind::of_status(s[i].status) is None {
        lemma_starts_are_found(s, i + 1, a);
    } else if a == i {
        assert(all[0] == run_at(s, a));
    } else {
        lemma_run_end_bounds(s, i + 1);
        let b = run_end(s, i + 1);
        assert(b <= a) by {
            if a < b {
                assert(goes_on(s, a));
            }
        }
        lemma_starts_are_found(s, b, a);
        let rest = runs_from(s, b);
        let k = choose|k: int| 0 <= k < rest.len() && rest[k] == run_at(s, a);
        assert(all[k + 1] == rest[k]);
    }
}

// ---------------------------------------------------------------------------
// Merging

/// No two of the runs started at the same moment.
pub open spec fn distinct_starts(runs: Seq<RunModel>) -> bool {
    forall|i: int, j: int|
        0 <= i < j < runs.len() ==> (#[trigger] runs[i]).started != (#[trigger] runs[j]).started
}

/// The first run from a moment is the first of the runs from that moment.
proof fn lemma_first_from(runs: Seq<RunModel>, t: int)
    ensures
        started_at(runs, t) < runs.len() <==> from_moment(runs, t).len() > 0,
        started_at(runs, t) < runs.len() ==> runs[started_at(runs, t)] == from_moment(runs, t)[0],
{
    lemma_started_at(runs, t);
    let i = started_at(runs, t);
    let keep = is_from::<RunModel>(t);
    let head = runs.take(i);
    assert(head.filter(keep) == Seq::<RunModel>::empty()) by {
        if head.filter(keep).len() > 0 {
            let x = head.filter(keep)[0];
            head.lemma_filter_contains_rev(keep, x);
            lemma_filter_from(head, t, x);
            let j = choose|j: int| 0 <= j < head.len() && head[j] == x;
            assert(runs[j].started != t);
        }
    }
    if i < runs.len() {
        let tail = runs.skip(i + 1);
        assert(runs == head + seq![runs[i]] + tail);
        Seq::filter_distributes_over_add(head + seq![runs[i]], tail, keep);
        Seq::filter_distributes_over_add(head, seq![runs[i]], keep);
        assert(seq![runs[i]].filter(keep) == seq![runs[i]]) by {
            reveal(Seq::filter);
            assert(seq![runs[i]].drop_last() == Seq::<RunModel>::empty());
            assert(Seq::<RunModel>::empty().filter(keep) == Seq::<RunModel>::empty());
        }
        assert(runs.filter(keep) == seq![runs[i]] + tail.filter(keep));
    } else {
        assert(head == runs);
    }
}

proof fn lemma_filter_from(runs: Seq<RunModel>, t: int, run: RunModel)
    requires
        runs.filter(is_from::<RunModel>(t)).contains(run),
    ensures
        run.started == t,
    decreases runs.len(),
{
    reveal(Seq::filter);
    let keep = is_from::<RunModel>(t);
    if runs.len() > 0 {
        let before = runs.drop_last().filter(keep);
        let all = runs.filter(keep);
        let k = choose|k: int| 0 <= k < all.len() && all[k] == run;
        if k < before.len() {
            assert(before[k] == run);
            lemma_filter_from(runs.drop_last(), t, run);
        }
    }
}

/// Putting the runs in order changes neither whether a run from a moment is
/// known nor what the first one says.
proof fn lemma_order_keeps_first(runs: Seq<RunModel>, t: int)
    ensures
        started_at(in_order(runs), t) < in_order(runs).len() <==> started_at(runs, t) < runs.len(),
        started_at(runs, t) < runs.len() ==> in_order(runs)[started_at(in_order(runs), t)]
            == runs[started_at(runs, t)],
{
    lemma_first_from(runs, t);
    lemma_first_from(in_order(runs), t);
    law_in_order_is_stable(runs, t);
}

/// What is known of the moment `t`: what the first run from then says.
pub open spec fn known_of(runs: Seq<RunModel>, t: int) -> Option<RunModel> {
    if started_at(runs, t) < runs.len() {
        Some(runs[started_at(runs, t)])
    } else {
        None
    }
}

proof fn lemma_with_run(known: Seq<RunModel>, run: RunModel, t: int)
    ensures
        known_of(with_run(known, run), t) == if t == run.started {
            Some(run)
        } else {
            known_of(known, t)
        },
{
    lemma_started_at(known, run.started as int);
    lemma_started_at(known, t);
    let after = with_run(known, run);
    let i = started_at(known, run.started as int);
    lemma_started_at(after, t);
    if t == run.started {
        let at = if i < known.len() {
            i
        } else {
            known.len() as int
        };
        assert forall|j: int| 0 <= j < at implies (#[trigger] after[j]).started != t by {
            assert(known[j].started != t);
        }
        assert(after[at].started == t);
        lemma_started_at_unique(after, t, at);
    } else {
        let k = started_at(known, t);
        if k < known.len() {
            assert forall|j: int| 0 <= j < k implies (#[trigger] after[j]).started != t by {
                if j != i {
                    assert(known[j].started != t);
                }
            }
            assert(k != i);
            lemma_started_at_unique(after, t, k);
        } else {
            assert forall|j: int| 0 <= j < after.len() implies (#[trigger] after[j]).started
                != t by {
                if j < known.len() && j != i {
                    assert(known[j].started != t);
                }
            }
            lemma_started_at_unique(after, t, after.len() as int);
        }
    }
}

pub proof fn lemma_folded_others(known: Seq<RunModel>, derived: Seq<RunModel>, t: int)
    requires
        forall|i: int| 0 <= i < derived.len() ==> (#[trigger] derived[i]).started != t,
    ensures
        known_of(folded(known, derived), t) == known_of(known, t),
    decreases derived.len(),
{
    if derived.len() > 0 {
        let init = derived.drop_last();
        assert forall|i: int| 0 <= i < init.len() implies (#[trigger] init[i]).started != t by {
            assert(init[i] == derived[i]);
        }
        lemma_folded_others(known, init, t);
        lemma_with_run(folded(known, init), derived.last(), t);
        assert(derived[derived.len() - 1].started != t);
    }
}

proof fn lemma_folded_one(known: Seq<RunModel>, derived: Seq<RunModel>, k: int)
    requires
        0 <= k < derived.len(),
        distinct_starts(derived),
    ensures
        known_of(folded(known, derived), derived[k].started as int) == Some(derived[k]),
    decreases derived.len(),
{
    let init = derived.drop_last();
    let t = derived[k].started as int;
    lemma_with_run(folded(known, init), derived.last(), t);
    if k < derived.len() - 1 {
        assert(distinct_starts(init)) by {
            assert forall|i: int, j: int| 0 <= i < j < init.len() implies (
            #[trigger] init[i]).started != (#[trigger] init[j]).started by {
                assert(derived[i].started != derived[j].started);
            }
        }
        assert(init[k] == derived[k]);
        assert(derived[k].started != derived[derived.len() - 1].started);
        lemma_folded_one(known, init, k);
    }
}

/// Merging makes every derived run known under its start, in place of what was
/// known of that moment, and leaves what is known of every other moment alone.
pub proof fn law_merging_replaces_by_start(known: Seq<RunModel>, derived: Seq<RunModel>, t: int)
    requires
        distinct_starts(derived),
    ensures
        forall|k: int|
            0 <= k < derived.len() && (#[trigger] derived[k]).started == t ==> known_of(
                after_merging(known, derived),
                t,
            ) == Some(derived[k]),
        (forall|k: int| 0 <= k < derived.len() ==> (#[trigger] derived[k]).started != t)
            ==> known_of(after_merging(known, derived), t) == known_of(known, t),
{
    lemma_order_keeps_first(folded(known, derived), t);
    assert forall|k: int| 0 <= k < derived.len() && (#[trigger] derived[k]).started
        == t implies known_of(after_merging(known, derived), t) == Some(derived[k]) by {
        lemma_folded_one(known, derived, k);
    }
    if forall|k: int| 0 <= k < derived.len() ==> (#[trigger] derived[k]).started != t {
        lemma_folded_others(known, derived, t);
    }
}

/// Merging never makes a second run of one moment: where no two known runs
/// started together, none do after it.
pub proof fn law_merging_never_duplicates(known: Seq<RunModel>, derived: Seq<RunModel>)
    requires
        distinct_starts(known),
    ensures
        distinct_starts(after_merging(known, derived)),
{
    lemma_folded_distinct(known, derived);
    lemma_in_order_distinct(folded(known, derived));
}

proof fn lemma_folded_distinct(known: Seq<RunModel>, derived: Seq<RunModel>)
    requires
        distinct_starts(known),
    ensures
        distinct_starts(folded(known, derived)),
    decreases derived.len(),
{
    if derived.len() > 0 {
        lemma_folded_distinct(known, derived.drop_last());
        let before = folded(known, derived.drop_last());
        let run = derived.last();
        lemma_started_at(before, run.started as int);
        let after = with_run(before, run);
        assert forall|i: int, j: int| 0 <= i < j < after.len() implies (#[trigger] after[i]).started
            != (#[trigger] after[j]).started by {
            assert(before[i].started == after[i].started);
            if j < before.len() {
                assert(before[j].started == after[j].started);
            }
        }
    }
}

proof fn lemma_in_order_distinct(runs: Seq<RunModel>)
    requires
        distinct_starts(runs),
    ensures
        distinct_starts(in_order(runs)),
        forall|i: int|
            0 <= i < in_order(runs).len() ==> runs.contains(#[trigger] in_order(runs)[i]),
    decreases runs.len(),
{
    if runs.len() > 0 {
        let init = runs.drop_last();
        let x = runs.last();
        assert(distinct_starts(init)) by {
            assert forall|i: int, j: int| 0 <= i < j < init.len() implies (
            #[trigger] init[i]).started != (#[trigger] init[j]).started by {
                assert(runs[i].started != runs[j].started);
            }
        }
        lemma_in_order_distinct(init);
        let rest = in_order(init);
        lemma_place(rest, x.time());
        let at = place(rest, x.time());
        let all = in_order(runs);
        assert(all == rest.insert(at, x));
        assert forall|i: int| 0 <= i < rest.len() implies (#[trigger] rest[i]).started
            != x.started && runs.contains(rest[i]) by {
            assert(init.contains(rest[i]));
            let k = choose|k: int| 0 <= k < init.len() && init[k] == rest[i];
            assert(runs[k] == rest[i]);
            assert(runs[k].started != runs[runs.len() - 1].started);
        }
        assert forall|i: int| 0 <= i < all.len() implies runs.contains(#[trigger] all[i]) by {
            if i < at {
                assert(all[i] == rest[i]);
            } else if i > at {
                assert(all[i] == rest[i - 1]);
            } else {
                assert(all[i] == runs[runs.len() - 1]);
            }
        }
        assert forall|i: int, j: int| 0 <= i < j < all.len() implies (#[trigger] all[i]).started
            != (#[trigger] all[j]).started by {
            let a = if i < at {
                i
            } else {
                i - 1
            };
            let b = if j < at {
                j
            } else {
                j - 1
            };
            if i == at {
                assert(all[j] == rest[b]);
            } else if j == at {
                assert(all[i] == rest[a]);
            } else {
                assert(all[i] == rest[a] && all[j] == rest[b]);
            }
        }
    }
}

/// In a history in which no two readings are from the same moment, no two runs
/// started together: what is derived from it merges run by run.
pub proof fn law_runs_of_a_history_start_apart(s: Seq<Sample>)
    requires
        strictly_ordered(s),
    ensures
        distinct_starts(recorded(s)),
{
    lemma_runs_apart(s, 0);
    lemma_long_ordered(runs_from(s, 0));
    let all = recorded(s);
    assert forall|i: int, j: int| 0 <= i < j < all.len() implies (#[trigger] all[i]).started != (
    #[trigger] all[j]).started by {
        assert(all[i].time() < all[j].time());
    }
}

/// Merging the same runs again changes nothing, and says so.
pub proof fn law_merging_again_changes_nothing(known: Seq<RunModel>, derived: Seq<RunModel>)
    requires
        distinct_starts(derived),
    ensures
        ({
            let merged = after_merging(known, derived);
            &&& !any_news(merged, derived)
            &&& after_merging(merged, derived) == merged
        }),
{
    let merged = after_merging(known, derived);
    assert forall|k: int| 0 <= k < derived.len() implies known_of(
        merged,
        (#[trigger] derived[k]).started as int,
    ) == Some(derived[k]) by {
        law_merging_replaces_by_start(known, derived, derived[k].started as int);
    }
    lemma_no_news(merged, derived);
    law_in_order_is_ordered(folded(known, derived));
    law_ordered_stays(merged);
}

proof fn lemma_no_news(merged: Seq<RunModel>, derived: Seq<RunModel>)
    requires
        forall|k: int|
            0 <= k < derived.len() ==> known_of(merged, (#[trigger] derived[k]).started as int)
                == Some(derived[k]),
    ensures
        !any_news(merged, derived),
        folded(merged, derived) == merged,
    decreases derived.len(),
{
    if derived.len() > 0 {
        let init = derived.drop_last();
        assert forall|k: int| 0 <= k < init.len() implies known_of(
            merged,
            (#[trigger] init[k]).started as int,
        ) == Some(init[k]) by {
            assert(init[k] == derived[k]);
        }
        lemma_no_news(merged, init);
        assert(known_of(merged, derived[derived.len() - 1].started as int) is Some);
    }
}

// ---------------------------------------------------------------------------
// Listing and keeping

proof fn lemma_of_kind(runs: Seq<Run>, kind: Kind, in_progress: bool)
    ensures
        forall|i: int|
            0 <= i < of_kind(runs, kind, in_progress).len() ==> {
                let run = #[trigger] of_kind(runs, kind, in_progress)[i];
                &&& runs.contains(*run)
                &&& run.kind == kind
                &&& run.in_progress == in_progress
            },
        forall|k: int|
            0 <= k < runs.len() && (#[trigger] runs[k]).kind == kind && runs[k].in_progress
                == in_progress ==> of_kind(runs, kind, in_progress).contains(&runs[k]),
    decreases runs.len(),
{
    let all = of_kind(runs, kind, in_progress);
    if runs.len() > 0 {
        let init = runs.drop_last();
        lemma_of_kind(init, kind, in_progress);
        let rest = of_kind(init, kind, in_progress);
        assert forall|i: int| 0 <= i < all.len() implies {
            let run = #[trigger] all[i];
            &&& runs.contains(*run)
            &&& run.kind == kind
            &&& run.in_progress == in_progress
        } by {
            if i < rest.len() {
                assert(all[i] == rest[i]);
                let k = choose|k: int| 0 <= k < init.len() && init[k] == *rest[i];
                assert(runs[k] == *all[i]);
            } else {
                assert(runs[runs.len() - 1] == *all[i]);
            }
        }
        assert forall|k: int|
            0 <= k < runs.len() && (#[trigger] runs[k]).kind == kind && runs[k].in_progress
                == in_progress implies all.contains(&runs[k]) by {
            if k < init.len() {
                assert(init[k] == runs[k]);
                let i = choose|i: int| 0 <= i < rest.len() && rest[i] == &init[k];
                assert(all[i] == &runs[k]);
            } else {
                assert(all[all.len() - 1] == &runs[k]);
            }
        }
    }
}

/// The same things, in another order.
proof fn lemma_in_order_same(s: Seq<&Run>)
    ensures
        in_order(s).len() == s.len(),
        forall|i: int| 0 <= i < s.len() ==> in_order(s).contains(#[trigger] s[i]),
        forall|i: int| 0 <= i < s.len() ==> s.contains(#[trigger] in_order(s)[i]),
    decreases s.len(),
{
    if s.len() > 0 {
        let init = s.drop_last();
        let x = s.last();
        lemma_in_order_same(init);
        let rest = in_order(init);
        lemma_place(rest, x.time());
        let at = place(rest, x.time());
        let all = in_order(s);
        assert(all == rest.insert(at, x));
        assert forall|i: int| 0 <= i < s.len() implies all.contains(#[trigger] s[i]) by {
            if i < init.len() {
                assert(init[i] == s[i]);
                let k = choose|k: int| 0 <= k < rest.len() && rest[k] == init[i];
                assert(all[if k < at {
                    k
                } else {
                    k + 1
                }] == s[i]);
            } else {
                assert(all[at] == s[i]);
            }
        }
        assert forall|i: int| 0 <= i < s.len() implies s.contains(#[trigger] all[i]) by {
            if i == at {
                assert(s[s.len() - 1] == all[i]);
            } else {
                let k = if i < at {
                    i
                } else {
                    i - 1
                };
                assert(all[i] == rest[k]);
                let j = choose|j: int| 0 <= j < init.len() && init[j] == rest[k];
                assert(s[j] == all[i]);
            }
        }
    }
}

/// `newest_first` holds every run of its kind and state and no other, newest first.
proof fn lemma_newest_first(runs: Seq<Run>, kind: Kind, in_progress: bool)
    ensures
        forall|i: int|
            0 <= i < newest_first(runs, kind, in_progress).len() ==> {
                let run = #[trigger] newest_first(runs, kind, in_progress)[i];
                &&& runs.contains(*run)
                &&& run.kind == kind
                &&& run.in_progress == in_progress
            },
        forall|i: int, j: int|
            0 <= i < j < newest_first(runs, kind, in_progress).len() ==> (#[trigger] newest_first(
                runs,
                kind,
                in_progress,
            )[i]).started >= (#[trigger] newest_first(runs, kind, in_progress)[j]).started,
        forall|k: int|
            0 <= k < runs.len() && (#[trigger] runs[k]).kind == kind && runs[k].in_progress
                == in_progress ==> newest_first(runs, kind, in_progress).contains(&runs[k]),
{
    let of = of_kind(runs, kind, in_progress);
    let sorted = in_order(of);
    let all = newest_first(runs, kind, in_progress);
    lemma_of_kind(runs, kind, in_progress);
    lemma_in_order_same(of);
    law_in_order_is_ordered(of);
    let n = sorted.len() as int;
    assert forall|i: int| 0 <= i < all.len() implies {
        let run = #[trigger] all[i];
        &&& runs.contains(*run)
        &&& run.kind == kind
        &&& run.in_progress == in_progress
    } by {
        assert(of.contains(sorted[n - 1 - i]));
        let k = choose|k: int| 0 <= k < of.len() && of[k] == sorted[n - 1 - i];
        assert(runs.contains(*of[k]));
    }
    assert forall|i: int, j: int| 0 <= i < j < all.len() implies (#[trigger] all[i]).started >= (
    #[trigger] all[j]).started by {
        assert(sorted[n - 1 - j].time() <= sorted[n - 1 - i].time());
    }
    assert forall|k: int|
        0 <= k < runs.len() && (#[trigger] runs[k]).kind == kind && runs[k].in_progress
            == in_progress implies all.contains(&runs[k]) by {
        let m = choose|m: int| 0 <= m < of.len() && of[m] == &runs[k];
        assert(sorted.contains(of[m]));
        let p = choose|p: int| 0 <= p < sorted.len() && sorted[p] == of[m];
        assert(all[n - 1 - p] == &runs[k]);
    }
}

/// `first` may stand before `second` in the list: a run in progress before one
/// that is finished, and the newer before the older.
pub open spec fn comes_before(first: Run, second: Run) -> bool {
    if first.in_progress == second.in_progress {
        first.started >= second.started
    } else {
        first.in_progress
    }
}

/// The list shows at most `SHOWN_PER_KIND` runs, only of the kind asked for: any
/// in progress at the front, then those that are finished, the newest of each
/// first. A run of that kind that is not shown comes after all that are, and none
/// is left out while there is room.
pub proof fn law_the_newest_are_listed(runs: Seq<Run>, kind: Kind)
    ensures
        listed(runs, kind).len() <= SHOWN_PER_KIND,
        forall|i: int|
            0 <= i < listed(runs, kind).len() ==> runs.contains(*(#[trigger] listed(runs, kind)[i]))
                && listed(runs, kind)[i].kind == kind,
        forall|i: int, j: int|
            0 <= i < j < listed(runs, kind).len() ==> comes_before(
                *(#[trigger] listed(runs, kind)[i]),
                *(#[trigger] listed(runs, kind)[j]),
            ),
        forall|k: int|
            0 <= k < runs.len() && (#[trigger] runs[k]).kind == kind && !listed(
                runs,
                kind,
            ).contains(&runs[k]) ==> listed(runs, kind).len() == SHOWN_PER_KIND,
        forall|k: int, i: int|
            0 <= k < runs.len() && (#[trigger] runs[k]).kind == kind && !listed(
                runs,
                kind,
            ).contains(&runs[k]) && 0 <= i < listed(runs, kind).len() ==> comes_before(
                *(#[trigger] listed(runs, kind)[i]),
                runs[k],
            ),
{
    let going = newest_first(runs, kind, true);
    let over = newest_first(runs, kind, false);
    let all = going + over;
    let shown = listed(runs, kind);
    let g = going.len() as int;
    lemma_newest_first(runs, kind, true);
    lemma_newest_first(runs, kind, false);
    assert forall|i: int| 0 <= i < all.len() implies runs.contains(*(#[trigger] all[i]))
        && all[i].kind == kind by {
        if i < g {
            assert(all[i] == going[i]);
        } else {
            assert(all[i] == over[i - g]);
        }
    }
    assert forall|i: int, j: int| 0 <= i < j < all.len() implies comes_before(
        *(#[trigger] all[i]),
        *(#[trigger] all[j]),
    ) by {
        if j < g {
            assert(all[i] == going[i] && all[j] == going[j]);
        } else if i >= g {
            assert(all[i] == over[i - g] && all[j] == over[j - g]);
        } else {
            assert(all[i] == going[i] && all[j] == over[j - g]);
        }
    }
    assert forall|i: int| 0 <= i < shown.len() implies #[trigger] shown[i] == all[i] by {}
    assert forall|k: int| 0 <= k < runs.len() && (#[trigger] runs[k]).kind == kind && !shown.contains(
        &runs[k],
    ) implies shown.len() == SHOWN_PER_KIND && exists|p: int|
        shown.len() <= p < all.len() && #[trigger] all[p] == &runs[k] by {
        if runs[k].in_progress {
            let p = choose|p: int| 0 <= p < going.len() && going[p] == &runs[k];
            assert(all[p] == &runs[k]);
            if p < shown.len() {
                assert(shown[p] == &runs[k]);
            }
        } else {
            let p = choose|p: int| 0 <= p < over.len() && over[p] == &runs[k];
            assert(all[g + p] == &runs[k]);
            if g + p < shown.len() {
                assert(shown[g + p] == &runs[k]);
            }
        }
    }
    assert forall|k: int, i: int|
        0 <= k < runs.len() && (#[trigger] runs[k]).kind == kind && !shown.contains(&runs[k]) && 0
            <= i < shown.len() implies comes_before(*(#[trigger] shown[i]), runs[k]) by {
        let p = choose|p: int| shown.len() <= p < all.len() && #[trigger] all[p] == &runs[k];
        assert(comes_before(*all[i], *all[p]));
    }
}

/// What the file keeps is finished, at most `KEEP_PER_KIND` runs of each kind,
/// the newest of them, oldest first.
pub proof fn law_the_newest_finished_are_saved(runs: Seq<Run>, kind: Kind)
    ensures
        saved_of(runs, kind).len() <= KEEP_PER_KIND,
        saved(runs).len() <= 2 * KEEP_PER_KIND,
        ordered(saved(runs)),
        forall|i: int|
            0 <= i < saved(runs).len() ==> runs.contains(*(#[trigger] saved(runs)[i]))
                && !saved(runs)[i].in_progress,
        forall|i: int|
            0 <= i < saved_of(runs, kind).len() ==> saved(runs).contains(
                #[trigger] saved_of(runs, kind)[i],
            ) && saved_of(runs, kind)[i].kind == kind,
        forall|k: int, i: int|
            0 <= k < runs.len() && (#[trigger] runs[k]).kind == kind && !runs[k].in_progress
                && !saved_of(runs, kind).contains(&runs[k]) && 0 <= i < saved_of(runs, kind).len()
                ==> runs[k].started <= (#[trigger] saved_of(runs, kind)[i]).started,
{
    let both = saved_of(runs, Kind::Discharge) + saved_of(runs, Kind::Charge);
    law_in_order_is_ordered(both);
    lemma_in_order_same(both);
    lemma_saved_of(runs, Kind::Discharge);
    lemma_saved_of(runs, Kind::Charge);
    let all = saved(runs);
    assert forall|i: int| 0 <= i < all.len() implies runs.contains(*(#[trigger] all[i]))
        && !all[i].in_progress by {
        assert(both.contains(all[i]));
        let k = choose|k: int| 0 <= k < both.len() && both[k] == all[i];
        let d = saved_of(runs, Kind::Discharge);
        if k < d.len() {
            assert(both[k] == d[k]);
        } else {
            assert(both[k] == saved_of(runs, Kind::Charge)[k - d.len()]);
        }
    }
    let of = saved_of(runs, kind);
    assert forall|i: int| 0 <= i < of.len() implies all.contains(#[trigger] of[i]) && of[i].kind
        == kind by {
        let k = match kind {
            Kind::Discharge => i,
            Kind::Charge => saved_of(runs, Kind::Discharge).len() + i,
        };
        assert(both[k] == of[i]);
    }
}

proof fn lemma_saved_of(runs: Seq<Run>, kind: Kind)
    ensures
        saved_of(runs, kind).len() <= KEEP_PER_KIND,
        forall|i: int|
            0 <= i < saved_of(runs, kind).len() ==> runs.contains(
                *(#[trigger] saved_of(runs, kind)[i]),
            ) && saved_of(runs, kind)[i].kind == kind && !saved_of(runs, kind)[i].in_progress,
        forall|k: int, i: int|
            0 <= k < runs.len() && (#[trigger] runs[k]).kind == kind && !runs[k].in_progress
                && !saved_of(runs, kind).contains(&runs[k]) && 0 <= i < saved_of(runs, kind).len()
                ==> runs[k].started <= (#[trigger] saved_of(runs, kind)[i]).started,
{
    let of = of_kind(runs, kind, false);
    let sorted = in_order(of);
    let kept = saved_of(runs, kind);
    lemma_of_kind(runs, kind, false);
    lemma_in_order_same(of);
    law_in_order_is_ordered(of);
    let from = sorted.len() - kept.len();
    assert forall|i: int| 0 <= i < kept.len() implies #[trigger] kept[i] == sorted[from + i]
        && runs.contains(*kept[i]) && kept[i].kind == kind && !kept[i].in_progress by {
        assert(of.contains(sorted[from + i]));
        let k = choose|k: int| 0 <= k < of.len() && of[k] == sorted[from + i];
        assert(runs.contains(*of[k]));
    }
    assert forall|k: int, i: int|
        0 <= k < runs.len() && (#[trigger] runs[k]).kind == kind && !runs[k].in_progress
            && !kept.contains(&runs[k]) && 0 <= i < kept.len() implies runs[k].started <= (
    #[trigger] kept[i]).started by {
        assert(of.contains(&runs[k]));
        let m = choose|m: int| 0 <= m < of.len() && of[m] == &runs[k];
        assert(sorted.contains(of[m]));
        let p = choose|p: int| 0 <= p < sorted.len() && sorted[p] == of[m];
        if p >= from {
            assert(kept[p - from] == sorted[p]);
        } else {
            assert(sorted[p].time() <= sorted[from + i].time());
        }
    }
}

} // verus!

//! What is known of runs, listed and kept.

use vstd::prelude::*;

use super::laws::{
    as_stored, distinct_starts, known_of, law_merging_never_duplicates,
    law_merging_replaces_by_start, law_the_newest_are_listed, lemma_folded_others,
};
use super::{
    after_merging, any_news, folded, is_news, law_kind_keys_round_trip, lemma_started_at, listed,
    loaded, of_kind, parsed, points_in, saved, saved_of, started_at, Kind, Run, RunModel,
};
use crate::decimal::laws::law_what_is_written_is_near;
use crate::decimal::{decimal, lemma_small_powers, whole_number};
use crate::micro::{law_nearest_lies_within_a_half, nearest};
use crate::order::{in_order, law_in_order_keeps_everything, lemma_in_order_len};
use crate::store::lemma_decimal_fits;
use crate::text::{fields, law_text_is_cut_at_the_first, trimmed};

verus! {

// ---------------------------------------------------------------------------
// One run

/// The pace of a run is what its charge moved, either way, in percent an hour; it
/// has none where it took no time.
pub proof fn law_the_pace_is_percent_an_hour(run: RunModel)
    requires
        0 <= run.from_percent <= 100_000_000,
        0 <= run.to_percent <= 100_000_000,
    ensures
        run.ended <= run.started ==> run.pace() is None && run.lasted() == 0,
        run.ended > run.started ==> {
            let secs = run.ended - run.started;
            let moved = if run.to_percent > run.from_percent {
                run.to_percent - run.from_percent
            } else {
                run.from_percent - run.to_percent
            };
            &&& run.lasted() == secs
            &&& run.change() == moved
            &&& run.pace() is Some
            &&& -secs <= 2 * (secs * run.pace()->0 - moved * 3600) <= secs
        },
{
    if run.ended > run.started {
        let secs = run.ended - run.started;
        let moved = run.change();
        law_nearest_lies_within_a_half(moved * 3600, secs);
        let n = nearest(moved * 3600, secs);
        assert(0 <= n <= 400_000_000_000) by (nonlinear_arith)
            requires
                -secs <= 2 * (secs * n - moved * 3600) <= secs,
                moved > 0 ==> 2 * (secs * n - moved * 3600) > -secs,
                moved == 0 ==> n == 0,
                0 <= moved <= 100_000_000,
                secs > 0,
        ;
    }
}

// ---------------------------------------------------------------------------
// Merging

proof fn lemma_known_of(runs: Seq<RunModel>, x: RunModel)
    requires
        distinct_starts(runs),
    ensures
        runs.contains(x) <==> known_of(runs, x.started as int) == Some(x),
{
    let t = x.started as int;
    lemma_started_at(runs, t);
    if runs.contains(x) {
        let k = choose|k: int| 0 <= k < runs.len() && runs[k] == x;
        let i = started_at(runs, t);
        if i < k {
            assert(runs[i].started != runs[k].started);
        } else if k < i {
            assert(runs[k].started != t);
        }
    }
}

/// After merging, what is known is every derived run, and every run known before
/// that started at no moment of theirs; and nothing else.
pub proof fn law_what_is_known_after_merging(
    known: Seq<RunModel>,
    derived: Seq<RunModel>,
    x: RunModel,
)
    requires
        distinct_starts(known),
        distinct_starts(derived),
    ensures
        after_merging(known, derived).contains(x) <==> derived.contains(x) || known.contains(x)
            && forall|k: int|
            0 <= k < derived.len() ==> (#[trigger] derived[k]).started != x.started,
{
    let t = x.started as int;
    let all = after_merging(known, derived);
    law_merging_never_duplicates(known, derived);
    law_merging_replaces_by_start(known, derived, t);
    lemma_known_of(all, x);
    lemma_known_of(known, x);
    if exists|k: int| 0 <= k < derived.len() && (#[trigger] derived[k]).started == t {
        let k = choose|k: int| 0 <= k < derived.len() && (#[trigger] derived[k]).started == t;
        assert(known_of(all, t) == Some(derived[k]));
        if derived.contains(x) {
            let j = choose|j: int| 0 <= j < derived.len() && derived[j] == x;
            if j < k {
                assert(derived[j].started != derived[k].started);
            } else if k < j {
                assert(derived[k].started != derived[j].started);
            }
        }
    }
}

/// There is news when and only when some derived run is not known as it is.
pub proof fn law_news_is_what_is_not_known(known: Seq<RunModel>, derived: Seq<RunModel>)
    requires
        distinct_starts(known),
        distinct_starts(derived),
    ensures
        any_news(known, derived) <==> exists|k: int|
            0 <= k < derived.len() && !known.contains(#[trigger] derived[k]),
    decreases derived.len(),
{
    if derived.len() > 0 {
        let init = derived.drop_last();
        let run = derived.last();
        let last = derived.len() - 1;
        assert(distinct_starts(init)) by {
            assert forall|i: int, j: int| 0 <= i < j < init.len() implies (
            #[trigger] init[i]).started != (#[trigger] init[j]).started by {
                assert(derived[i].started != derived[j].started);
            }
        }
        law_news_is_what_is_not_known(known, init);
        assert forall|i: int| 0 <= i < init.len() implies (#[trigger] init[i]).started
            != run.started by {
            assert(derived[i].started != derived[last].started);
        }
        lemma_folded_others(known, init, run.started as int);
        lemma_known_of(known, run);
        assert(is_news(folded(known, init), run) <==> !known.contains(run)) by {
            lemma_started_at(folded(known, init), run.started as int);
        }
        if exists|k: int| 0 <= k < init.len() && !known.contains(#[trigger] init[k]) {
            let k = choose|k: int| 0 <= k < init.len() && !known.contains(#[trigger] init[k]);
            assert(!known.contains(derived[k]));
        }
        if exists|k: int| 0 <= k < derived.len() && !known.contains(#[trigger] derived[k]) {
            let k = choose|k: int| 0 <= k < derived.len() && !known.contains(#[trigger] derived[k]);
            if k < last {
                assert(init[k] == derived[k]);
            }
        }
        if !known.contains(run) {
            assert(!known.contains(derived[last]));
        }
    }
}

// ---------------------------------------------------------------------------
// Listing and keeping

/// How many finished runs of a kind there are.
pub open spec fn finished(runs: Seq<Run>, kind: Kind) -> nat
    decreases runs.len(),
{
    if runs.len() == 0 {
        0
    } else {
        finished(runs.drop_last(), kind) + if runs.last().kind == kind && !runs.last().in_progress {
            1nat
        } else {
            0
        }
    }
}

proof fn lemma_finished(runs: Seq<Run>, kind: Kind)
    ensures
        of_kind(runs, kind, false).len() == finished(runs, kind),
    decreases runs.len(),
{
    if runs.len() > 0 {
        lemma_finished(runs.drop_last(), kind);
    }
}

proof fn lemma_picked(runs: Seq<Run>, kind: Kind, k: int)
    requires
        0 <= k < runs.len(),
        runs[k].kind == kind,
        !runs[k].in_progress,
    ensures
        of_kind(runs, kind, false).contains(&runs[k]),
    decreases runs.len(),
{
    let rest = of_kind(runs.drop_last(), kind, false);
    let all = of_kind(runs, kind, false);
    if k == runs.len() - 1 {
        assert(all[rest.len() as int] == &runs[k]);
    } else {
        lemma_picked(runs.drop_last(), kind, k);
        let i = choose|i: int| 0 <= i < rest.len() && rest[i] == &runs[k];
        assert(all[i] == &runs[k]);
    }
}

/// The file keeps twenty finished runs of each kind, or all where there are fewer:
/// none is left out while there is room.
pub proof fn law_no_run_is_left_out_while_there_is_room(runs: Seq<Run>, kind: Kind, k: int)
    requires
        0 <= k < runs.len(),
        runs[k].kind == kind,
        !runs[k].in_progress,
    ensures
        saved_of(runs, kind).len() == if finished(runs, kind) < 20 {
            finished(runs, kind)
        } else {
            20
        },
        finished(runs, kind) <= 20 ==> saved(runs).contains(&runs[k]),
        saved(runs).len() == saved_of(runs, Kind::Discharge).len() + saved_of(
            runs,
            Kind::Charge,
        ).len(),
{
    lemma_finished(runs, kind);
    let of = of_kind(runs, kind, false);
    lemma_in_order_len(of);
    let d = saved_of(runs, Kind::Discharge);
    let c = saved_of(runs, Kind::Charge);
    lemma_in_order_len(d + c);
    if finished(runs, kind) <= 20 {
        lemma_picked(runs, kind, k);
        law_in_order_keeps_everything(of);
        law_in_order_keeps_everything(d + c);
        let own = saved_of(runs, kind);
        assert(own == in_order(of));
        assert(own.contains(&runs[k]));
        let i = choose|i: int| 0 <= i < own.len() && own[i] == &runs[k];
        match kind {
            Kind::Discharge => {
                assert((d + c)[i] == &runs[k]);
            },
            Kind::Charge => {
                assert((d + c)[d.len() + i] == &runs[k]);
            },
        }
        assert((d + c).contains(&runs[k]));
    }
}

/// The list has room for five.
pub proof fn law_the_list_has_room_for_five(runs: Seq<Run>, kind: Kind, k: int)
    requires
        0 <= k < runs.len(),
        runs[k].kind == kind,
    ensures
        listed(runs, kind).len() <= 5,
        listed(runs, kind).len() < 5 ==> listed(runs, kind).contains(&runs[k]),
{
    law_the_newest_are_listed(runs, kind);
}

// ---------------------------------------------------------------------------
// The file

/// The columns of a line each say their own: what kind of run it was, when it
/// started and ended, the charge from and to, and the power or a dash. A line that
/// lacks one of these is no run, and one that was stored is finished.
pub proof fn law_each_column_of_a_run_says_its_own(line: Seq<char>)
    ensures
        fields(line, '\t').len() < 6 ==> parsed(line) is None,
        fields(line, '\t').len() >= 6 ==> {
            let f = fields(line, '\t');
            let started = whole_number(trimmed(f[1]));
            let ended = whole_number(trimmed(f[2]));
            &&& parsed(line) is Some <==> (trimmed(f[0]) == "discharge"@ || trimmed(f[0])
                == "charge"@) && started is Some && started->0 <= 0x7FFF_FFFF_FFFF_FFFF
                && ended is Some && ended->0 <= 0x7FFF_FFFF_FFFF_FFFF && decimal(f[3]) is Some
                && decimal(f[4]) is Some && (f[5] == "-"@ || decimal(f[5]) is Some)
            &&& parsed(line) matches Some(run) ==> {
                &&& run.kind == Kind::Charge <==> trimmed(f[0]) == "charge"@
                &&& started == Some(run.started as int)
                &&& ended == Some(run.ended as int)
                &&& run.from_percent as int == decimal(f[3])->0
                &&& run.to_percent as int == decimal(f[4])->0
                &&& run.watts is None <==> f[5] == "-"@
                &&& run.watts matches Some(watts) ==> watts as int == decimal(f[5])->0
                &&& !run.in_progress
                &&& f.len() == 6 ==> run.series.len() == 0
                &&& f.len() > 6 ==> run.series == points_in(fields(trimmed(f[6]), ','))
            }
        },
{
    if fields(line, '\t').len() >= 6 {
        let f = fields(line, '\t');
        lemma_decimal_fits(f[3]);
        lemma_decimal_fits(f[4]);
        lemma_decimal_fits(f[5]);
        law_kind_keys_round_trip(Kind::Charge);
        law_kind_keys_round_trip(Kind::Discharge);
    }
}

/// A pair of a series is an offset and a charge, in that order, with a colon
/// between; what is no such pair is left out, and the rest keep their order.
pub proof fn law_a_series_is_its_pairs(a: Seq<Seq<char>>, at: Seq<char>, percent: Seq<char>)
    requires
        !at.contains(':'),
    ensures
        ({
            let pair = at + seq![':'] + percent;
            &&& decimal(at) is Some && decimal(percent) is Some ==> points_in(a.push(pair))
                == points_in(a).push(
                (decimal(at)->0 as i64, decimal(percent)->0 as i64),
            )
            &&& decimal(at) is None || decimal(percent) is None ==> points_in(a.push(pair))
                == points_in(a)
            &&& points_in(a.push(at)) == points_in(a)
            &&& points_in(Seq::<Seq<char>>::empty()).len() == 0
        }),
{
    let pair = at + seq![':'] + percent;
    law_text_is_cut_at_the_first(at, percent, ':');
    assert(a.push(pair).drop_last() == a);
    assert(a.push(at).drop_last() == a);
}

/// The lines of a file hold what each of them holds, in that order.
pub proof fn law_a_file_of_runs_is_its_lines(a: Seq<String>, line: String)
    ensures
        loaded(Seq::<String>::empty()).len() == 0,
        parsed(line@) matches Some(run) ==> loaded(a.push(line)) == loaded(a).push(run),
        parsed(line@) is None ==> loaded(a.push(line)) == loaded(a),
{
    assert(a.push(line).drop_last() == a);
}

/// The file holds a run to a tenth of a percent, a hundredth of a watt and a
/// second of its shape, or just beside; its moments and its kind as they are.
pub proof fn law_what_is_stored_of_a_run_is_near(run: RunModel, k: int)
    requires
        -9_000_000_000_000_000_000 <= run.from_percent <= 9_000_000_000_000_000_000,
        -9_000_000_000_000_000_000 <= run.to_percent <= 9_000_000_000_000_000_000,
        run.watts matches Some(watts) ==> -9_000_000_000_000_000_000 <= watts
            <= 9_000_000_000_000_000_000,
        0 <= k < run.series.len(),
        -9_000_000_000_000_000_000 <= run.series[k].0 <= 9_000_000_000_000_000_000,
        -9_000_000_000_000_000_000 <= run.series[k].1 <= 9_000_000_000_000_000_000,
    ensures
        as_stored(run).kind == run.kind,
        as_stored(run).started == run.started,
        as_stored(run).ended == run.ended,
        !as_stored(run).in_progress,
        -61_000 <= as_stored(run).from_percent - run.from_percent <= 61_000,
        -61_000 <= as_stored(run).to_percent - run.to_percent <= 61_000,
        as_stored(run).watts is Some <==> run.watts is Some,
        run.watts matches Some(watts) ==> -6_100 <= as_stored(run).watts->0 - watts <= 6_100,
        as_stored(run).series.len() == run.series.len(),
        -610_000 <= as_stored(run).series[k].0 - run.series[k].0 <= 610_000,
        -61_000 <= as_stored(run).series[k].1 - run.series[k].1 <= 61_000,
{
    lemma_small_powers();
    law_what_is_written_is_near(run.from_percent as int, 1);
    law_what_is_written_is_near(run.to_percent as int, 1);
    if let Some(watts) = run.watts {
        law_what_is_written_is_near(watts as int, 2);
    }
    law_what_is_written_is_near(run.series[k].0 as int, 0);
    law_what_is_written_is_near(run.series[k].1 as int, 1);
}

} // verus!

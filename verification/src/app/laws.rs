//! What holds of the application, whatever happens to it.

use vstd::prelude::*;

use super::labels::series_gap;
use super::{
    interval, is_due, Action, AppModel, AppMsg, Presence, HIDDEN_POLL_SECS, RECORD_GAP, RECORD_SECS,
};
use crate::battery::history::{law_pruning_keeps_the_horizon, pruned, pushed, Follows, Sample};
use crate::battery::types::Battery;
use crate::graph::{gap_before, marks_of, Trend};
use crate::micro::UNIT;
use crate::notify::law_a_repeated_reading_is_silent;
use crate::order::ordered;
use crate::recordings::laws::{law_a_gap_survives_the_thinning, lemma_even_points_stay_spread};
use crate::recordings::{thinned, Point, SERIES_POINTS};
use crate::store::MAX_AGE_SECS;

verus! {

/// A gap is longer than the cadence it is measured against, for polls and for
/// recorded samples alike: neighbours never look like a gap.
pub proof fn law_a_gap_is_longer_than_the_cadence(model: AppModel)
    requires
        model.settings.wf(),
    ensures
        model.poll_gap() > interval(model.hidden, model.settings),
        RECORD_GAP > RECORD_SECS * UNIT,
        HIDDEN_POLL_SECS == RECORD_SECS,
{
}

/// Readings at the cadence of recording draw as one line, however many there are
/// and however much the series was thinned.
pub proof fn law_even_readings_draw_as_one_line(points: Seq<Point>, d: int, trend: Trend)
    requires
        0 < d <= RECORD_GAP,
        forall|i: int| 0 <= i < points.len() ==> (#[trigger] points[i]).0 == points[0].0 + i * d,
    ensures
        forall|k: int|
            0 <= k < thinned(points).len() ==> !#[trigger] gap_before(
                marks_of(thinned(points), trend),
                k,
                series_gap(thinned(points)),
            ),
{
    let kept = thinned(points);
    let m = kept.len() - 1;
    if points.len() > SERIES_POINTS {
        lemma_even_points_stay_spread(points, d);
    }
    assert forall|k: int| 0 <= k < kept.len() implies !#[trigger] gap_before(
        marks_of(kept, trend),
        k,
        series_gap(kept),
    ) by {
        if k > 0 {
            let x = kept[k].0 - kept[k - 1].0;
            let t = kept.last().0 - kept[0].0;
            if points.len() > SERIES_POINTS {
                assert(x * m <= 3 * t);
                assert(x <= 3 * t / m) by (nonlinear_arith)
                    requires
                        x * m <= 3 * t,
                        m > 0,
                ;
                assert(3 * t / m <= i64::MAX) by (nonlinear_arith)
                    requires
                        t <= u64::MAX,
                        m >= 32,
                ;
                assert(x <= series_gap(kept));
            } else {
                assert(k * d == (k - 1) * d + d) by (nonlinear_arith);
                assert(x == d);
            }
        }
    }
}

/// A pause among the readings of a run shows in its graph: where two readings lie
/// further apart than the graph allows for, the line breaks over them.
pub proof fn law_a_pause_breaks_the_line(points: Seq<Point>, i: int, trend: Trend)
    requires
        0 < i < points.len(),
        forall|j: int, k: int|
            0 <= j <= k < points.len() ==> (#[trigger] points[j]).0 <= (#[trigger] points[k]).0,
        points[i].0 - points[i - 1].0 > series_gap(thinned(points)),
    ensures
        exists|k: int|
            0 < k < thinned(points).len() && #[trigger] gap_before(
                marks_of(thinned(points), trend),
                k,
                series_gap(thinned(points)),
            ),
{
    law_a_gap_survives_the_thinning(points, i);
    let kept = thinned(points);
    let k = choose|k: int|
        0 < k < kept.len() && (#[trigger] kept[k]).0 - kept[k - 1].0 >= points[i].0 - points[i
            - 1].0;
    assert(gap_before(marks_of(kept, trend), k, series_gap(kept)));
}

/// Alerts are advanced even while they are switched off, so that switching them
/// on does not fire for a threshold crossed before.
pub proof fn law_switching_alerts_on_is_silent(
    before: AppModel,
    reading: Battery,
    then: i64,
    off: AppModel,
    first: Seq<Action>,
    on: AppModel,
    now: i64,
    after: AppModel,
    second: Seq<Action>,
)
    requires
        before.sampled(Some(reading), then, off, first),
        on.alerts == off.alerts,
        on.sampled(Some(reading), now, after, second),
    ensures
        forall|i: int| 0 <= i < second.len() ==> !(#[trigger] second[i] is Notify),
{
    law_a_repeated_reading_is_silent(before.alerts, reading.percent as int, reading.status);
    assert(on.alerted(reading) == Seq::<Action>::empty());
}

/// The first reading of a session is recorded, and says that it follows the
/// launch; the next one follows a poll.
pub proof fn law_the_first_reading_follows_the_launch(
    before: AppModel,
    reading: Battery,
    now: i64,
    after: AppModel,
    actions: Seq<Action>,
)
    requires
        before.history@.len() == 0,
        before.next_follows == Follows::Launch,
        before.sampled(Some(reading), now, after, actions),
    ensures
        actions.len() > 0,
        actions.last() == Action::Append(before.sample_of(reading, now)),
        before.sample_of(reading, now).follows == Follows::Launch,
        after.next_follows == Follows::Poll,
{
    let sample = before.sample_of(reading, now);
    assert(is_due(before.history@, sample));
}

/// A reading is written to the file when and only when it goes into the history.
pub proof fn law_what_is_recorded_is_written(
    before: AppModel,
    reading: Battery,
    now: i64,
    after: AppModel,
    actions: Seq<Action>,
)
    requires
        before.sampled(Some(reading), now, after, actions),
    ensures
        is_due(before.history@, before.sample_of(reading, now)) <==> exists|i: int|
            0 <= i < actions.len() && actions[i] == Action::Append(
                before.sample_of(reading, now),
            ),
{
    let sample = before.sample_of(reading, now);
    if is_due(before.history@, sample) {
        assert(actions[actions.len() - 1] == Action::Append(sample));
    }
}

/// Neither ring outgrows its room.
pub proof fn law_the_rings_stay_bounded(
    before: AppModel,
    reading: Option<Battery>,
    now: i64,
    after: AppModel,
    actions: Seq<Action>,
)
    requires
        0 < before.history.room(),
        before.history@.len() <= before.history.room(),
        0 < before.power_window.room(),
        before.power_window@.len() <= before.power_window.room(),
        before.sampled(reading, now, after, actions),
    ensures
        after.history@.len() <= after.history.room(),
        after.history.room() == before.history.room(),
        after.power_window@.len() <= after.power_window.room(),
        after.power_window.room() == before.power_window.room(),
{
    if let Some(battery) = reading {
        let sample = before.sample_of(battery, now);
        let grown = pushed(before.history@, before.history.room(), sample);
        lemma_pruned_len(grown, now - MAX_AGE_SECS);
    }
}

proof fn lemma_pruned_len(s: Seq<Sample>, cutoff: int)
    ensures
        pruned(s, cutoff).len() <= s.len(),
    decreases s.len(),
{
    if s.len() > 0 {
        lemma_pruned_len(s.drop_first(), cutoff);
    }
}

/// While readings come in order of time the history stays in order, and a
/// recorded reading leaves nothing in it that is older than `MAX_AGE_SECS`.
pub proof fn law_the_history_holds_one_day(
    before: AppModel,
    reading: Battery,
    now: i64,
    after: AppModel,
    actions: Seq<Action>,
)
    requires
        ordered(before.history@),
        before.history@.len() > 0 ==> before.history@.last().at <= now,
        before.sampled(Some(reading), now, after, actions),
    ensures
        ordered(after.history@),
        is_due(before.history@, before.sample_of(reading, now)) ==> forall|i: int|
            0 <= i < after.history@.len() ==> (#[trigger] after.history@[i]).at >= now
                - MAX_AGE_SECS,
{
    let sample = before.sample_of(reading, now);
    let s = before.history@;
    let t = pushed(s, before.history.room(), sample);
    assert(ordered(t)) by {
        let skip: int = if s.len() == before.history.room() && s.len() > 0 {
            1
        } else {
            0
        };
        assert forall|i: int, j: int| 0 <= i < j < t.len() implies (#[trigger] t[i]).at <= (
        #[trigger] t[j]).at by {
            assert(t[i] == s[i + skip]);
            if j + skip < s.len() {
                assert(t[j] == s[j + skip]);
                assert(s[i + skip].at <= s[j + skip].at);
            } else if i + skip < s.len() - 1 {
                assert(s[i + skip].at <= s[s.len() - 1].at);
            }
        }
    }
    law_pruning_keeps_the_horizon(t, now - MAX_AGE_SECS);
}

/// A message that sets a preference, or tells of the window, changes nothing the
/// second time.
pub proof fn law_saying_it_again_changes_nothing(
    before: AppModel,
    msg: AppMsg,
    presence: Presence,
    once: AppModel,
    first: Seq<Action>,
    twice: AppModel,
    second: Seq<Action>,
)
    requires
        match msg {
            AppMsg::SetBackground(_)
            | AppMsg::SetPollSecs(_)
            | AppMsg::SetClock(_)
            | AppMsg::SetAlerts(_)
            | AppMsg::SetTheme(_)
            | AppMsg::PresenceChanged => true,
            _ => false,
        },
        before.reduced(msg, presence, once, first),
        once.reduced(msg, presence, twice, second),
    ensures
        twice == once,
        second.len() == 0,
{
}

/// Whatever was asked for, the poll interval stays within its bounds.
pub proof fn law_the_poll_interval_stays_within_bounds(
    before: AppModel,
    msg: AppMsg,
    presence: Presence,
    after: AppModel,
    actions: Seq<Action>,
)
    requires
        before.settings.wf(),
        before.reduced(msg, presence, after, actions),
    ensures
        after.settings.wf(),
{
}

} // verus!

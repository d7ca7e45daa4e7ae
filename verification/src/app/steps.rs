//! What each message and each reading comes to.

use vstd::prelude::*;

use super::labels::{run_subtitle, run_title, series_gap};
use super::{interval, is_due, Action, AppModel, AppMsg, Presence};
use crate::battery::history::{
    law_absorbing_keeps_the_order, law_pruning_keeps_the_horizon, newest_of, older_than, pruned,
    pushed, Follows, Sample,
};
use crate::battery::laws::law_an_earlier_session_goes_underneath;
use crate::battery::types::{
    law_an_estimate_needs_something_to_move, law_the_time_left_empties_the_battery,
    law_the_time_left_fills_the_battery, Battery, Status,
};
use crate::decimal::laws::{law_what_is_rounded_is_near, law_what_is_written_is_near};
use crate::decimal::{decimal, fixed, integer, rounded};
use crate::format::{duration_text, is_near};
use crate::micro::{law_nearest_lies_within_a_half, Micro};
use crate::notify::Alert;
use crate::order::ordered;
use crate::recordings::books::law_the_pace_is_percent_an_hour;
use crate::recordings::{after_merging, any_news, models, recorded, Point, Run, RunModel};
use crate::settings::{Clock, Settings, Theme};

verus! {

/// A model starts with what was chosen and stored and with nothing read: room for
/// a day of readings, no alert standing, and a first reading that will say that it
/// follows the launch. A window that is not on screen is hidden from the start.
pub proof fn law_a_session_starts_empty(
    model: AppModel,
    settings: Settings,
    visible: bool,
    recordings: Seq<Run>,
    battery: Battery,
    now: i64,
)
    requires
        model.is_new(settings, visible, recordings),
    ensures
        model.battery is None,
        model.history@.len() == 0,
        model.power_window@.len() == 0,
        model.history.room() == 4096,
        model.history.room() * 30 >= 86_400,
        model.power_window.room() == 128,
        model.settings == settings,
        model.recordings@ == recordings,
        !model.polling,
        model.hidden <==> !visible,
        model.alerts.raised is None,
        !model.alerts.seeded,
        model.sample_of(battery, now).follows == Follows::Launch,
        model.last_words(now) is None,
{
}

// ---------------------------------------------------------------------------
// Messages

/// All but the clocks and what comes next is as it was.
pub open spec fn same_but_clocks(before: AppModel, after: AppModel) -> bool {
    &&& after.battery == before.battery
    &&& after.history == before.history
    &&& after.power_window == before.power_window
    &&& after.polling == before.polling
    &&& after.hidden == before.hidden
    &&& after.settings == before.settings
    &&& after.alerts == before.alerts
    &&& after.recordings == before.recordings
    &&& after.last_status == before.last_status
}

/// A tick reads the battery, and where the wall clock got more than ten seconds
/// ahead of the monotonic one since the last, what is read follows a sleep.
pub proof fn law_a_tick_reads_and_notices_a_sleep(
    before: AppModel,
    presence: Presence,
    after: AppModel,
    actions: Seq<Action>,
)
    requires
        before.reduced(AppMsg::Tick, presence, after, actions),
    ensures
        same_but_clocks(before, after),
        actions == seq![Action::Read],
        after.clocks.last is Some,
        before.clocks.last is None ==> after.next_follows == before.next_follows,
        before.clocks.last matches Some(then) ==> {
            let now = after.clocks.last->0;
            then.wall <= now.wall && then.mono <= now.mono ==> after.next_follows == if now.wall
                - then.wall - (now.mono - then.mono) > 10_000_000_000 {
                Follows::Sleep
            } else {
                before.next_follows
            }
        },
{
}

/// The window coming on screen or leaving it changes the pace of polling: once
/// every thirty seconds while nothing of it shows, at the chosen interval while
/// something does; coming back it reads at once and takes its notice down.
pub proof fn law_the_window_sets_the_pace(
    before: AppModel,
    presence: Presence,
    after: AppModel,
    actions: Seq<Action>,
)
    requires
        before.reduced(AppMsg::PresenceChanged, presence, after, actions),
    ensures
        after.hidden == (!presence.visible || presence.suspended),
        after.hidden == before.hidden ==> after == before && actions.len() == 0,
        after.hidden != before.hidden ==> {
            &&& after.polling
            &&& after.settings == before.settings
            &&& after.history == before.history
            &&& after.battery == before.battery
            &&& after.clocks == before.clocks
            &&& after.next_follows == before.next_follows
            &&& actions.len() > 0
            &&& actions.last() == Action::StartPoll(
                if after.hidden {
                    30
                } else {
                    before.settings.poll_secs
                },
            )
            &&& before.polling <==> actions.len() > 1 && actions[actions.len() - 2]
                == Action::StopPoll
            &&& after.hidden ==> actions.len() == 1 || actions.len() == 2 && before.polling
            &&& !after.hidden ==> actions[0] == Action::DismissBackground && actions[1]
                == Action::Read
        },
{
}

/// The moment before a sleep and the moment after it are both read; after it, what
/// is read follows the sleep, and the clocks start over.
pub proof fn law_both_ends_of_a_sleep_are_read(
    before: AppModel,
    presence: Presence,
    going: bool,
    after: AppModel,
    actions: Seq<Action>,
)
    requires
        before.reduced(AppMsg::SleepSignal(going), presence, after, actions),
    ensures
        actions == seq![Action::Read],
        same_but_clocks(before, after),
        going ==> after == before,
        !going ==> after.next_follows == Follows::Sleep && after.clocks.last is None
            && after.clocks.origin == before.clocks.origin,
{
}

/// Closing the window hides it where the app is to go on in the background, and
/// leaves otherwise.
pub proof fn law_closing_hides_or_leaves(
    before: AppModel,
    presence: Presence,
    after: AppModel,
    actions: Seq<Action>,
)
    requires
        before.reduced(AppMsg::CloseRequested, presence, after, actions),
    ensures
        after == before,
        before.settings.background ==> actions == seq![Action::HideWindow, Action::ShowBackground],
        !before.settings.background ==> actions == seq![Action::AskToQuit],
{
}

/// Leaving writes the last reading first, unless this second was written already
/// or there is no battery, and then ends.
pub proof fn law_leaving_writes_the_last_reading(
    before: AppModel,
    now: i64,
    actions: Seq<Action>,
)
    requires
        before.leaves(now, actions),
    ensures
        actions.len() > 0,
        actions.last() == Action::Exit,
        before.battery is None ==> actions.len() == 1,
        before.history@.len() > 0 && before.history@.last().at >= now ==> actions.len() == 1,
        before.battery is Some && (before.history@.len() == 0 || before.history@.last().at < now)
            ==> actions.len() == 2 && actions[0] == Action::AppendNow(
            Sample {
                at: now,
                percent: before.battery->0.percent,
                power: before.battery->0.power,
                status: before.battery->0.status,
                follows: Follows::Poll,
            },
        ),
{
}

/// A preference is set to what was chosen, and to nothing else; a choice that
/// changes something is stored, one that changes nothing does nothing.
pub proof fn law_a_choice_is_kept(
    before: AppModel,
    presence: Presence,
    after: AppModel,
    actions: Seq<Action>,
    theme: Theme,
    clock: Clock,
    on: bool,
)
    ensures
        before.reduced(AppMsg::SetTheme(theme), presence, after, actions) ==> {
            &&& after.settings == Settings { theme, ..before.settings }
            &&& before.settings.theme == theme ==> actions.len() == 0
            &&& before.settings.theme != theme ==> actions == seq![
                Action::ApplyTheme(theme),
                Action::SaveSettings(after.settings),
            ]
        },
        before.reduced(AppMsg::SetClock(clock), presence, after, actions) ==> {
            &&& after.settings == Settings { clock, ..before.settings }
            &&& before.settings.clock == clock ==> actions.len() == 0
            &&& before.settings.clock != clock ==> actions == seq![
                Action::SaveSettings(after.settings),
            ]
        },
        before.reduced(AppMsg::SetAlerts(on), presence, after, actions) ==> {
            &&& after.settings == Settings { alerts: on, ..before.settings }
            &&& before.settings.alerts == on ==> actions.len() == 0
            &&& before.settings.alerts != on ==> actions == seq![
                Action::SaveSettings(after.settings),
            ]
        },
        before.reduced(AppMsg::SetBackground(on), presence, after, actions) ==> {
            &&& after.settings == Settings { background: on, ..before.settings }
            &&& before.settings.background == on ==> actions.len() == 0
            &&& before.settings.background != on ==> actions == seq![
                Action::SaveSettings(after.settings),
            ]
        },
{
}

/// The poll interval is set to what was chosen, held between one second and thirty;
/// where that changes it, polling starts over at once at the interval in force, the
/// clocks start over, and the choice is stored.
pub proof fn law_the_chosen_interval_takes_effect(
    before: AppModel,
    presence: Presence,
    secs: u32,
    after: AppModel,
    actions: Seq<Action>,
)
    requires
        before.reduced(AppMsg::SetPollSecs(secs), presence, after, actions),
    ensures
        1 <= secs <= 30 ==> after.settings == (Settings { poll_secs: secs, ..before.settings }),
        secs > 30 ==> after.settings == (Settings { poll_secs: 30, ..before.settings }),
        secs < 1 ==> after.settings == (Settings { poll_secs: 1, ..before.settings }),
        after.settings.poll_secs == before.settings.poll_secs ==> after == before && actions.len()
            == 0,
        after.settings.poll_secs != before.settings.poll_secs ==> {
            &&& after.polling
            &&& after.clocks.last is None
            &&& actions.len() == if before.polling {
                3nat
            } else {
                2
            }
            &&& before.polling ==> actions[0] == Action::StopPoll
            &&& actions[actions.len() - 2] == Action::StartPoll(
                if before.hidden {
                    30
                } else {
                    after.settings.poll_secs
                },
            )
            &&& actions.last() == Action::SaveSettings(after.settings)
        },
{
}

// ---------------------------------------------------------------------------
// Readings

/// A reading goes into the history and the file when it is the first, when the
/// battery does something else than at the last recorded one, or when half a
/// minute went by since that; and it goes in as it was read, as what follows what
/// came before it.
pub proof fn law_what_is_recorded_of_a_reading(
    before: AppModel,
    reading: Battery,
    now: i64,
    after: AppModel,
    actions: Seq<Action>,
)
    requires
        before.sampled(Some(reading), now, after, actions),
        before.history@.len() > 0 ==> before.history@.last().at <= now,
    ensures
        ({
            let s = before.history@;
            let sample = Sample {
                at: now,
                percent: reading.percent,
                power: reading.power,
                status: reading.status,
                follows: before.next_follows,
            };
            let due = s.len() == 0 || s.last().status != reading.status || now - s.last().at >= 30;
            &&& after.battery == Some(reading)
            &&& after.next_follows == Follows::Poll
            &&& after.last_status == Some(reading.status)
            &&& due ==> actions.len() > 0 && actions.last() == Action::Append(sample)
            &&& !due ==> after.history@ == s && forall|k: int|
                0 <= k < actions.len() ==> !(#[trigger] actions[k] is Append)
            &&& due && s.len() < before.history.room() && before.history.room() > 0 && (forall|
                k: int,
            |
                0 <= k < s.len() ==> (#[trigger] s[k]).at >= now - 86_400) ==> after.history@
                == s.push(sample)
            &&& before.power_window@.len() < before.power_window.room() ==> after.power_window@
                == before.power_window@.push(sample)
        }),
{
    let s = before.history@;
    let sample = before.sample_of(reading, now);
    let due = is_due(s, sample);
    if due && s.len() < before.history.room() && forall|k: int|
        0 <= k < s.len() ==> (#[trigger] s[k]).at >= now - 86_400 {
        let t = s.push(sample);
        assert(pushed(s, before.history.room(), sample) == t);
        assert(t[0].at >= now - 86_400) by {
            if s.len() > 0 {
                assert(t[0] == s[0]);
            }
        }
        assert(pruned(t, now - 86_400) == t);
    }
    if !due {
        assert forall|k: int| 0 <= k < actions.len() implies !(#[trigger] actions[k] is Append) by {
        }
    }
}

/// A reading without a battery forgets the battery and asks for nothing.
pub proof fn law_no_battery_is_nothing_to_do(
    before: AppModel,
    now: i64,
    after: AppModel,
    actions: Seq<Action>,
)
    requires
        before.sampled(None, now, after, actions),
    ensures
        after.battery is None,
        after == (AppModel { battery: None, ..before }),
        actions.len() == 0,
{
}

/// A reading alerts where it is worth an alert and alerts are switched on, with
/// that alert and the charge it told; and alerts are followed either way.
pub proof fn law_alerts_are_raised_where_switched_on(
    before: AppModel,
    reading: Battery,
    now: i64,
    after: AppModel,
    actions: Seq<Action>,
    alert: Alert,
    percent: i64,
)
    requires
        before.sampled(Some(reading), now, after, actions),
    ensures
        after.alerts == before.alerts.after(reading.percent as int, reading.status),
        (exists|k: int|
            0 <= k < actions.len() && #[trigger] actions[k] == Action::Notify(alert, percent))
            <==> before.settings.alerts && percent == reading.percent && before.alerts.worth(
            reading.percent as int,
            reading.status,
        ) == Some(alert),
{
    if before.settings.alerts && before.alerts.worth(reading.percent as int, reading.status)
        == Some(alert) {
        assert(before.alerted(reading) == seq![Action::Notify(alert, reading.percent)]);
        assert(actions[0] == Action::Notify(alert, reading.percent));
    }
}

/// Runs are looked for where the battery starts to do something else, and stored
/// where that brings news.
pub proof fn law_runs_are_looked_for_at_a_turn(
    before: AppModel,
    reading: Battery,
    now: i64,
    after: AppModel,
    actions: Seq<Action>,
)
    requires
        before.sampled(Some(reading), now, after, actions),
    ensures
        ({
            let turned = before.last_status is None || before.last_status->0 != reading.status;
            let known = models(before.recordings@);
            let derived = recorded(before.history@);
            &&& !turned ==> models(after.recordings@) == known
            &&& turned ==> models(after.recordings@) == after_merging(known, derived)
            &&& (exists|k: int|
                0 <= k < actions.len() && #[trigger] actions[k] == Action::SaveRecordings)
                <==> turned && any_news(known, derived)
        }),
{
    let turned = before.last_status != Some(reading.status);
    let news = any_news(models(before.recordings@), recorded(before.history@));
    if turned && news {
        let n = before.alerted(reading).len() as int;
        assert(actions[n] == Action::SaveRecordings);
    }
}

// ---------------------------------------------------------------------------
// What the window tells

/// The rate that estimates run on is the average of the last two minutes, as far
/// back as polls came no further apart than seven intervals, or the live reading
/// where there is no such average.
pub proof fn law_the_rate_is_smoothed(model: AppModel)
    ensures
        ({
            let every: int = if model.hidden {
                30
            } else {
                model.settings.poll_secs as int
            };
            let average = model.power_window.trailing_power(120, 7 * every);
            &&& average is Some ==> model.rate() == average
            &&& average is None && model.battery is Some ==> match model.battery->0.power {
                Some(power) => model.rate() == Some(power as int),
                None => model.rate() is None,
            }
            &&& average is None && model.battery is None ==> model.rate() is None
        }),
{
    assert(model.poll_gap() == 7 * interval(model.hidden, model.settings));
}

/// `secs` is how many whole seconds `power` takes to move `energy`, to within one.
pub open spec fn moves_in(energy: int, power: int, secs: int) -> bool {
    -2_000_000_001 * power <= 2 * (secs * 1_000_000_000 * power - energy * 3_600_000_000_000)
        <= power
}

/// The headline tells how long what is left lasts, or how long until what is
/// missing is there, at that rate; and of a battery that does neither, what it
/// does.
pub proof fn law_the_headline_tells_the_time(model: AppModel)
    requires
        model.battery is Some,
    ensures
        ({
            let b = model.battery->0;
            &&& b.status == Status::Discharging && b.energy_now is Some && b.energy_now->0 > 0
                && model.rate() is Some && model.rate()->0 > 100_000 ==> exists|secs: int|
                moves_in(b.energy_now->0 as int, model.rate()->0, secs) && model.status_text()
                    == "Discharging · "@ + #[trigger] duration_text(secs) + " left"@
            &&& b.status == Status::Charging && b.energy_now is Some && b.energy_full is Some
                && b.energy_full->0 > b.energy_now->0 && model.rate() is Some && model.rate()->0
                > 100_000 ==> exists|secs: int|
                moves_in(b.energy_full->0 - b.energy_now->0, model.rate()->0, secs)
                    && model.status_text() == "Charging · "@ + #[trigger] duration_text(secs)
                    + " until full"@
            &&& b.status == Status::Full ==> model.status_text() == "Fully charged"@
            &&& b.status == Status::NotCharging ==> model.status_text() == "Not charging"@
            &&& b.status == Status::Unknown ==> model.status_text() == "Unknown"@
            &&& model.rate() is None && b.status == Status::Charging ==> model.status_text()
                == "Charging"@
            &&& model.rate() is None && b.status == Status::Discharging ==> model.status_text()
                == "Discharging"@
        }),
{
    let b = model.battery->0;
    if model.rate() is Some {
        let power = model.rate()->0;
        if b.nanos_at(power) is Some {
            law_an_estimate_needs_something_to_move(b, power);
            let nanos = b.nanos_at(power)->0;
            let secs = nanos / 1_000_000_000;
            assert(model.seconds_left() == Some(secs));
            let energy: int = if b.status == Status::Discharging {
                law_the_time_left_empties_the_battery(b, power);
                b.energy_now->0 as int
            } else {
                law_the_time_left_fills_the_battery(b, power);
                b.energy_full->0 - b.energy_now->0
            };
            assert(moves_in(energy, power, secs)) by (nonlinear_arith)
                requires
                    -power <= 2 * (nanos * power - energy * 3_600_000_000_000) <= power,
                    secs == nanos / 1_000_000_000,
                    power > 0,
            ;
            let told = duration_text(secs);
        } else if b.status == Status::Discharging && b.energy_now is Some && b.energy_now->0 > 0
            && power > 100_000 {
            law_the_time_left_empties_the_battery(b, power);
        } else if b.status == Status::Charging && b.energy_now is Some && b.energy_full is Some
            && b.energy_full->0 > b.energy_now->0 && power > 100_000 {
            law_the_time_left_fills_the_battery(b, power);
        }
    }
}

/// The caption tells how much time the graph spans, from a minute on.
pub proof fn law_the_caption_tells_the_span(model: AppModel)
    ensures
        ({
            let s = model.history@;
            &&& s.len() < 2 ==> model.caption_text() == "Collecting samples…"@
            &&& s.len() >= 2 && s.last().at - s[0].at < 60 ==> model.caption_text()
                == "Collecting samples…"@
            &&& s.len() >= 2 && s.last().at - s[0].at >= 60 ==> model.caption_text() == "Last "@
                + duration_text(s.last().at - s[0].at)
        }),
{
}

/// `text` tells `v` to so many decimals.
pub open spec fn tells_near(text: Seq<char>, v: int, decimals: nat) -> bool {
    decimal(text) matches Some(w) && is_near(v, w, decimals)
}

/// A whole number of units that lies within half of one of `v`, or just beside.
pub open spec fn whole_near(n: int, v: int) -> bool {
    -51_000_000 <= 100 * (n * 1_000_000 - v) <= 51_000_000
}

/// A battery's numbers are within what can be told.
pub open spec fn tellable(v: Option<Micro>) -> bool {
    v matches Some(v) ==> -9_000_000_000_000_000_000 <= v <= 9_000_000_000_000_000_000
}

/// What is in the battery is told against what fits it, and what fits it against
/// what did when it was new, each to a tenth.
pub proof fn law_the_energies_are_told(model: AppModel)
    requires
        model.battery is Some,
        tellable(model.battery->0.energy_now),
        tellable(model.battery->0.energy_full),
        tellable(model.battery->0.energy_design),
    ensures
        ({
            let b = model.battery->0;
            &&& b.energy_now is Some && b.energy_full is Some ==> exists|
                x: Seq<char>,
                y: Seq<char>,
            |
                #[trigger] tells_near(x, b.energy_now->0 as int, 1) && #[trigger] tells_near(
                    y,
                    b.energy_full->0 as int,
                    1,
                ) && model.charge_text() == x + " of "@ + y + " Wh"@
            &&& b.energy_now is None || b.energy_full is None ==> model.charge_text() == "—"@
            &&& b.energy_full is Some && b.energy_design is Some ==> exists|
                x: Seq<char>,
                y: Seq<char>,
            |
                #[trigger] tells_near(x, b.energy_full->0 as int, 1) && #[trigger] tells_near(
                    y,
                    b.energy_design->0 as int,
                    1,
                ) && model.health_subtitle_text() == x + " Wh of "@ + y + " Wh when new"@
        }),
{
    let b = model.battery->0;
    if b.energy_full is Some {
        let full = b.energy_full->0 as int;
        law_what_is_written_is_near(full, 1);
        assert(tells_near(fixed(full, 1), full, 1));
        if b.energy_now is Some {
            let now = b.energy_now->0 as int;
            law_what_is_written_is_near(now, 1);
            assert(tells_near(fixed(now, 1), now, 1));
        }
        if b.energy_design is Some {
            let design = b.energy_design->0 as int;
            law_what_is_written_is_near(design, 1);
            assert(tells_near(fixed(design, 1), design, 1));
        }
    }
}

/// The average is told to a tenth of a watt where it lies a tenth of a watt or more
/// from the live reading, and not otherwise.
pub proof fn law_the_average_is_told_where_it_differs(model: AppModel)
    requires
        model.average_power() matches Some(average) ==> -9_000_000_000_000_000_000 <= average
            <= 9_000_000_000_000_000_000,
    ensures
        ({
            let average = model.average_power();
            let live = model.live_power();
            let apart = average is Some && live is Some && (average->0 - live->0 >= 100_000
                || live->0 - average->0 >= 100_000);
            &&& !apart ==> model.power_subtitle_text().len() == 0
            &&& apart ==> exists|x: Seq<char>|
                #[trigger] tells_near(x, average->0, 1) && model.power_subtitle_text() == x
                    + " W average"@
        }),
{
    if let Some(average) = model.average_power() {
        law_what_is_written_is_near(average, 1);
        assert(tells_near(fixed(average, 1), average, 1));
    }
}

/// Health is told to the nearest whole percent.
pub proof fn law_health_is_told_to_the_percent(model: AppModel)
    ensures
        ({
            let wear = match model.battery {
                Some(b) => b.wear(),
                None => None,
            };
            &&& wear is None ==> model.health_text() == "—"@
            &&& wear matches Some(v) ==> -9_000_000_000_000_000_000 <= v
                <= 9_000_000_000_000_000_000 ==> exists|n: int|
                whole_near(n, v) && model.health_text() == #[trigger] integer(n) + "%"@
        }),
{
    if let Some(b) = model.battery {
        if let Some(v) = b.wear() {
            if -9_000_000_000_000_000_000 <= v <= 9_000_000_000_000_000_000 {
                law_what_is_rounded_is_near(v);
                let n = rounded(v);
                assert(whole_near(n, v) && model.health_text() == integer(n) + "%"@);
            }
        }
    }
}

/// A run's row tells from which charge to which it went.
pub proof fn law_a_row_tells_from_where_to_where(run: RunModel)
    requires
        0 <= run.from_percent <= 100_000_000,
        0 <= run.to_percent <= 100_000_000,
    ensures
        exists|a: int, b: int|
            whole_near(a, run.from_percent as int) && whole_near(b, run.to_percent as int)
                && run_title(run) == #[trigger] integer(a) + "% → "@ + #[trigger] integer(b)
                + "%"@,
{
    law_what_is_rounded_is_near(run.from_percent as int);
    law_what_is_rounded_is_near(run.to_percent as int);
    let a = rounded(run.from_percent as int);
    let b = rounded(run.to_percent as int);
    assert(run_title(run) == integer(a) + "% → "@ + integer(b) + "%"@);
}

/// And when it started, how long it took, its pace in percent an hour where it is
/// more than a twentieth, and its power where that is known.
pub proof fn law_a_row_tells_how_fast(run: RunModel, time: Seq<char>)
    requires
        0 <= run.from_percent <= 100_000_000,
        0 <= run.to_percent <= 100_000_000,
        tellable(run.watts),
        run.ended > run.started,
    ensures
        exists|pace: Seq<char>, power: Seq<char>|
            {
                &&& run_subtitle(run, time) == time + " · "@ + duration_text(
                    run.ended - run.started,
                ) + #[trigger] told_pace(run, pace) + #[trigger] told_power(run, power)
                &&& run.pace()->0 > 50_000 ==> tells_near(pace, run.pace()->0, 1)
                &&& run.watts matches Some(watts) ==> tells_near(power, watts as int, 1)
            },
{
    law_the_pace_is_percent_an_hour(run);
    let rate = run.pace()->0;
    let secs = run.ended - run.started;
    let moved = run.change();
    assert(0 <= rate <= 400_000_000_000) by (nonlinear_arith)
        requires
            -secs <= 2 * (secs * rate - moved * 3600) <= secs,
            0 <= moved <= 100_000_000,
            secs > 0,
            rate >= 0,
    ;
    law_what_is_written_is_near(rate, 1);
    let pace = fixed(rate, 1);
    let power = match run.watts {
        Some(watts) => {
            law_what_is_written_is_near(watts as int, 1);
            fixed(watts as int, 1)
        },
        None => seq![],
    };
    assert(run_subtitle(run, time) == time + " · "@ + duration_text(secs) + told_pace(run, pace)
        + told_power(run, power));
}

/// A pace with its unit, where it is worth telling.
pub open spec fn told_pace(run: RunModel, pace: Seq<char>) -> Seq<char> {
    if run.pace()->0 > 50_000 {
        " · "@ + pace + "%/h"@
    } else {
        seq![]
    }
}

/// A power with its unit, where it is known.
pub open spec fn told_power(run: RunModel, power: Seq<char>) -> Seq<char> {
    if run.watts is Some {
        " · "@ + power + " W"@
    } else {
        seq![]
    }
}

/// A loaded file goes in underneath what was read since, as far as it is at most a
/// day old.
#[verifier::spinoff_prover]
pub proof fn law_a_loaded_file_goes_underneath(
    before: AppModel,
    samples: Seq<Sample>,
    now: i64,
    after: AppModel,
    actions: Seq<Action>,
    x: Sample,
)
    requires
        before.absorbed(samples, now, after, actions),
        ordered(samples),
        ordered(before.history@),
        samples.len() + before.history@.len() <= before.history.room(),
    ensures
        ordered(after.history@),
        after.history@.contains(x) <==> now - x.at <= 86_400 && (before.history@.contains(x)
            || samples.contains(x) && (before.history@.len() == 0 || x.at
            < before.history@[0].at)),
        models(after.recordings@) == after_merging(
            models(before.recordings@),
            recorded(after.history@),
        ),
        actions.len() == 1 && actions[0] == Action::SaveRecordings || actions.len() == 0,
        actions.len() == 1 <==> any_news(models(before.recordings@), recorded(after.history@)),
{
    let ring = before.history@;
    let older = older_than(samples, ring);
    let all = older + ring;
    lemma_older_len(samples, ring);
    assert(newest_of(all, before.history.room()) == all);
    law_absorbing_keeps_the_order(samples, ring, before.history.room());
    law_an_earlier_session_goes_underneath(samples, ring, x);
    lemma_pruned_contains(all, now - 86_400, x);
    lemma_in_either(older, ring, x);
}

proof fn lemma_in_either(a: Seq<Sample>, b: Seq<Sample>, x: Sample)
    ensures
        (a + b).contains(x) <==> a.contains(x) || b.contains(x),
{
    let all = a + b;
    if a.contains(x) {
        let k = choose|k: int| 0 <= k < a.len() && a[k] == x;
        assert(all[k] == x);
    }
    if b.contains(x) {
        let k = choose|k: int| 0 <= k < b.len() && b[k] == x;
        assert(all[a.len() + k] == x);
    }
    if all.contains(x) {
        let k = choose|k: int| 0 <= k < all.len() && all[k] == x;
        if k < a.len() {
            assert(a[k] == x);
        } else {
            assert(b[k - a.len()] == x);
        }
    }
}

proof fn lemma_pruned_contains(s: Seq<Sample>, cutoff: int, x: Sample)
    requires
        ordered(s),
    ensures
        ordered(pruned(s, cutoff)),
        pruned(s, cutoff).contains(x) <==> x.at >= cutoff && s.contains(x),
{
    law_pruning_keeps_the_horizon(s, cutoff);
    let kept = pruned(s, cutoff);
    let n = choose|n: int|
        0 <= n <= s.len() && kept == #[trigger] s.skip(n) && forall|i: int|
            0 <= i < n ==> (#[trigger] s[i]).at < cutoff;
    if kept.contains(x) {
        let k = choose|k: int| 0 <= k < kept.len() && kept[k] == x;
        assert(s[n + k] == x);
    }
    if s.contains(x) && x.at >= cutoff {
        let k = choose|k: int| 0 <= k < s.len() && s[k] == x;
        assert(k >= n);
        assert(kept[k - n] == x);
    }
}

proof fn lemma_older_len(more: Seq<Sample>, ring: Seq<Sample>)
    ensures
        older_than(more, ring).len() <= more.len(),
    decreases more.len(),
{
    if more.len() > 0 {
        lemma_older_len(more.drop_last(), ring);
    }
}

/// A run's graph breaks after a minute and a half without a reading, as the plot
/// of the history does; only a series of more than thirty-two points allows for
/// more, and then for no more than three times what its points lie apart on
/// average.
pub proof fn law_how_far_apart_points_may_lie(points: Seq<Point>)
    ensures
        series_gap(points) >= 90_000_000,
        points.len() <= 32 ==> series_gap(points) == 90_000_000,
        points.len() > 32 && series_gap(points) > 90_000_000 ==> series_gap(points) * (points.len()
            - 1) <= 3 * (points.last().0 - points[0].0),
        points.len() > 32 ==> 3 * (points.last().0 - points[0].0) < (series_gap(points) + 1) * (
        points.len() - 1),
{
    if points.len() > 32 {
        let t = 3 * (points.last().0 - points[0].0);
        let m = points.len() - 1;
        let q = t / m;
        assert(q * m <= t < (q + 1) * m) by (nonlinear_arith)
            requires
                q == t / m,
                m > 0,
        ;
        assert(q <= i64::MAX) by (nonlinear_arith)
            requires
                q * m <= t,
                t <= 3 * u64::MAX,
                m >= 32,
        ;
        let gap = series_gap(points);
        assert(gap == q || gap == 90_000_000 && q <= 90_000_000);
        assert(t < (gap + 1) * m) by (nonlinear_arith)
            requires
                t < (q + 1) * m,
                q <= gap,
                m > 0,
        ;
    }
}

/// A battery is called by its maker and its model, by its model alone where the
/// maker is not known, and otherwise by its name.
pub proof fn law_what_a_battery_is_called(model: AppModel)
    ensures
        model.battery is None ==> model.subtitle_text().len() == 0,
        model.battery matches Some(b) ==> {
            &&& b.manufacturer is Some && b.model is Some ==> model.subtitle_text()
                == b.manufacturer->0@ + " "@ + b.model->0@
            &&& b.manufacturer is None && b.model is Some ==> model.subtitle_text()
                == b.model->0@
            &&& b.model is None ==> model.subtitle_text() == b.name@
        },
{
}

/// The last reading is written as of now, unless this second was written already.
pub proof fn law_the_last_reading_is_of_now(model: AppModel, now: i64)
    ensures
        model.last_words(now) is Some <==> model.battery is Some && (model.history@.len() == 0
            || model.history@.last().at < now),
        model.last_words(now) matches Some(sample) ==> {
            &&& sample.at == now
            &&& sample.percent == model.battery->0.percent
            &&& sample.power == model.battery->0.power
            &&& sample.status == model.battery->0.status
            &&& sample.follows == Follows::Poll
        },
{
}

/// The bar is as full as the battery: a hundredth of the percentage.
pub proof fn law_the_bar_is_as_full_as_the_battery(model: AppModel)
    ensures
        model.battery is None ==> model.fullness() == 0,
        model.battery matches Some(b) ==> -100 <= 2 * (100 * model.fullness() - b.percent) <= 100,
{
    if let Some(b) = model.battery {
        law_nearest_lies_within_a_half(b.percent as int, 100);
    }
}

} // verus!

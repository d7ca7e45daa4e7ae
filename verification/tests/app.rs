use leyden::app::labels::{empty_title, recording_row, row_gap, row_moment};
use leyden::app::{Action, AppModel, AppMsg, CommandMsg, Presence};
use leyden::battery::history::{Follows, Sample};
use leyden::battery::types::{Battery, Status};
use leyden::clock::Moment;
use leyden::graph::Series;
use leyden::notify::Alert;
use leyden::recordings::{Kind, Run};
use leyden::settings::{Clock, Settings, Theme};

fn micro(value: f64) -> i64 {
    (value * 1e6).round() as i64
}

const SHOWN: Presence = Presence {
    visible: true,
    suspended: false,
};

const OCCLUDED: Presence = Presence {
    visible: true,
    suspended: true,
};

fn model() -> AppModel {
    AppModel::new(Settings::default(), true, vec![])
}

fn battery(percent: f64, status: Status) -> Option<Battery> {
    Some(Battery {
        name: "BAT0".to_owned(),
        status,
        percent: micro(percent),
        energy_now: Some(micro(25.0)),
        energy_full: Some(micro(50.0)),
        energy_design: Some(micro(60.0)),
        power: Some(micro(10.0)),
        voltage: Some(micro(15.456)),
        cycle_count: Some(22),
        model: Some("Blade".to_owned()),
        manufacturer: Some("Razer".to_owned()),
        technology: None,
        on_ac: false,
    })
}

fn appended(actions: &[Action]) -> Vec<Sample> {
    actions
        .iter()
        .filter_map(|action| match action {
            Action::Append(sample) => Some(*sample),
            _ => None,
        })
        .collect()
}

#[test]
fn the_first_reading_is_recorded_and_names_the_launch() {
    let mut app = model();
    let actions = app.sample_at(battery(80.0, Status::Discharging), 1000);
    let written = appended(&actions);
    assert_eq!(written.len(), 1);
    assert_eq!(written[0].follows, Follows::Launch);
    assert_eq!(written[0].at, 1000);
    assert_eq!(app.next_follows, Follows::Poll);
    assert_eq!(app.history.len(), 1);
}

#[test]
fn readings_are_recorded_at_the_cadence_or_where_the_state_changes() {
    let mut app = model();
    app.sample_at(battery(80.0, Status::Discharging), 1000);
    assert!(appended(&app.sample_at(battery(80.0, Status::Discharging), 1029)).is_empty());
    assert_eq!(
        appended(&app.sample_at(battery(80.0, Status::Discharging), 1030)).len(),
        1
    );
    // Plugged in two seconds later: the transition is recorded at once.
    let actions = app.sample_at(battery(80.0, Status::Charging), 1032);
    assert_eq!(appended(&actions)[0].status, Status::Charging);
    assert_eq!(app.history.len(), 3);
    assert_eq!(app.power_window.len(), 4);
}

#[test]
fn no_battery_changes_nothing_but_the_battery() {
    let mut app = model();
    app.sample_at(battery(80.0, Status::Discharging), 1000);
    assert!(app.sample_at(None, 2000).is_empty());
    assert!(app.battery.is_none());
    assert_eq!(app.history.len(), 1);
    assert_eq!(app.status_label(), "");
    assert_eq!(app.percent_label(), "—");
    assert_eq!(app.icon_name(), "battery-missing-symbolic");
}

#[test]
fn readings_past_a_day_leave_the_history() {
    let mut app = model();
    app.sample_at(battery(80.0, Status::Discharging), 1000);
    app.sample_at(battery(70.0, Status::Discharging), 1000 + 24 * 60 * 60);
    assert_eq!(app.history.len(), 2);
    app.sample_at(battery(69.0, Status::Discharging), 1030 + 24 * 60 * 60);
    assert_eq!(app.history.len(), 2);
}

#[test]
fn alerts_are_raised_only_while_switched_on() {
    let mut app = model();
    app.sample_at(battery(80.0, Status::Discharging), 1000);
    assert!(!app
        .sample_at(battery(19.0, Status::Discharging), 1002)
        .contains(&Action::Notify(Alert::Low, micro(19.0))));
    // Switching them on does not fire for a threshold crossed before.
    let set = app.update(AppMsg::SetAlerts(true), SHOWN);
    assert_eq!(set, vec![Action::SaveSettings(app.settings)]);
    assert!(app
        .sample_at(battery(19.0, Status::Discharging), 1004)
        .is_empty());
    assert_eq!(
        app.sample_at(battery(9.0, Status::Discharging), 1006),
        vec![Action::Notify(Alert::Critical, micro(9.0))]
    );
}

#[test]
fn a_tick_reads_the_battery() {
    let mut app = model();
    assert_eq!(app.update(AppMsg::Tick, SHOWN), vec![Action::Read]);
    assert_eq!(app.next_follows, Follows::Launch);
    // An hour of wall clock went by without the other clock moving.
    let last = app.clocks.last.unwrap();
    app.clocks.last = Some(Moment {
        wall: last.wall - 3600 * 1_000_000_000,
        ..last
    });
    assert_eq!(app.update(AppMsg::Tick, SHOWN), vec![Action::Read]);
    assert_eq!(app.next_follows, Follows::Sleep);
}

#[test]
fn logind_marks_the_reading_after_a_sleep() {
    let mut app = model();
    app.update(AppMsg::Tick, SHOWN);
    assert_eq!(
        app.update(AppMsg::SleepSignal(true), SHOWN),
        vec![Action::Read]
    );
    assert_eq!(app.next_follows, Follows::Launch);
    assert_eq!(
        app.update(AppMsg::SleepSignal(false), SHOWN),
        vec![Action::Read]
    );
    assert_eq!(app.next_follows, Follows::Sleep);
    assert_eq!(app.clocks.last, None);
}

#[test]
fn hiding_slows_the_poll_and_coming_back_reads_at_once() {
    let mut app = model();
    assert_eq!(app.start_poll(), vec![Action::StartPoll(2)]);
    assert!(app.start_poll().is_empty());
    assert_eq!(
        app.update(AppMsg::PresenceChanged, OCCLUDED),
        vec![Action::StopPoll, Action::StartPoll(30)]
    );
    assert_eq!(app.poll_gap_secs(), 210);
    // Told twice, nothing more happens.
    assert!(app.update(AppMsg::PresenceChanged, OCCLUDED).is_empty());
    assert_eq!(
        app.update(AppMsg::PresenceChanged, SHOWN),
        vec![
            Action::DismissBackground,
            Action::Read,
            Action::StopPoll,
            Action::StartPoll(2)
        ]
    );
    assert_eq!(app.poll_gap_secs(), 14);
}

#[test]
fn a_window_not_yet_shown_is_hidden() {
    let app = AppModel::new(Settings::default(), false, vec![]);
    assert!(app.hidden);
    assert_eq!(app.poll_interval(), 30);
}

#[test]
fn closing_quits_unless_running_in_the_background() {
    let mut app = model();
    assert_eq!(
        app.update(AppMsg::CloseRequested, SHOWN),
        vec![Action::AskToQuit]
    );
    app.update(AppMsg::SetBackground(true), SHOWN);
    assert_eq!(
        app.update(AppMsg::CloseRequested, SHOWN),
        vec![Action::HideWindow, Action::ShowBackground]
    );
}

#[test]
fn quitting_writes_the_last_reading_first() {
    let mut app = model();
    assert_eq!(app.update(AppMsg::Quit, SHOWN), vec![Action::Exit]);
    app.sample_at(battery(80.0, Status::Discharging), 1000);
    // The cadence already wrote this second.
    assert_eq!(app.flush_at(1000), None);
    let last = app.flush_at(1001).unwrap();
    assert_eq!((last.at, last.follows), (1001, Follows::Poll));
    let actions = app.update(AppMsg::Quit, SHOWN);
    assert_eq!(actions.len(), 2);
    assert!(matches!(actions[0], Action::AppendNow(sample) if sample.percent == micro(80.0)));
    assert_eq!(actions[1], Action::Exit);
    assert!(app.flush().is_some());
}

#[test]
fn a_new_interval_restarts_the_poll_and_is_saved() {
    let mut app = model();
    app.start_poll();
    app.update(AppMsg::Tick, SHOWN);
    let actions = app.update(AppMsg::SetPollSecs(99), SHOWN);
    assert_eq!(app.settings.poll_secs, 30);
    assert_eq!(app.clocks.last, None);
    assert_eq!(
        actions,
        vec![
            Action::StopPoll,
            Action::StartPoll(30),
            Action::SaveSettings(app.settings)
        ]
    );
    assert!(app.update(AppMsg::SetPollSecs(30), SHOWN).is_empty());
}

#[test]
fn preferences_are_saved_when_they_change() {
    let mut app = model();
    let actions = app.update(AppMsg::SetTheme(Theme::Dark), SHOWN);
    assert_eq!(
        actions,
        vec![
            Action::ApplyTheme(Theme::Dark),
            Action::SaveSettings(app.settings)
        ]
    );
    assert!(app.update(AppMsg::SetTheme(Theme::Dark), SHOWN).is_empty());
    assert_eq!(app.update(AppMsg::SetClock(Clock::Twelve), SHOWN).len(), 1);
    assert!(app.update(AppMsg::SetClock(Clock::Twelve), SHOWN).is_empty());
    assert!(app.update(AppMsg::SetBackground(false), SHOWN).is_empty());
}

#[test]
fn dialogs_are_shown_on_request() {
    let mut app = model();
    for (msg, action) in [
        (AppMsg::ShowRecordings, Action::ShowRecordings),
        (AppMsg::ShowPreferences, Action::ShowPreferences),
        (AppMsg::ShowShortcuts, Action::ShowShortcuts),
        (AppMsg::ShowAbout, Action::ShowAbout),
    ] {
        assert_eq!(app.update(msg, SHOWN), vec![action]);
    }
}

fn discharge(from: i64, count: i64) -> Vec<Sample> {
    (0..count)
        .map(|i| Sample {
            at: from + i * 30,
            percent: micro(80.0 - 0.5 * i as f64),
            power: Some(micro(10.0)),
            status: Status::Discharging,
            follows: Follows::Poll,
        })
        .collect()
}

#[test]
fn a_loaded_history_seeds_the_recordings() {
    let mut app = model();
    app.sample_at(battery(60.0, Status::Charging), 2000);
    let actions = app.load_at(discharge(500, 40), 2000);
    assert_eq!(actions, vec![Action::SaveRecordings]);
    assert_eq!(app.history.len(), 41);
    assert_eq!(app.recordings.len(), 1);
    assert_eq!(app.recordings[0].kind, Kind::Discharge);
    // Nothing new the second time.
    assert!(app.load_at(vec![], 2000).is_empty());
}

#[test]
fn failed_writes_change_nothing() {
    let mut app = model();
    for msg in [
        CommandMsg::Written(Err("disk full".to_owned())),
        CommandMsg::Saved(Ok(())),
        CommandMsg::Recorded(Err("disk full".to_owned())),
    ] {
        assert!(app.update_cmd(msg).is_empty());
    }
    assert!(app.update_cmd(CommandMsg::Loaded(vec![])).is_empty());
}

#[test]
fn the_run_in_progress_is_listed_as_it_stands() {
    let mut app = model();
    for sample in discharge(0, 40) {
        app.sample_at(
            battery(sample.percent as f64 / 1e6, Status::Discharging),
            sample.at,
        );
    }
    // A run is derived where the trend changes; until then only the view has it.
    assert!(app.recordings.is_empty());
    let view = app.recordings_view();
    assert_eq!(view.len(), 1);
    assert!(view[0].in_progress);
    let actions = app.sample_at(battery(60.0, Status::Charging), 1200);
    assert!(actions.contains(&Action::SaveRecordings));
    assert_eq!(app.recordings.len(), 1);
}

#[test]
fn labels_say_what_was_read() {
    let mut app = model();
    app.sample_at(battery(79.6, Status::Discharging), 1000);
    assert_eq!(app.subtitle(), "Razer Blade");
    assert_eq!(app.percent_label(), "80%");
    assert_eq!(app.status_label(), "Discharging · 2 h 30 min left");
    assert_eq!(app.history_caption(), "Collecting samples…");
    assert_eq!(app.level(), micro(0.796));
    assert_eq!(app.power_title(), "Draw");
    assert_eq!(app.power_label(), "10.0 W");
    assert_eq!(app.power_subtitle(), "");
    assert_eq!(app.voltage_label(), "15.46 V");
    assert_eq!(app.charge_label(), "25.0 of 50.0 Wh");
    assert_eq!(app.source_label(), "Battery");
    assert_eq!(app.health_label(), "83%");
    assert_eq!(app.health_subtitle(), "50.0 Wh of 60.0 Wh when new");
    assert_eq!(app.cycles_label(), "22");
    assert_eq!(app.technology_label(), "—");
}

#[test]
fn the_average_is_shown_once_it_has_drifted() {
    let mut app = model();
    app.sample_at(battery(80.0, Status::Charging), 1000);
    let mut louder = battery(80.0, Status::Charging);
    louder.as_mut().unwrap().power = Some(micro(20.0));
    app.sample_at(louder, 1002);
    assert_eq!(app.smoothed_power(), Some(micro(15.0)));
    assert_eq!(app.power_subtitle(), "15.0 W average");
    assert_eq!(app.power_title(), "Intake");
    // 25 Wh at the average of 15 W.
    assert_eq!(app.status_label(), "Charging · 1 h 40 min until full");
}

#[test]
fn the_caption_tells_how_far_back_the_graph_goes() {
    let mut app = model();
    app.sample_at(battery(80.0, Status::Discharging), 1000);
    app.sample_at(battery(79.0, Status::Discharging), 1000 + 5400);
    assert_eq!(app.history_caption(), "Last 1 h 30 min");
}

#[test]
fn a_battery_without_a_maker_goes_by_its_model_or_name() {
    let mut app = model();
    let mut unmade = battery(80.0, Status::Full).unwrap();
    unmade.manufacturer = None;
    app.battery = Some(unmade);
    assert_eq!(app.subtitle(), "Blade");
    assert_eq!(app.status_label(), "Fully charged");
    let mut nameless = battery(80.0, Status::Full).unwrap();
    nameless.model = None;
    app.battery = Some(nameless);
    assert_eq!(app.subtitle(), "BAT0");
}

fn run() -> Run {
    Run {
        kind: Kind::Discharge,
        started: 1_780_000_000,
        ended: 1_780_003_600,
        from_percent: micro(80.4),
        to_percent: micro(40.0),
        watts: Some(micro(11.25)),
        series: vec![(0, micro(80.4)), (micro(3600.0), micro(40.0))],
        in_progress: true,
    }
}

#[test]
fn a_run_is_one_row() {
    let row = recording_row(&run(), "14:05");
    assert_eq!(row.title, "80% → 40%");
    assert_eq!(row.subtitle, "14:05 · 1 h · 40.4%/h · 11.2 W");
    assert!(row.in_progress && row.expands);

    let plain = Run {
        watts: None,
        to_percent: micro(80.4),
        series: vec![],
        in_progress: false,
        started: -5,
        ended: 0,
        ..run()
    };
    let row = recording_row(&plain, "00:00");
    assert_eq!(row.subtitle, "00:00 · less than a minute");
    assert!(!row.in_progress && !row.expands);
    assert_eq!(row_moment(&plain), 0);
    assert_eq!(row_moment(&run()), 1_780_000_000);
}

/// A run whose points stand `apart` seconds from each other, and whose last ones,
/// from `from` on, come after a pause.
fn spread(count: usize, apart: f64, from: usize, pause: f64) -> Run {
    let at = |i: usize| i as f64 * apart + if i >= from { pause } else { 0.0 };
    Run {
        series: (0..count).map(|i| (micro(at(i)), micro(50.0))).collect(),
        ..run()
    }
}

#[test]
fn the_graph_of_a_run_breaks_at_a_pause_only() {
    let drawn = |run: &Run| Series::from_points(&run.series, false, row_gap(run));

    assert_eq!(row_gap(&spread(0, 30.0, 0, 0.0)), micro(90.0));
    assert_eq!(row_gap(&spread(32, 30.0, 32, 0.0)), micro(90.0));
    assert_eq!(drawn(&spread(32, 30.0, 32, 0.0)).segments.len(), 1);

    // Thinned: the points themselves stand ten minutes apart.
    assert_eq!(row_gap(&spread(64, 600.0, 64, 0.0)), micro(1800.0));
    assert_eq!(drawn(&spread(64, 600.0, 64, 0.0)).segments.len(), 1);

    for paused in [
        spread(4, 30.0, 2, 28_800.0),
        spread(40, 30.0, 20, 28_800.0),
        spread(64, 600.0, 20, 28_800.0),
    ] {
        let series = drawn(&paused);
        assert_eq!(series.segments.len(), 2);
        assert_eq!(series.bridges.len(), 1);
    }
}

#[test]
fn an_empty_page_says_so() {
    assert_eq!(empty_title("Discharges"), "No discharges Yet");
}

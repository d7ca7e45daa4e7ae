//! What the application does: `AppMsg` in, one `update` reducer, everything on
//! screen derived from `AppModel`.
//!
//! The reducer decides and performs nothing. It answers each message with the
//! `Action`s to carry out, in order; where one of them is to read the battery,
//! what was read goes to `sample`, which answers in the same way.

pub mod labels;
pub mod laws;
pub mod steps;

use vstd::prelude::*;

use crate::battery::history::{
    elapsed, elapsed_secs, newest_of, older_than, pruned, pushed, Follows, History, Sample,
};
use crate::battery::types::{Battery, Status};
use crate::clock::present_second;
use crate::duration::NANOS;
use crate::micro::Micro;
use crate::notify::{Alert, Alerts};
use crate::recordings::{after_merging, any_news, merge, models, recorded, runs_in, Run};
use crate::settings::{bound_poll, bounded, Clock, Settings, Theme};
use crate::sleep::{divergence, Clocks, SLEPT_SECS};
use crate::store::MAX_AGE_SECS;

verus! {

/// While nothing is on screen the app records but does not display, so it polls
/// at exactly the recording cadence: a complete history for a fifteenth of the
/// wakeups. Never be a cause of the drain you measure.
pub const HIDDEN_POLL_SECS: u32 = 30;

/// One graph sample per this many seconds, whatever the poll rate. A day at this
/// cadence is ~2 880 points: more than the plot has pixels, and small enough
/// that the history file stays around 100 KB.
pub const RECORD_SECS: u64 = 30;

/// Room for a day of `RECORD_SECS` samples plus the extra ones a busy day of
/// state changes adds. Age, not this, is what actually bounds the history.
pub const HISTORY_CAP: usize = 4096;

/// The live readings kept for smoothing only: `SMOOTH_SECS` of polls, with room
/// to spare. Never persisted.
pub const POWER_CAP: usize = 128;

/// Power is averaged over this trailing window before it drives an estimate. A
/// single reading swings with whatever the CPU is doing that instant, which made
/// "time left" jump by tens of minutes between polls.
pub const SMOOTH_SECS: u64 = 120;

/// How far apart two recorded samples must be before they stop counting as
/// neighbours. The recorded ring's threshold is a constant because its cadence
/// is; the poll ring's follows the configured interval.
pub const RECORD_GAP: Micro = 90_000_000;

#[derive(Debug, Clone, Copy)]
pub enum AppMsg {
    Tick,
    /// The window's visibility or occlusion changed.
    PresenceChanged,
    /// The user asked to close the window. Whether that quits depends on the
    /// background preference.
    CloseRequested,
    ShowAbout,
    ShowPreferences,
    ShowShortcuts,
    SetPollSecs(u32),
    SetTheme(Theme),
    SetAlerts(bool),
    SetClock(Clock),
    SetBackground(bool),
    /// logind's `PrepareForSleep`: `true` just before the freeze, `false` on
    /// resume.
    SleepSignal(bool),
    ShowRecordings,
    /// Leave, but write the last reading first.
    Quit,
}

/// Results from off-thread work.
#[derive(Debug)]
pub enum CommandMsg {
    Loaded(Vec<Sample>),
    Written(Result<(), String>),
    Saved(Result<(), String>),
    Recorded(Result<(), String>),
}

/// What the window says of itself.
#[derive(Debug, Clone, Copy, PartialEq, Eq, Structural)]
pub struct Presence {
    pub visible: bool,
    pub suspended: bool,
}

impl Presence {
    /// Nothing of the window is on screen.
    pub open spec fn is_hidden(self) -> bool {
        !self.visible || self.suspended
    }
}

/// Something for the application to carry out.
#[derive(Debug, Clone, Copy, PartialEq, Eq)]
pub enum Action {
    /// Read the battery and hand it to `sample`.
    Read,
    /// Raise an alert on the desktop.
    Notify(Alert, Micro),
    /// Add a sample to the history file, off the main thread.
    Append(Sample),
    /// Add a sample to the history file before going on.
    AppendNow(Sample),
    /// Replace the recordings file with what is known.
    SaveRecordings,
    /// Replace the settings file, off the main thread.
    SaveSettings(Settings),
    ApplyTheme(Theme),
    StopPoll,
    /// Poll every so many seconds.
    StartPoll(u32),
    /// Tell the user that the app is still recording.
    ShowBackground,
    /// Take that notice down.
    DismissBackground,
    HideWindow,
    /// Send the application `AppMsg::Quit`.
    AskToQuit,
    /// End the main loop.
    Exit,
    ShowRecordings,
    ShowPreferences,
    ShowShortcuts,
    ShowAbout,
}

#[derive(Debug)]
pub struct AppModel {
    pub battery: Option<Battery>,
    pub history: History,
    pub power_window: History,
    /// A poll timer is running.
    pub polling: bool,
    /// Nothing of the window is on screen: minimised, occluded, on another
    /// workspace, or closed while running in the background.
    pub hidden: bool,
    pub settings: Settings,
    pub alerts: Alerts,
    /// Completed runs, from disk and from whatever history is loaded.
    pub recordings: Vec<Run>,
    /// The status at the previous sample; a change is when a run can end.
    pub last_status: Option<Status>,
    pub clocks: Clocks,
    /// What the next sample should record as preceding it. Set to `Launch` at
    /// startup so the stretch since the last session is named, and to `Sleep`
    /// when a suspend is noticed; consumed by the next sample.
    pub next_follows: Follows,
}

/// Whether a sample goes into the history. A state change is recorded whenever
/// it happens: it is what colours the graph, and waiting for the cadence would
/// misplace the transition.
pub open spec fn is_due(history: Seq<Sample>, sample: Sample) -> bool {
    history.len() == 0 || history.last().status != sample.status || elapsed(
        history.last().at as int,
        sample.at as int,
    ) >= RECORD_SECS
}

/// The live rate while the window is on screen, the recording rate when it is
/// not.
pub open spec fn interval(hidden: bool, settings: Settings) -> u32 {
    if hidden {
        HIDDEN_POLL_SECS
    } else {
        settings.poll_secs
    }
}

/// Giving the poll timer its interval: the interval is baked into a timer when it
/// is created, so a change only takes effect on a fresh one.
pub open spec fn restarted(polling: bool, secs: u32) -> Seq<Action> {
    if polling {
        seq![Action::StopPoll, Action::StartPoll(secs)]
    } else {
        seq![Action::StartPoll(secs)]
    }
}

/// The clocks with nothing to compare the next reading to.
pub open spec fn forgotten(clocks: Clocks) -> Clocks {
    Clocks { last: None, ..clocks }
}

/// Whether the machine slept between two readings of the clocks.
pub open spec fn slept_since(before: Clocks, after: Clocks) -> bool {
    match (before.last, after.last) {
        (Some(then), Some(now)) => divergence(then, now) > SLEPT_SECS * NANOS,
        _ => false,
    }
}

impl AppModel {
    pub open spec fn wf(self) -> bool {
        self.clocks.wf()
    }

    /// What `battery` says at `now`, following what comes next.
    pub open spec fn sample_of(self, battery: Battery, now: i64) -> Sample {
        Sample {
            at: now,
            percent: battery.percent,
            power: battery.power,
            status: battery.status,
            follows: self.next_follows,
        }
    }

    /// The reading to write before the process ends; none where there is no
    /// battery, or where the cadence already wrote this second.
    pub open spec fn last_words(self, now: i64) -> Option<Sample> {
        match self.battery {
            Some(battery) => if self.history@.len() > 0 && self.history@.last().at >= now {
                None
            } else {
                Some(Sample { follows: Follows::Poll, ..self.sample_of(battery, now) })
            },
            None => None,
        }
    }

    /// What leaving does: the last reading is written, then the main loop ends.
    pub open spec fn leaves(self, now: i64, actions: Seq<Action>) -> bool {
        actions =~= match self.last_words(now) {
            Some(sample) => seq![Action::AppendNow(sample), Action::Exit],
            None => seq![Action::Exit],
        }
    }

    /// The settings with `settings` in place of these.
    pub open spec fn configured(self, settings: Settings) -> Self {
        AppModel { settings, ..self }
    }

    /// How a change of one setting is answered: not at all where it is none.
    pub open spec fn sets(
        self,
        settings: Settings,
        before: Seq<Action>,
        after: AppModel,
        actions: Seq<Action>,
    ) -> bool {
        if settings == self.settings {
            after == self && actions =~= Seq::<Action>::empty()
        } else {
            after == self.configured(settings) && actions =~= before.push(
                Action::SaveSettings(settings),
            )
        }
    }

    /// What a message makes of the model, and what it asks for.
    pub open spec fn reduced(
        self,
        msg: AppMsg,
        presence: Presence,
        after: AppModel,
        actions: Seq<Action>,
    ) -> bool {
        match msg {
            AppMsg::Tick => {
                &&& after == AppModel {
                    clocks: after.clocks,
                    next_follows: if slept_since(self.clocks, after.clocks) {
                        Follows::Sleep
                    } else {
                        self.next_follows
                    },
                    ..self
                }
                &&& after.clocks.last is Some
                // What the monotonic clock is counted from is set once and kept.
                &&& after.clocks.origin is Some
                &&& self.clocks.origin is Some ==> after.clocks.origin == self.clocks.origin
                &&& actions =~= seq![Action::Read]
            },
            AppMsg::PresenceChanged => {
                let hidden = presence.is_hidden();
                if hidden == self.hidden {
                    after == self && actions =~= Seq::<Action>::empty()
                } else {
                    // Coming back, whatever is on screen is as stale as the
                    // absence was long.
                    let arrival = if hidden {
                        seq![]
                    } else {
                        seq![Action::DismissBackground, Action::Read]
                    };
                    &&& after == AppModel { hidden, polling: true, ..self }
                    &&& actions =~= arrival + restarted(
                        self.polling,
                        interval(hidden, self.settings),
                    )
                }
            },
            AppMsg::SleepSignal(going_to_sleep) => {
                // logind gives a moment either side of the freeze, which is the
                // only way to get endpoints that are not a poll interval stale.
                &&& after == if going_to_sleep {
                    self
                } else {
                    AppModel {
                        next_follows: Follows::Sleep,
                        clocks: forgotten(self.clocks),
                        ..self
                    }
                }
                &&& actions =~= seq![Action::Read]
            },
            AppMsg::CloseRequested => {
                &&& after == self
                &&& actions =~= if self.settings.background {
                    seq![Action::HideWindow, Action::ShowBackground]
                } else {
                    seq![Action::AskToQuit]
                }
            },
            AppMsg::Quit => after == self && exists|now: i64| #[trigger] self.leaves(now, actions),
            AppMsg::SetBackground(background) => self.sets(
                Settings { background, ..self.settings },
                seq![],
                after,
                actions,
            ),
            AppMsg::SetAlerts(alerts) => self.sets(
                Settings { alerts, ..self.settings },
                seq![],
                after,
                actions,
            ),
            AppMsg::SetClock(clock) => self.sets(
                Settings { clock, ..self.settings },
                seq![],
                after,
                actions,
            ),
            AppMsg::SetTheme(theme) => self.sets(
                Settings { theme, ..self.settings },
                seq![Action::ApplyTheme(theme)],
                after,
                actions,
            ),
            AppMsg::SetPollSecs(secs) => {
                let poll_secs = bounded(secs as int) as u32;
                let settings = Settings { poll_secs, ..self.settings };
                if poll_secs == self.settings.poll_secs {
                    after == self && actions =~= Seq::<Action>::empty()
                } else {
                    // A changed interval makes the next quiet stretch expected,
                    // not suspicious.
                    &&& after == AppModel {
                        settings,
                        clocks: forgotten(self.clocks),
                        polling: true,
                        ..self
                    }
                    &&& actions =~= restarted(self.polling, interval(self.hidden, settings)).push(
                        Action::SaveSettings(settings),
                    )
                }
            },
            AppMsg::ShowRecordings => after == self && actions =~= seq![Action::ShowRecordings],
            AppMsg::ShowPreferences => after == self && actions =~= seq![Action::ShowPreferences],
            AppMsg::ShowShortcuts => after == self && actions =~= seq![Action::ShowShortcuts],
            AppMsg::ShowAbout => after == self && actions =~= seq![Action::ShowAbout],
        }
    }

    /// What a reading makes of the model, and what it asks for.
    pub open spec fn sampled(
        self,
        reading: Option<Battery>,
        now: i64,
        after: AppModel,
        actions: Seq<Action>,
    ) -> bool {
        match reading {
            None => after == (AppModel { battery: None, ..self }) && actions =~= Seq::<
                Action,
            >::empty(),
            Some(battery) => {
                let sample = self.sample_of(battery, now);
                let turned = self.last_status != Some(battery.status);
                let due = is_due(self.history@, sample);
                &&& after.battery == reading
                &&& after.next_follows == Follows::Poll
                &&& after.last_status == Some(battery.status)
                // Always advanced, even with alerts switched off, so turning them
                // on does not immediately fire for a threshold crossed long ago.
                &&& after.alerts == self.alerts.after(battery.percent as int, battery.status)
                // A run can only end where the trend changes, so that is the only
                // time the derivation is worth re-running.
                &&& models(after.recordings@) == if turned {
                    after_merging(models(self.recordings@), recorded(self.history@))
                } else {
                    models(self.recordings@)
                }
                &&& after.power_window@ == pushed(
                    self.power_window@,
                    self.power_window.room(),
                    sample,
                )
                &&& after.power_window.room() == self.power_window.room()
                &&& after.history@ == if due {
                    pruned(
                        pushed(self.history@, self.history.room(), sample),
                        now - MAX_AGE_SECS,
                    )
                } else {
                    self.history@
                }
                &&& after.history.room() == self.history.room()
                &&& after.polling == self.polling
                &&& after.hidden == self.hidden
                &&& after.settings == self.settings
                &&& after.clocks == self.clocks
                &&& actions =~= self.alerted(battery) + (if turned && any_news(
                    models(self.recordings@),
                    recorded(self.history@),
                ) {
                    seq![Action::SaveRecordings]
                } else {
                    seq![]
                }) + (if due {
                    seq![Action::Append(sample)]
                } else {
                    seq![]
                })
            },
        }
    }

    /// The notification that a reading asks for, where alerts are switched on.
    pub open spec fn alerted(self, battery: Battery) -> Seq<Action> {
        match self.alerts.worth(battery.percent as int, battery.status) {
            Some(alert) => if self.settings.alerts {
                seq![Action::Notify(alert, battery.percent)]
            } else {
                seq![]
            },
            None => seq![],
        }
    }

    /// What the loaded history file makes of the model, and what it asks for.
    pub open spec fn absorbed(
        self,
        samples: Seq<Sample>,
        now: i64,
        after: AppModel,
        actions: Seq<Action>,
    ) -> bool {
        &&& after.history@ == pruned(
            newest_of(older_than(samples, self.history@) + self.history@, self.history.room()),
            now - MAX_AGE_SECS,
        )
        &&& after.history.room() == self.history.room()
        &&& models(after.recordings@) == after_merging(
            models(self.recordings@),
            recorded(after.history@),
        )
        &&& after == AppModel {
            history: after.history,
            recordings: after.recordings,
            ..self
        }
        &&& actions =~= if any_news(models(self.recordings@), recorded(after.history@)) {
            seq![Action::SaveRecordings]
        } else {
            seq![]
        }
    }

    /// That nothing was read yet.
    pub open spec fn is_new(self, settings: Settings, visible: bool, recordings: Seq<Run>) -> bool {
        &&& self.wf()
        &&& self.battery is None
        &&& self.history@ == Seq::<Sample>::empty()
        &&& self.history.room() == HISTORY_CAP
        &&& self.power_window@ == Seq::<Sample>::empty()
        &&& self.power_window.room() == POWER_CAP
        &&& !self.polling
        &&& self.hidden == !visible
        &&& self.settings == settings
        &&& self.alerts == (Alerts { raised: None, seeded: false })
        &&& self.recordings@ == recordings
        &&& self.last_status is None
        &&& self.clocks.last is None
        &&& self.next_follows == Follows::Launch
    }

    /// A model with nothing read yet.
    pub fn new(settings: Settings, visible: bool, recordings: Vec<Run>) -> (r: Self)
        ensures
            r.is_new(settings, visible, recordings@),
    {
        AppModel {
            battery: None,
            history: History::new(HISTORY_CAP),
            power_window: History::new(POWER_CAP),
            polling: false,
            // Read, not assumed: the window is not on screen yet, and taking
            // this for granted meant a never-shown window polled at the live
            // rate forever.
            hidden: !visible,
            settings,
            alerts: Alerts::default(),
            recordings,
            last_status: None,
            clocks: Clocks::default(),
            // The first reading of a session closes the stretch in which the app
            // was not running.
            next_follows: Follows::Launch,
        }
    }

    /// Takes in a reading of the battery.
    pub fn sample(&mut self, reading: Option<Battery>) -> (r: Vec<Action>)
        requires
            old(self).wf(),
        ensures
            final(self).wf(),
            exists|now: i64| #[trigger] old(self).sampled(reading, now, *final(self), r@),
    {
        let at: i64 = present_second();
        self.sample_at(reading, at)
    }

    /// Takes in a reading of the battery from a given moment.
    pub fn sample_at(&mut self, reading: Option<Battery>, now: i64) -> (r: Vec<Action>)
        requires
            old(self).wf(),
        ensures
            final(self).wf(),
            old(self).sampled(reading, now, *final(self), r@),
    {
        let mut actions: Vec<Action> = Vec::new();
        let (percent, power, status) = match &reading {
            Some(battery) => (battery.percent, battery.power, battery.status),
            None => {
                self.battery = None;
                return actions;
            },
        };
        self.battery = reading;
        let sample = Sample { at: now, percent, power, status, follows: self.next_follows };
        self.next_follows = Follows::Poll;

        if let Some(alert) = self.alerts.advance(percent, status) {
            if self.settings.alerts {
                actions.push(Action::Notify(alert, percent));
            }
        }
        let ghost alerted = actions@;
        assert(alerted == old(self).alerted(reading->0));

        let turned = match self.last_status {
            Some(last) => last != status,
            None => true,
        };
        self.last_status = Some(status);
        if turned {
            if self.refresh_recordings() {
                actions.push(Action::SaveRecordings);
            }
        }
        let ghost saved = actions@;
        assert(saved == alerted + if turned && any_news(
            models(old(self).recordings@),
            recorded(old(self).history@),
        ) {
            seq![Action::SaveRecordings]
        } else {
            seq![]
        });

        self.power_window.push(sample);
        if !self.should_record(&sample) {
            assert(actions@ == saved + Seq::<Action>::empty());
            return actions;
        }
        self.history.push(sample);
        self.history.prune_older_than(now, MAX_AGE_SECS);
        actions.push(Action::Append(sample));
        assert(actions@ == saved + seq![Action::Append(sample)]);
        actions
    }

    /// Re-derive runs from the history and fold them into what is already
    /// known, telling whether something actually changed.
    fn refresh_recordings(&mut self) -> (r: bool)
        ensures
            models(final(self).recordings@) == after_merging(
                models(old(self).recordings@),
                recorded(old(self).history@),
            ),
            *final(self) == (AppModel { recordings: final(self).recordings, ..*old(self) }),
            r == any_news(models(old(self).recordings@), recorded(old(self).history@)),
    {
        let derived = runs_in(&self.history);
        merge(&mut self.recordings, derived)
    }

    /// Whether a sample goes into the history.
    pub fn should_record(&self, sample: &Sample) -> (r: bool)
        ensures
            r == is_due(self.history@, *sample),
    {
        match self.history.newest() {
            Some(last) => last.status != sample.status || elapsed_secs(last.at, sample.at)
                >= RECORD_SECS,
            None => true,
        }
    }

    /// The newest reading, to be written before the process ends. Without it the
    /// record loses up to `RECORD_SECS`, and the gap that follows starts in the
    /// wrong place.
    pub fn flush(&self) -> (r: Option<Sample>)
        ensures
            exists|now: i64| r == #[trigger] self.last_words(now),
    {
        let at: i64 = present_second();
        self.flush_at(at)
    }

    /// The newest reading as of a given moment, to be written before the process
    /// ends.
    pub fn flush_at(&self, now: i64) -> (r: Option<Sample>)
        ensures
            r == self.last_words(now),
    {
        match &self.battery {
            Some(battery) => {
                // The cadence may already have written this second.
                if let Some(newest) = self.history.newest() {
                    if newest.at >= now {
                        return None;
                    }
                }
                Some(
                    Sample {
                        at: now,
                        percent: battery.percent,
                        power: battery.power,
                        status: battery.status,
                        follows: Follows::Poll,
                    },
                )
            },
            None => None,
        }
    }

    /// The live rate while the window is on screen, the recording rate when it
    /// is not.
    pub fn poll_interval(&self) -> (r: u32)
        ensures
            r == interval(self.hidden, self.settings),
    {
        if self.hidden {
            HIDDEN_POLL_SECS
        } else {
            self.settings.poll_secs
        }
    }

    /// Two samples further apart than this were not consecutive polls.
    pub open spec fn poll_gap(self) -> int {
        interval(self.hidden, self.settings) * 7
    }

    /// Two samples further apart than this were not consecutive polls. Derived
    /// from whichever interval is in force, never a bare number: a threshold
    /// below the cadence makes every pair look like a gap.
    pub fn poll_gap_secs(&self) -> (r: u64)
        ensures
            r == self.poll_gap(),
    {
        self.poll_interval() as u64 * 7
    }

    /// Starts the poll timer unless one is running.
    pub fn start_poll(&mut self) -> (r: Vec<Action>)
        ensures
            *final(self) == (AppModel { polling: true, ..*old(self) }),
            r@ == if old(self).polling {
                seq![]
            } else {
                seq![Action::StartPoll(interval(old(self).hidden, old(self).settings))]
            },
    {
        let mut actions: Vec<Action> = Vec::new();
        if !self.polling {
            self.polling = true;
            actions.push(Action::StartPoll(self.poll_interval()));
        }
        actions
    }

    /// Starts the poll timer afresh, adding to the actions given.
    fn restart_poll(&mut self, actions: &mut Vec<Action>)
        ensures
            *final(self) == (AppModel { polling: true, ..*old(self) }),
            final(actions)@ == old(actions)@ + restarted(
                old(self).polling,
                interval(old(self).hidden, old(self).settings),
            ),
    {
        if self.polling {
            actions.push(Action::StopPoll);
        }
        self.polling = true;
        actions.push(Action::StartPoll(self.poll_interval()));
        assert(actions@ == old(actions)@ + restarted(
            old(self).polling,
            interval(old(self).hidden, old(self).settings),
        ));
    }

    /// The history file was read.
    pub fn load_at(&mut self, samples: Vec<Sample>, now: i64) -> (r: Vec<Action>)
        requires
            old(self).wf(),
        ensures
            final(self).wf(),
            old(self).absorbed(samples@, now, *final(self), r@),
    {
        let mut actions: Vec<Action> = Vec::new();
        self.history.absorb(samples);
        self.history.prune_older_than(now, MAX_AGE_SECS);
        // Seed from whatever was already on disk, so the list has content before
        // the next cycle completes.
        if self.refresh_recordings() {
            actions.push(Action::SaveRecordings);
        }
        actions
    }

    /// Takes in what came of off-thread work. A file that could not be written
    /// changes nothing here.
    pub fn update_cmd(&mut self, msg: CommandMsg) -> (r: Vec<Action>)
        requires
            old(self).wf(),
        ensures
            final(self).wf(),
            match msg {
                CommandMsg::Loaded(samples) => exists|now: i64| #[trigger]
                    old(self).absorbed(samples@, now, *final(self), r@),
                _ => *final(self) == *old(self) && r@ == Seq::<Action>::empty(),
            },
    {
        match msg {
            CommandMsg::Loaded(samples) => {
                let at: i64 = present_second();
                self.load_at(samples, at)
            },
            CommandMsg::Written(_) => Vec::new(),
            CommandMsg::Saved(_) => Vec::new(),
            CommandMsg::Recorded(_) => Vec::new(),
        }
    }

    /// Takes in one message.
    pub fn update(&mut self, msg: AppMsg, presence: Presence) -> (r: Vec<Action>)
        requires
            old(self).wf(),
        ensures
            final(self).wf(),
            old(self).reduced(msg, presence, *final(self), r@),
    {
        let mut actions: Vec<Action> = Vec::new();
        match msg {
            AppMsg::Tick => {
                if self.clocks.advance().is_some() {
                    self.next_follows = Follows::Sleep;
                }
                actions.push(Action::Read);
            },
            AppMsg::PresenceChanged => {
                let hidden = !presence.visible || presence.suspended;
                if hidden != self.hidden {
                    self.hidden = hidden;
                    if !hidden {
                        actions.push(Action::DismissBackground);
                        actions.push(Action::Read);
                    }
                    self.restart_poll(&mut actions);
                }
            },
            AppMsg::SleepSignal(going_to_sleep) => {
                if !going_to_sleep {
                    self.next_follows = Follows::Sleep;
                    self.clocks.reset();
                }
                actions.push(Action::Read);
            },
            AppMsg::CloseRequested => {
                if self.settings.background {
                    actions.push(Action::HideWindow);
                    actions.push(Action::ShowBackground);
                } else {
                    actions.push(Action::AskToQuit);
                }
            },
            AppMsg::Quit => {
                let at: i64 = present_second();
                if let Some(sample) = self.flush_at(at) {
                    actions.push(Action::AppendNow(sample));
                }
                actions.push(Action::Exit);
                assert(old(self).leaves(at, actions@));
            },
            AppMsg::SetBackground(background) => {
                if background != self.settings.background {
                    self.settings.background = background;
                    actions.push(Action::SaveSettings(self.settings));
                }
            },
            AppMsg::SetPollSecs(secs) => {
                let secs: u32 = bound_poll(secs);
                if secs != self.settings.poll_secs {
                    self.settings.poll_secs = secs;
                    self.clocks.reset();
                    self.restart_poll(&mut actions);
                    actions.push(Action::SaveSettings(self.settings));
                }
            },
            AppMsg::SetClock(clock) => {
                if clock != self.settings.clock {
                    self.settings.clock = clock;
                    actions.push(Action::SaveSettings(self.settings));
                }
            },
            AppMsg::SetAlerts(alerts) => {
                if alerts != self.settings.alerts {
                    self.settings.alerts = alerts;
                    actions.push(Action::SaveSettings(self.settings));
                }
            },
            AppMsg::SetTheme(theme) => {
                if theme != self.settings.theme {
                    self.settings.theme = theme;
                    actions.push(Action::ApplyTheme(theme));
                    actions.push(Action::SaveSettings(self.settings));
                }
            },
            AppMsg::ShowRecordings => {
                actions.push(Action::ShowRecordings);
            },
            AppMsg::ShowPreferences => {
                actions.push(Action::ShowPreferences);
            },
            AppMsg::ShowShortcuts => {
                actions.push(Action::ShowShortcuts);
            },
            AppMsg::ShowAbout => {
                actions.push(Action::ShowAbout);
            },
        }
        actions
    }
}

} // verus!

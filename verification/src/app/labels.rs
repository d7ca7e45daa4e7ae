//! What the window shows.

use vstd::prelude::*;

use super::{AppModel, RECORD_GAP, SMOOTH_SECS};
use crate::battery::types::{Battery, Status};
use crate::decimal::{
    fixed, integer, natural, push_fixed, push_integer, push_natural, round, rounded,
};
use crate::duration::{Duration, NANOS};
use crate::format::{duration, duration_text, percent, percent_text, text, unit, unit_text, EMPTY};
use crate::micro::{abs, clip, clipped, div_nearest, nearest, Micro};
use crate::recordings::{
    after_merging, merge, models, recorded, runs_in, Point, Run, RunModel, SERIES_POINTS,
};
use crate::text::{lowercase, to_lowercase};

verus! {

/// Below this the average says nothing that the live reading does not: 0.1 W.
pub const DRIFT: Micro = 100_000;

/// The slowest pace worth telling: 0.05 percent an hour.
pub const SLOWEST: Micro = 50_000;

/// The whole seconds of a length.
proof fn lemma_whole_seconds(length: Duration)
    requires
        length.wf(),
    ensures
        length.secs == length.length() / (NANOS as int),
{
}

impl AppModel {
    pub open spec fn subtitle_text(self) -> Seq<char> {
        match self.battery {
            Some(battery) => match (battery.manufacturer, battery.model) {
                (Some(make), Some(model)) => make@ + " "@ + model@,
                (None, Some(model)) => model@,
                _ => battery.name@,
            },
            None => seq![],
        }
    }

    /// Which battery this is.
    pub fn subtitle(&self) -> (r: String)
        ensures
            r@ == self.subtitle_text(),
    {
        match &self.battery {
            Some(battery) => match (&battery.manufacturer, &battery.model) {
                (Some(make), Some(model)) => {
                    let mut out = make.clone();
                    out.append(" ");
                    out.append(model.as_str());
                    out
                },
                (None, Some(model)) => model.clone(),
                _ => battery.name.clone(),
            },
            None => String::new(),
        }
    }

    pub fn icon_name(&self) -> (r: String)
        ensures
            r@ == match self.battery {
                Some(battery) => battery.status.icon_text(),
                None => "battery-missing-symbolic"@,
            },
    {
        match &self.battery {
            Some(battery) => battery.icon_name(),
            None => "battery-missing-symbolic".to_owned(),
        }
    }

    pub fn percent_label(&self) -> (r: String)
        ensures
            r@ == match self.battery {
                Some(battery) => percent_text(battery.percent as int),
                None => EMPTY@,
            },
    {
        match &self.battery {
            Some(battery) => percent(battery.percent),
            None => EMPTY.to_owned(),
        }
    }

    /// The power of the newest reading.
    pub open spec fn live_power(self) -> Option<Micro> {
        match self.battery {
            Some(battery) => battery.power,
            None => None,
        }
    }

    fn live(&self) -> (r: Option<Micro>)
        ensures
            r == self.live_power(),
    {
        match &self.battery {
            Some(battery) => battery.power,
            None => None,
        }
    }

    /// The trailing average of the power.
    pub open spec fn average_power(self) -> Option<int> {
        self.power_window.trailing_power(SMOOTH_SECS as int, self.poll_gap())
    }

    /// The rate the estimates run on.
    pub open spec fn rate(self) -> Option<int> {
        match self.average_power() {
            Some(power) => Some(power),
            None => match self.live_power() {
                Some(power) => Some(power as int),
                None => None,
            },
        }
    }

    /// The rate the estimates run on: the trailing average, falling back to the
    /// live reading until there is enough history to average.
    pub fn smoothed_power(&self) -> (r: Option<Micro>)
        ensures
            match r {
                Some(power) => self.rate() == Some(power as int),
                None => self.rate() is None,
            },
    {
        match self.power_window.recent_power(SMOOTH_SECS, self.poll_gap_secs()) {
            Some(power) => Some(power),
            None => self.live(),
        }
    }

    /// How many seconds are left at the smoothed rate.
    pub open spec fn seconds_left(self) -> Option<int> {
        match (self.battery, self.rate()) {
            (Some(battery), Some(power)) => match battery.nanos_at(power) {
                Some(nanos) => Some(nanos / (NANOS as int)),
                None => None,
            },
            _ => None,
        }
    }

    pub open spec fn status_text(self) -> Seq<char> {
        match self.battery {
            Some(battery) => match (battery.status, self.seconds_left()) {
                (Status::Discharging, Some(left)) => "Discharging · "@ + duration_text(left)
                    + " left"@,
                (Status::Charging, Some(left)) => "Charging · "@ + duration_text(left)
                    + " until full"@,
                (status, _) => status.label_text(),
            },
            None => seq![],
        }
    }

    /// "Charging · 1 h 12 min until full": the headline the app exists for.
    pub fn status_label(&self) -> (r: String)
        ensures
            r@ == self.status_text(),
    {
        let battery = match &self.battery {
            Some(battery) => battery,
            None => {
                return String::new();
            },
        };
        let remaining = match self.smoothed_power() {
            Some(power) => battery.time_remaining_at(power),
            None => None,
        };
        match (battery.status, remaining) {
            (Status::Discharging, Some(left)) => {
                proof {
                    lemma_whole_seconds(left);
                }
                let mut out = "Discharging · ".to_owned();
                let told = duration(left);
                out.append(told.as_str());
                out.append(" left");
                out
            },
            (Status::Charging, Some(left)) => {
                proof {
                    lemma_whole_seconds(left);
                }
                let mut out = "Charging · ".to_owned();
                let told = duration(left);
                out.append(told.as_str());
                out.append(" until full");
                out
            },
            (status, _) => status.label().to_owned(),
        }
    }

    pub open spec fn caption_text(self) -> Seq<char> {
        if self.history@.len() < 2 || self.history.span() < 60 {
            "Collecting samples…"@
        } else {
            "Last "@ + duration_text(self.history.span())
        }
    }

    /// The graph's caption. Below a minute there is nothing to read yet, so it
    /// says so rather than drawing a misleading near-flat line.
    pub fn history_caption(&self) -> (r: String)
        ensures
            r@ == self.caption_text(),
    {
        let span: u64 = self.history.span_secs();
        if self.history.len() < 2 || span < 60 {
            "Collecting samples…".to_owned()
        } else {
            let mut out = "Last ".to_owned();
            let told = duration(Duration::from_secs(span));
            out.append(told.as_str());
            out
        }
    }

    /// How full the bar is, in millionths.
    pub open spec fn fullness(self) -> int {
        match self.battery {
            Some(battery) => nearest(battery.percent as int, 100),
            None => 0,
        }
    }

    /// How full the bar is, in millionths.
    pub fn level(&self) -> (r: Micro)
        ensures
            r == self.fullness(),
    {
        match &self.battery {
            Some(battery) => div_nearest(battery.percent as i128, 100) as i64,
            None => 0,
        }
    }

    pub fn power_title(&self) -> (r: &'static str)
        ensures
            r@ == match self.battery {
                Some(battery) => match battery.status {
                    Status::Charging => "Intake"@,
                    Status::Discharging => "Draw"@,
                    _ => "Power"@,
                },
                None => "Power"@,
            },
    {
        match &self.battery {
            Some(battery) => match battery.status {
                Status::Charging => "Intake",
                Status::Discharging => "Draw",
                _ => "Power",
            },
            None => "Power",
        }
    }

    pub fn power_label(&self) -> (r: String)
        ensures
            r@ == unit_text(self.live_power(), 1, "W"@),
    {
        unit(self.live(), 1, "W")
    }

    pub open spec fn power_subtitle_text(self) -> Seq<char> {
        match (self.average_power(), self.live_power()) {
            (Some(average), Some(live)) => if abs(average - live) < DRIFT {
                seq![]
            } else {
                fixed(average, 1) + " W average"@
            },
            _ => seq![],
        }
    }

    /// Shown only once the average has drifted from the live reading: until
    /// then it would just repeat the number on the right of the same row.
    pub fn power_subtitle(&self) -> (r: String)
        ensures
            r@ == self.power_subtitle_text(),
    {
        let average = self.power_window.recent_power(SMOOTH_SECS, self.poll_gap_secs());
        match (average, self.live()) {
            (Some(average), Some(live)) => {
                let drift: i128 = average as i128 - live as i128;
                if -(DRIFT as i128) < drift && drift < DRIFT as i128 {
                    String::new()
                } else {
                    let mut out = String::new();
                    push_fixed(&mut out, average, 1);
                    out.append(" W average");
                    out
                }
            },
            _ => String::new(),
        }
    }

    pub fn voltage_label(&self) -> (r: String)
        ensures
            r@ == unit_text(
                match self.battery {
                    Some(battery) => battery.voltage,
                    None => None,
                },
                2,
                "V"@,
            ),
    {
        let voltage = match &self.battery {
            Some(battery) => battery.voltage,
            None => None,
        };
        unit(voltage, 2, "V")
    }

    pub open spec fn charge_text(self) -> Seq<char> {
        match self.battery {
            Some(battery) => match (battery.energy_now, battery.energy_full) {
                (Some(now), Some(full)) => fixed(now as int, 1) + " of "@ + fixed(full as int, 1)
                    + " Wh"@,
                _ => EMPTY@,
            },
            None => EMPTY@,
        }
    }

    pub fn charge_label(&self) -> (r: String)
        ensures
            r@ == self.charge_text(),
    {
        match &self.battery {
            Some(battery) => match (battery.energy_now, battery.energy_full) {
                (Some(now), Some(full)) => {
                    let mut out = String::new();
                    push_fixed(&mut out, now, 1);
                    out.append(" of ");
                    push_fixed(&mut out, full, 1);
                    out.append(" Wh");
                    assert(out@ == self.charge_text());
                    out
                },
                _ => EMPTY.to_owned(),
            },
            None => EMPTY.to_owned(),
        }
    }

    pub fn source_label(&self) -> (r: String)
        ensures
            r@ == match self.battery {
                Some(battery) => if battery.on_ac {
                    "AC adapter"@
                } else {
                    "Battery"@
                },
                None => EMPTY@,
            },
    {
        match &self.battery {
            Some(battery) => if battery.on_ac {
                "AC adapter".to_owned()
            } else {
                "Battery".to_owned()
            },
            None => EMPTY.to_owned(),
        }
    }

    pub open spec fn health_text(self) -> Seq<char> {
        match self.battery {
            Some(battery) => match battery.wear() {
                Some(health) => percent_text(health),
                None => EMPTY@,
            },
            None => EMPTY@,
        }
    }

    pub fn health_label(&self) -> (r: String)
        ensures
            r@ == self.health_text(),
    {
        match &self.battery {
            Some(battery) => match battery.health() {
                Some(health) => percent(health),
                None => EMPTY.to_owned(),
            },
            None => EMPTY.to_owned(),
        }
    }

    pub open spec fn health_subtitle_text(self) -> Seq<char> {
        match self.battery {
            Some(battery) => match (battery.energy_full, battery.energy_design) {
                (Some(full), Some(design)) => fixed(full as int, 1) + " Wh of "@ + fixed(
                    design as int,
                    1,
                ) + " Wh when new"@,
                _ => seq![],
            },
            None => seq![],
        }
    }

    pub fn health_subtitle(&self) -> (r: String)
        ensures
            r@ == self.health_subtitle_text(),
    {
        match &self.battery {
            Some(battery) => match (battery.energy_full, battery.energy_design) {
                (Some(full), Some(design)) => {
                    let mut out = String::new();
                    push_fixed(&mut out, full, 1);
                    out.append(" Wh of ");
                    push_fixed(&mut out, design, 1);
                    out.append(" Wh when new");
                    assert(out@ == self.health_subtitle_text());
                    out
                },
                _ => String::new(),
            },
            None => String::new(),
        }
    }

    pub open spec fn cycles_text(self) -> Seq<char> {
        match self.battery {
            Some(battery) => match battery.cycle_count {
                Some(count) => natural(count as nat),
                None => EMPTY@,
            },
            None => EMPTY@,
        }
    }

    pub fn cycles_label(&self) -> (r: String)
        ensures
            r@ == self.cycles_text(),
    {
        match &self.battery {
            Some(battery) => match battery.cycle_count {
                Some(count) => {
                    let mut out = String::new();
                    push_natural(&mut out, count as u64);
                    assert(out@ == self.cycles_text());
                    out
                },
                None => EMPTY.to_owned(),
            },
            None => EMPTY.to_owned(),
        }
    }

    pub fn technology_label(&self) -> (r: String)
        ensures
            r@ == match self.battery {
                Some(battery) => match battery.technology {
                    Some(technology) => technology@,
                    None => EMPTY@,
                },
                None => EMPTY@,
            },
    {
        match &self.battery {
            Some(battery) => text(battery.technology.as_ref()),
            None => EMPTY.to_owned(),
        }
    }

    /// The runs to list: those known, with the run in progress as it stands now.
    ///
    /// Derived fresh, not read straight off the model: a run can only *complete*
    /// where a trend changes, so that is when the model's are derived, while the
    /// run in progress moves continuously. Nothing of this is persisted.
    pub fn recordings_view(&self) -> (r: Vec<Run>)
        ensures
            models(r@) == after_merging(models(self.recordings@), recorded(self.history@)),
    {
        let mut view: Vec<Run> = Vec::new();
        let mut i: usize = 0;
        assert(models(view@) == models(self.recordings@).take(0));
        while i < self.recordings.len()
            invariant
                i <= self.recordings@.len(),
                models(view@) == models(self.recordings@).take(i as int),
            decreases self.recordings@.len() - i,
        {
            let ghost before = view@;
            view.push(self.recordings[i].copy());
            assert(models(view@) == models(before).push(self.recordings@[i as int]@));
            assert(models(self.recordings@).take(i + 1) == models(self.recordings@).take(
                i as int,
            ).push(models(self.recordings@)[i as int]));
            i += 1;
        }
        assert(models(self.recordings@).take(i as int) == models(self.recordings@));
        let derived = runs_in(&self.history);
        merge(&mut view, derived);
        view
    }
}

/// The title of a page that has no runs to list.
pub fn empty_title(title: &str) -> (r: String)
    ensures
        r@ == "No "@ + lowercase(title@) + " Yet"@,
{
    let mut out = "No ".to_owned();
    let lower = to_lowercase(title);
    out.append(lower.as_str());
    out.append(" Yet");
    out
}

// ---------------------------------------------------------------------------
// One run

/// Where the charge went: "80% → 40%".
pub open spec fn run_title(run: RunModel) -> Seq<char> {
    integer(rounded(run.from_percent as int)) + "% → "@ + integer(
        rounded(run.to_percent as int),
    ) + "%"@
}

/// When the run started, how long it took, and where they say anything its pace
/// and its power.
pub open spec fn run_subtitle(run: RunModel, time: Seq<char>) -> Seq<char> {
    let pace = match run.pace() {
        Some(rate) => if rate > SLOWEST {
            " · "@ + fixed(rate, 1) + "%/h"@
        } else {
            seq![]
        },
        None => seq![],
    };
    let power = match run.watts {
        Some(watts) => " · "@ + fixed(watts as int, 1) + " W"@,
        None => seq![],
    };
    time + " · "@ + duration_text(run.lasted()) + pace + power
}

/// One run as a row of the list.
#[derive(Debug, Clone, PartialEq)]
pub struct Row {
    pub title: String,
    pub subtitle: String,
    /// Marked as still running.
    pub in_progress: bool,
    /// There is a graph to expand into.
    pub expands: bool,
}

/// The moment of a run that `time` is the text of: seconds since the epoch, none
/// before it.
pub fn row_moment(run: &Run) -> (r: i64)
    ensures
        r == if run.started > 0 {
            run.started
        } else {
            0
        },
{
    if run.started > 0 {
        run.started
    } else {
        0
    }
}

/// How far apart two points of a stored series lie before the line breaks between
/// them. The points stand at the cadence of recording until there are too many of
/// them; once thinned they stand further apart, more than half of `SERIES_POINTS`
/// of them are left, and the measure is the distance that they keep on average.
pub open spec fn series_gap(points: Seq<Point>) -> int {
    let usual = if points.len() <= SERIES_POINTS / 2 {
        0
    } else {
        clipped(3 * (points.last().0 - points[0].0) / (points.len() - 1))
    };
    if usual > RECORD_GAP {
        usual
    } else {
        RECORD_GAP as int
    }
}

/// The gap by which the graph of a run is broken, in millionths of a second.
pub fn row_gap(run: &Run) -> (r: Micro)
    ensures
        r == series_gap(run@.series),
{
    let n = run.series.len();
    if n <= SERIES_POINTS / 2 {
        return RECORD_GAP;
    }
    let span: i128 = run.series[n - 1].0 as i128 - run.series[0].0 as i128;
    let apart: i128 = (n - 1) as i128;
    if span <= 0 {
        assert(3 * span / apart as int <= 0) by (nonlinear_arith)
            requires
                span <= 0,
                apart > 0,
        ;
        return RECORD_GAP;
    }
    let usual: Micro = clip(3 * span / apart);
    if usual > RECORD_GAP {
        usual
    } else {
        RECORD_GAP
    }
}

/// One run: where the charge went, and how long it took to get there. `time` is
/// the time of day at which it started.
pub fn recording_row(run: &Run, time: &str) -> (r: Row)
    ensures
        r.title@ == run_title(run@),
        r.subtitle@ == run_subtitle(run@, time@),
        r.in_progress == run.in_progress,
        r.expands == (run@.series.len() >= 2),
{
    let mut title = String::new();
    push_integer(&mut title, round(run.from_percent));
    title.append("% → ");
    push_integer(&mut title, round(run.to_percent));
    title.append("%");
    assert(title@ == run_title(run@));

    let mut subtitle = time.to_owned();
    subtitle.append(" · ");
    let length = duration(run.elapsed());
    subtitle.append(length.as_str());
    let ghost head = subtitle@;
    if let Some(rate) = run.rate() {
        if rate > SLOWEST {
            subtitle.append(" · ");
            push_fixed(&mut subtitle, rate, 1);
            subtitle.append("%/h");
        }
    }
    let ghost paced = subtitle@;
    assert(paced == head + match run@.pace() {
        Some(rate) => if rate > SLOWEST {
            " · "@ + fixed(rate, 1) + "%/h"@
        } else {
            seq![]
        },
        None => seq![],
    });
    if let Some(watts) = run.watts {
        subtitle.append(" · ");
        push_fixed(&mut subtitle, watts, 1);
        subtitle.append(" W");
    }
    assert(subtitle@ == run_subtitle(run@, time@));

    // A run with no stored shape, an older line, has nothing to expand into, so
    // it stays a plain row rather than offering an empty drawer.
    Row { title, subtitle, in_progress: run.in_progress, expands: run.series.len() >= 2 }
}

} // verus!

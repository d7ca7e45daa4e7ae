//! Completed runs: one discharge or one charge, start to finish.
//!
//! The sample ring cannot answer "the last five discharges": it holds a day, and
//! a day is not five cycles. So runs are summarised into their own small file,
//! which is tiny and long-lived where samples are bulky and short-lived.
//!
//! Each run carries **its own series**, at most `SERIES_POINTS` pairs of
//! `offset:percent`, so it stays drawable long after its samples have aged out
//! of the ring.
//!
//! The offsets are kept rather than resampled onto an even grid. An even grid
//! has to invent a value for every slot, including the slots inside a gap, so a
//! discharge containing an eight-hour sleep drew exactly like one that did not.
//! Downsampling by stride keeps real observations and lets a gap stay a gap.

pub mod books;
pub mod laws;
pub mod stretches;

use vstd::prelude::*;

use crate::battery::history::{average, elapsed, elapsed_secs, mean, readings, History, Sample};
use crate::battery::types::Status;
use crate::decimal::{decimal, fixed};
use crate::decimal::{natural, push_fixed, push_natural, read_decimal};
use crate::duration::Duration;
use crate::micro::{abs, clip, clipped, div_nearest, nearest, Micro, UNIT};
use crate::order::{in_order, lemma_place, place, sort, Timed};
use crate::store::{moment, power_of, power_text};
use crate::store::{push_power, read_moment, read_power};
use crate::text::{chars_of, cut, fields, joined};
use crate::text::{same, split, split_once, trim, trimmed, views};

verus! {

/// Shorter than this and it is not a run, it is the gauge twitching. Half the
/// runs in the first real history were blips: a 30-second `full`, and two
/// sub-two-minute discharge fragments.
pub const MIN_RUN_SECS: u64 = 300;

/// Enough to shape a small graph, few enough to keep a line short.
pub const SERIES_POINTS: usize = 64;

/// How many of each kind are kept on disk. Five are shown; the rest are slack so
/// the file does not have to be rewritten on every completed run.
pub const KEEP_PER_KIND: usize = 20;

/// How many of each kind the dialog lists.
pub const SHOWN_PER_KIND: usize = 5;

#[derive(Debug, Clone, Copy, PartialEq, Eq, Structural)]
pub enum Kind {
    Discharge,
    Charge,
}

impl Kind {
    /// The kind of run that a reading belongs to. `Full` and `Not charging` end a
    /// run rather than starting one: reaching full *is* the end of a charge.
    pub open spec fn of_status(status: Status) -> Option<Kind> {
        match status {
            Status::Discharging => Some(Kind::Discharge),
            Status::Charging => Some(Kind::Charge),
            _ => None,
        }
    }

    pub fn of(status: Status) -> (r: Option<Self>)
        ensures
            r == Kind::of_status(status),
    {
        match status {
            Status::Discharging => Some(Kind::Discharge),
            Status::Charging => Some(Kind::Charge),
            _ => None,
        }
    }

    pub open spec fn key_text(self) -> Seq<char> {
        match self {
            Kind::Discharge => "discharge"@,
            Kind::Charge => "charge"@,
        }
    }

    pub fn as_key(self) -> (r: &'static str)
        ensures
            r@ == self.key_text(),
    {
        match self {
            Kind::Discharge => "discharge",
            Kind::Charge => "charge",
        }
    }

    pub open spec fn keyed(key: Seq<char>) -> Option<Kind> {
        if key == "discharge"@ {
            Some(Kind::Discharge)
        } else if key == "charge"@ {
            Some(Kind::Charge)
        } else {
            None
        }
    }

    pub fn from_key(key: &str) -> (r: Option<Self>)
        ensures
            r == Kind::keyed(key@),
    {
        let word = chars_of(key);
        Kind::of_key(word.as_slice())
    }

    pub(crate) fn of_key(key: &[char]) -> (r: Option<Self>)
        ensures
            r == Kind::keyed(key@),
    {
        if same(key, "discharge") {
            Some(Kind::Discharge)
        } else if same(key, "charge") {
            Some(Kind::Charge)
        } else {
            None
        }
    }
}

/// A kind survives being written as its key and read back.
pub proof fn law_kind_keys_round_trip(kind: Kind)
    ensures
        Kind::keyed(kind.key_text()) == Some(kind),
{
    reveal_strlit("discharge");
    reveal_strlit("charge");
    assert("discharge"@[0] == 'd' && "charge"@[0] == 'c');
}

/// `(seconds from the start, percent)`, both in millionths.
pub type Point = (Micro, Micro);

#[derive(Debug, Clone, PartialEq)]
pub struct Run {
    pub kind: Kind,
    /// Seconds since the epoch.
    pub started: i64,
    pub ended: i64,
    pub from_percent: Micro,
    pub to_percent: Micro,
    /// Mean of the readings taken during the run, in µW.
    pub watts: Option<Micro>,
    /// Real observations, thinned but not interpolated, so the gaps within a run
    /// survive.
    pub series: Vec<Point>,
    /// Still running: `ended` is simply the newest reading so far.
    pub in_progress: bool,
}

/// What a run says, its series as a sequence.
#[verifier::ext_equal]
pub struct RunModel {
    pub kind: Kind,
    pub started: i64,
    pub ended: i64,
    pub from_percent: Micro,
    pub to_percent: Micro,
    pub watts: Option<Micro>,
    pub series: Seq<Point>,
    pub in_progress: bool,
}

impl View for Run {
    type V = RunModel;

    open spec fn view(&self) -> RunModel {
        RunModel {
            kind: self.kind,
            started: self.started,
            ended: self.ended,
            from_percent: self.from_percent,
            to_percent: self.to_percent,
            watts: self.watts,
            series: self.series@,
            in_progress: self.in_progress,
        }
    }
}

impl Timed for Run {
    open spec fn time(&self) -> int {
        self.started as int
    }

    fn when(&self) -> (r: i64) {
        self.started
    }
}

impl<'a> Timed for &'a Run {
    open spec fn time(&self) -> int {
        self.started as int
    }

    fn when(&self) -> (r: i64) {
        self.started
    }
}

impl RunModel {
    /// How long the run took, in seconds.
    pub open spec fn lasted(self) -> int {
        elapsed(self.started as int, self.ended as int)
    }

    /// Charge moved, as a positive magnitude in either direction.
    pub open spec fn change(self) -> int {
        clipped(abs(self.to_percent - self.from_percent))
    }

    /// Percent per hour.
    pub open spec fn pace(self) -> Option<int> {
        if self.lasted() > 0 {
            Some(clipped(nearest(self.change() * 3600, self.lasted())))
        } else {
            None
        }
    }

    pub open spec fn is_long(self) -> bool {
        self.lasted() >= MIN_RUN_SECS
    }
}

impl Run {
    pub fn elapsed(&self) -> (r: Duration)
        ensures
            r.wf(),
            r == (Duration { secs: self@.lasted() as u64, nanos: 0 }),
    {
        Duration::from_secs(elapsed_secs(self.started, self.ended))
    }

    /// Charge moved, as a positive magnitude in either direction.
    pub fn moved(&self) -> (r: Micro)
        ensures
            r == self@.change(),
    {
        let difference: i128 = self.to_percent as i128 - self.from_percent as i128;
        if difference < 0 {
            clip(-difference)
        } else {
            clip(difference)
        }
    }

    /// Percent per hour, the number that makes two runs comparable.
    pub fn rate(&self) -> (r: Option<Micro>)
        ensures
            match r {
                Some(rate) => self@.pace() == Some(rate as int),
                None => self@.pace() is None,
            },
    {
        let secs: u64 = elapsed_secs(self.started, self.ended);
        if secs > 0 {
            Some(clip(div_nearest(self.moved() as i128 * 3600, secs as i128)))
        } else {
            None
        }
    }

    fn long_enough(&self) -> (r: bool)
        ensures
            r == self@.is_long(),
    {
        elapsed_secs(self.started, self.ended) >= MIN_RUN_SECS
    }
}

// ---------------------------------------------------------------------------
// Thinning

/// How far apart the points are that are kept.
pub open spec fn stride(n: int) -> int {
    (n + SERIES_POINTS - 1) / (SERIES_POINTS as int)
}

/// Every `step`th of the points, from the first on.
pub open spec fn every(points: Seq<Point>, step: int) -> Seq<Point> {
    Seq::new(((points.len() + step - 1) / step) as nat, |k: int| points[k * step])
}

/// At most `SERIES_POINTS` of the points, the first and the last among them.
pub open spec fn thinned(points: Seq<Point>) -> Seq<Point> {
    if points.len() <= SERIES_POINTS {
        points
    } else {
        let taken = every(points, stride(points.len() as int));
        let last = points.last();
        if taken.last() == last {
            taken
        } else if taken.len() < SERIES_POINTS {
            taken.push(last)
        } else {
            taken.drop_last().push(last)
        }
    }
}

proof fn lemma_stride(n: int)
    requires
        n > SERIES_POINTS,
    ensures
        2 <= stride(n) <= n,
        0 < (n + stride(n) - 1) / stride(n) <= SERIES_POINTS,
        forall|k: int|
            0 <= k < (n + stride(n) - 1) / stride(n) ==> 0 <= #[trigger] (k * stride(n)) < n,
        ((n + stride(n) - 1) / stride(n)) * stride(n) >= n,
        (n + stride(n) - 1) / stride(n) >= 2,
{
    let s = stride(n);
    let c = (n + s - 1) / s;
    assert(64 * s >= n);
    assert(c * s <= n + s - 1 < c * s + s) by (nonlinear_arith)
        requires
            c == (n + s - 1) / s,
            s > 0,
    ;
    assert(c <= 64) by (nonlinear_arith)
        requires
            c * s <= n + s - 1,
            64 * s >= n,
            s > 0,
    ;
    assert(c >= 2) by (nonlinear_arith)
        requires
            n + s - 1 < c * s + s,
            n > s,
            s > 0,
    ;
    assert forall|k: int| 0 <= k < c implies 0 <= #[trigger] (k * s) < n by {
        assert(0 <= k * s <= (c - 1) * s) by (nonlinear_arith)
            requires
                0 <= k <= c - 1,
                s > 0,
        ;
        assert((c - 1) * s == c * s - s) by (nonlinear_arith);
    }
}

/// Thin the points to at most `SERIES_POINTS`, keeping every one that survives
/// as an actual observation.
///
/// Deliberately not an interpolation onto an even grid: that has to invent a
/// value for every slot, gaps included, which is precisely the information a run
/// graph should not lose.
fn downsample(points: &Vec<Point>) -> (r: Vec<Point>)
    ensures
        r@ == thinned(points@),
{
    let n = points.len();
    let mut out: Vec<Point> = Vec::new();
    if n <= SERIES_POINTS {
        let mut i: usize = 0;
        while i < n
            invariant
                i <= n,
                n == points@.len(),
                out@ == points@.take(i as int),
            decreases n - i,
        {
            out.push(points[i]);
            i += 1;
        }
        assert(points@.take(n as int) == points@);
        return out;
    }
    let step: usize = if n % SERIES_POINTS == 0 {
        n / SERIES_POINTS
    } else {
        n / SERIES_POINTS + 1
    };
    assert(step == stride(n as int));
    let ghost all = every(points@, step as int);
    proof {
        lemma_stride(n as int);
    }
    let mut i: usize = 0;
    let ghost mut k: int = 0;
    while i < n
        invariant
            n == points@.len(),
            n > SERIES_POINTS,
            step == stride(n as int),
            all == every(points@, step as int),
            0 <= k <= all.len(),
            i == k * step || (i == n && k == all.len()),
            i < n ==> k < all.len(),
            i >= n ==> k == all.len(),
            out@ == all.take(k),
        decreases n - i,
    {
        proof {
            lemma_stride(n as int);
            let c = all.len() as int;
            assert((k + 1) * step == k * step + step) by (nonlinear_arith);
            if k + 1 < c {
                assert(0 <= (k + 1) * step < n);
            } else {
                assert(k + 1 == c);
            }
            assert(all[k] == points@[k * step]);
        }
        out.push(points[i]);
        proof {
            assert(all.take(k + 1) == all.take(k).push(all[k]));
            k = k + 1;
        }
        // The next point, or the end where there is none.
        if n - i > step {
            i += step;
        } else {
            i = n;
        }
    }
    assert(all.take(k) == all);
    proof {
        lemma_stride(n as int);
    }
    let last: Point = points[n - 1];
    let kept: Point = out[out.len() - 1];
    // The end of a run is its most interesting point; never let stride drop it.
    if last.0 != kept.0 || last.1 != kept.1 {
        if out.len() == SERIES_POINTS {
            out.pop();
        }
        out.push(last);
    }
    out
}

// ---------------------------------------------------------------------------
// Runs in a history

/// Whether the charge moved the way a run of this kind moves it, or stayed.
pub open spec fn moves_on(kind: Kind, before: int, after: int) -> bool {
    match kind {
        Kind::Discharge => after <= before,
        Kind::Charge => after >= before,
    }
}

/// Whether a reading belongs to the run of the one before it.
///
/// A gap does **not** end a run when the trend matches on both sides and the
/// charge kept moving the same way; without that, one 73-minute discharge came
/// back as three fragments split by app restarts. If the charge moved the other
/// way across the gap, something was plugged in unobserved and the run is split.
pub open spec fn goes_on(s: Seq<Sample>, i: int) -> bool {
    &&& 0 < i < s.len()
    &&& Kind::of_status(s[i].status) == Kind::of_status(s[i - 1].status)
    &&& Kind::of_status(s[i].status) matches Some(kind) && (s[i].follows.is_gap() ==> moves_on(
        kind,
        s[i - 1].percent as int,
        s[i].percent as int,
    ))
}

/// The first reading from `i` on that does not belong to the run before it.
pub open spec fn run_end(s: Seq<Sample>, i: int) -> int
    decreases s.len() - i,
{
    if goes_on(s, i) {
        run_end(s, i + 1)
    } else {
        i
    }
}

/// A reading as a point of a run that started at `start`.
pub open spec fn point_of(start: int, x: Sample) -> Point {
    (clipped(elapsed(start, x.at as int) * UNIT) as i64, x.percent)
}

/// The readings from `a` to before `b` as points of a run that started at `a`.
pub open spec fn points_of(s: Seq<Sample>, a: int, b: int) -> Seq<Point> {
    s.subrange(a, b).map_values(|x: Sample| point_of(s[a].at as int, x))
}

/// The run that starts with reading `a`.
///
/// The reading that ended the run is its endpoint: a charge that stopped because
/// the battery filled should read as reaching 100%, and its shape has to reach
/// 100% too, or the row and the graph disagree.
pub open spec fn run_at(s: Seq<Sample>, a: int) -> RunModel {
    let b = run_end(s, a + 1);
    let ending = if b < s.len() {
        b
    } else {
        b - 1
    };
    RunModel {
        kind: Kind::of_status(s[a].status)->0,
        started: s[a].at,
        ended: s[ending].at,
        from_percent: s[a].percent,
        to_percent: s[ending].percent,
        watts: match average(readings(s.subrange(a, b))) {
            Some(watts) => Some(watts as i64),
            None => None,
        },
        series: thinned(points_of(s, a, ending + 1)),
        in_progress: b == s.len(),
    }
}

/// Every run from reading `i` on, blips included.
pub open spec fn runs_from(s: Seq<Sample>, i: int) -> Seq<RunModel>
    decreases s.len() - i,
{
    if i < 0 || i >= s.len() {
        seq![]
    } else if Kind::of_status(s[i].status) is None {
        runs_from(s, i + 1)
    } else {
        proof {
            lemma_run_end_bounds(s, i + 1);
        }
        seq![run_at(s, i)] + runs_from(s, run_end(s, i + 1))
    }
}

pub open spec fn long() -> spec_fn(RunModel) -> bool {
    |run: RunModel| run.is_long()
}

/// Every run the readings cover, oldest first.
pub open spec fn recorded(s: Seq<Sample>) -> Seq<RunModel> {
    runs_from(s, 0).filter(long())
}

pub open spec fn models(v: Seq<Run>) -> Seq<RunModel> {
    v.map_values(|run: Run| run@)
}

pub proof fn lemma_run_end_bounds(s: Seq<Sample>, i: int)
    requires
        0 <= i <= s.len(),
    ensures
        i <= run_end(s, i) <= s.len(),
        !goes_on(s, run_end(s, i)),
        forall|k: int| i <= k < run_end(s, i) ==> goes_on(s, k),
    decreases s.len() - i,
{
    if goes_on(s, i) {
        lemma_run_end_bounds(s, i + 1);
    }
}

proof fn lemma_run_end(s: Seq<Sample>, i: int, b: int)
    requires
        i <= b <= s.len(),
        !goes_on(s, b),
        forall|k: int| i <= k < b ==> goes_on(s, k),
    ensures
        run_end(s, i) == b,
    decreases b - i,
{
    if i < b {
        assert(goes_on(s, i));
        lemma_run_end(s, i + 1, b);
    }
}

/// A run being accumulated.
struct Open {
    kind: Kind,
    started: i64,
    from_percent: Micro,
    last: i64,
    last_percent: Micro,
    watts: Vec<Micro>,
    points: Vec<Point>,
}

/// A reading as a point of a run.
pub(crate) fn point(start: i64, sample: &Sample) -> (r: Point)
    ensures
        r == point_of(start as int, *sample),
{
    (clip(elapsed_secs(start, sample.at) as i128 * 1_000_000), sample.percent)
}

impl Open {
    /// This is the run that started with reading `a`, as far as reading `b`.
    spec fn covers(self, s: Seq<Sample>, a: int, b: int) -> bool {
        &&& 0 <= a < b <= s.len()
        &&& Kind::of_status(s[a].status) == Some(self.kind)
        &&& self.started == s[a].at
        &&& self.from_percent == s[a].percent
        &&& self.last == s[b - 1].at
        &&& self.last_percent == s[b - 1].percent
        &&& self.watts@ == readings(s.subrange(a, b))
        &&& self.points@ == points_of(s, a, b)
        &&& forall|k: int| a < k < b ==> goes_on(s, k)
        &&& forall|k: int|
            a <= k < b ==> Kind::of_status((#[trigger] s[k]).status) == Some(self.kind)
    }

    fn start(kind: Kind, sample: &Sample, Ghost(s): Ghost<Seq<Sample>>, Ghost(a): Ghost<int>) -> (r:
        Self)
        requires
            0 <= a < s.len(),
            s[a] == *sample,
            Kind::of_status(sample.status) == Some(kind),
        ensures
            r.covers(s, a, a + 1),
    {
        let mut open = Open {
            kind,
            started: sample.at,
            from_percent: sample.percent,
            last: sample.at,
            last_percent: sample.percent,
            watts: Vec::new(),
            points: Vec::new(),
        };
        assert(s.subrange(a, a) == Seq::<Sample>::empty());
        assert(points_of(s, a, a) == Seq::<Point>::empty());
        open.push(sample, Ghost(s), Ghost(a), Ghost(a));
        open
    }

    fn push(
        &mut self,
        sample: &Sample,
        Ghost(s): Ghost<Seq<Sample>>,
        Ghost(a): Ghost<int>,
        Ghost(b): Ghost<int>,
    )
        requires
            0 <= a <= b < s.len(),
            s[b] == *sample,
            Kind::of_status(s[a].status) == Some(old(self).kind),
            old(self).started == s[a].at,
            old(self).from_percent == s[a].percent,
            old(self).watts@ == readings(s.subrange(a, b)),
            old(self).points@ == points_of(s, a, b),
            b > a ==> old(self).covers(s, a, b) && goes_on(s, b),
        ensures
            final(self).covers(s, a, b + 1),
    {
        self.last = sample.at;
        self.last_percent = sample.percent;
        assert(s.subrange(a, b + 1).drop_last() == s.subrange(a, b));
        if let Some(power) = sample.power {
            self.watts.push(power);
        }
        self.points.push(point(self.started, sample));
        assert(points_of(s, a, b + 1) == points_of(s, a, b).push(
            point_of(s[a].at as int, *sample),
        ));
    }

    /// Whether `sample` belongs to this run despite a gap before it.
    fn survives(&self, sample: &Sample, broken: bool) -> (r: bool)
        ensures
            r == (broken ==> moves_on(
                self.kind,
                self.last_percent as int,
                sample.percent as int,
            )),
    {
        if !broken {
            return true;
        }
        match self.kind {
            // Charge kept falling across the gap: still the same discharge.
            Kind::Discharge => sample.percent <= self.last_percent,
            Kind::Charge => sample.percent >= self.last_percent,
        }
    }

    fn finish(
        self,
        ending: Option<&Sample>,
        in_progress: bool,
        Ghost(s): Ghost<Seq<Sample>>,
        Ghost(a): Ghost<int>,
        Ghost(b): Ghost<int>,
    ) -> (r: Run)
        requires
            self.covers(s, a, b),
            !goes_on(s, b),
            match ending {
                Some(sample) => b < s.len() && *sample == s[b],
                None => b == s.len(),
            },
            in_progress == (b == s.len()),
        ensures
            r@ == run_at(s, a),
    {
        proof {
            lemma_run_end(s, a + 1, b);
        }
        let watts = mean(&self.watts);
        let mut points = self.points;
        let (ended, to_percent) = match ending {
            Some(sample) => {
                points.push(point(self.started, sample));
                assert(points_of(s, a, b + 1) == points_of(s, a, b).push(
                    point_of(s[a].at as int, *sample),
                ));
                (sample.at, sample.percent)
            },
            None => (self.last, self.last_percent),
        };
        Run {
            kind: self.kind,
            started: self.started,
            ended,
            from_percent: self.from_percent,
            to_percent,
            watts,
            series: downsample(&points),
            in_progress,
        }
    }
}

/// Every run the history covers, oldest first. The last one may be in progress.
pub fn runs_in(history: &History) -> (r: Vec<Run>)
    ensures
        models(r@) == recorded(history@),
{
    let ghost s = history@;
    let mut runs: Vec<Run> = Vec::new();
    let mut open: Option<Open> = None;
    let ghost mut a: int = 0;
    let ghost mut done: Seq<RunModel> = seq![];
    let n = history.len();
    let mut i: usize = 0;
    assert(done + runs_from(s, 0) == runs_from(s, 0));
    assert(models(runs@) == done.filter(long())) by {
        assert(done.filter(long()).len() == 0);
    }
    while i < n
        invariant
            i <= n,
            n == s.len(),
            s == history@,
            models(runs@) == done.filter(long()),
            match open {
                Some(current) => current.covers(s, a, i as int),
                None => a == i,
            },
            runs_from(s, 0) == done + runs_from(s, a),
        decreases n - i,
    {
        let sample = history.at(i);
        let kind = Kind::of(sample.status);
        let broken = sample.follows.gap();
        let mut next: Option<Open> = None;
        match open {
            Some(mut current) => {
                let same_kind = match kind {
                    Some(kind) => current.kind == kind,
                    None => false,
                };
                assert(Kind::of_status(s[i - 1].status) == Some(current.kind));
                if same_kind && current.survives(&sample, broken) {
                    // The run continues, unless a gap makes it a different one.
                    current.push(&sample, Ghost(s), Ghost(a), Ghost(i as int));
                    next = Some(current);
                } else {
                    // Any other reading closes whatever was open.
                    let ghost before = runs@;
                    let ghost finished = done;
                    let run = current.finish(
                        Some(&sample),
                        false,
                        Ghost(s),
                        Ghost(a),
                        Ghost(i as int),
                    );
                    proof {
                        lemma_run_end(s, a + 1, i as int);
                        done = done.push(run@);
                        assert(finished + runs_from(s, a) == done + runs_from(s, i as int));
                        lemma_filter_push(finished, run@);
                    }
                    if run.long_enough() {
                        runs.push(run);
                        assert(models(runs@) == models(before).push(run@));
                    }
                    if let Some(kind) = kind {
                        next = Some(Open::start(kind, &sample, Ghost(s), Ghost(i as int)));
                        proof {
                            a = i as int;
                        }
                    } else {
                        proof {
                            a = i + 1;
                        }
                    }
                }
            },
            None => {
                if let Some(kind) = kind {
                    next = Some(Open::start(kind, &sample, Ghost(s), Ghost(i as int)));
                } else {
                    proof {
                        a = i + 1;
                    }
                }
            },
        }
        open = next;
        i += 1;
    }
    if let Some(current) = open {
        let ghost before = runs@;
        let run = current.finish(None, true, Ghost(s), Ghost(a), Ghost(n as int));
        proof {
            lemma_run_end(s, a + 1, n as int);
            lemma_filter_push(done, run@);
            assert(runs_from(s, n as int) == Seq::<RunModel>::empty());
            assert(runs_from(s, a) == seq![run@]);
            assert(done + runs_from(s, a) == done.push(run@));
        }
        if run.long_enough() {
            runs.push(run);
            assert(models(runs@) == models(before).push(run@));
        }
    } else {
        assert(done + runs_from(s, a) == done);
    }
    runs
}

proof fn lemma_filter_push(done: Seq<RunModel>, run: RunModel)
    ensures
        done.push(run).filter(long()) == if run.is_long() {
            done.filter(long()).push(run)
        } else {
            done.filter(long())
        },
{
    reveal(Seq::filter);
    assert(done.push(run).drop_last() == done);
}

// ---------------------------------------------------------------------------
// The known runs

/// Where the first run with this start stands; the length where there is none.
pub open spec fn started_at(known: Seq<RunModel>, started: int) -> int
    decreases known.len(),
{
    if known.len() == 0 || known[0].started == started {
        0
    } else {
        1 + started_at(known.drop_first(), started)
    }
}

/// The known runs with one more folded in: it takes the place of the one that
/// started when it did, where there is one.
pub open spec fn with_run(known: Seq<RunModel>, run: RunModel) -> Seq<RunModel> {
    let i = started_at(known, run.started as int);
    if i >= known.len() {
        known.push(run)
    } else if known[i] == run {
        known
    } else {
        known.update(i, run)
    }
}

/// Whether folding the run in changes anything.
pub open spec fn is_news(known: Seq<RunModel>, run: RunModel) -> bool {
    let i = started_at(known, run.started as int);
    i >= known.len() || known[i] != run
}

/// The known runs with all of `derived` folded in, one after another.
pub open spec fn folded(known: Seq<RunModel>, derived: Seq<RunModel>) -> Seq<RunModel>
    decreases derived.len(),
{
    if derived.len() == 0 {
        known
    } else {
        with_run(folded(known, derived.drop_last()), derived.last())
    }
}

/// What is known once `derived` was merged in, oldest first.
pub open spec fn after_merging(known: Seq<RunModel>, derived: Seq<RunModel>) -> Seq<RunModel> {
    in_order(folded(known, derived))
}

/// Whether folding `derived` in changes anything.
pub open spec fn any_news(known: Seq<RunModel>, derived: Seq<RunModel>) -> bool
    decreases derived.len(),
{
    derived.len() > 0 && (any_news(known, derived.drop_last()) || is_news(
        folded(known, derived.drop_last()),
        derived.last(),
    ))
}

pub proof fn lemma_started_at(known: Seq<RunModel>, started: int)
    ensures
        0 <= started_at(known, started) <= known.len(),
        started_at(known, started) < known.len() ==> known[started_at(known, started)].started
            == started,
        forall|j: int|
            0 <= j < started_at(known, started) ==> (#[trigger] known[j]).started != started,
    decreases known.len(),
{
    if known.len() > 0 && known[0].started != started {
        let rest = known.drop_first();
        lemma_started_at(rest, started);
        assert forall|j: int| 0 <= j < started_at(known, started) implies (
        #[trigger] known[j]).started != started by {
            if j > 0 {
                assert(known[j] == rest[j - 1]);
            }
        }
    }
}

/// `started_at` is the only position with these properties.
proof fn lemma_started_at_unique(known: Seq<RunModel>, started: int, i: int)
    requires
        0 <= i <= known.len(),
        i < known.len() ==> known[i].started == started,
        forall|j: int| 0 <= j < i ==> (#[trigger] known[j]).started != started,
    ensures
        started_at(known, started) == i,
    decreases known.len(),
{
    if i > 0 {
        assert(known[0].started != started);
        let rest = known.drop_first();
        assert forall|j: int| 0 <= j < i - 1 implies (#[trigger] rest[j]).started != started by {
            assert(rest[j] == known[j + 1]);
        }
        lemma_started_at_unique(rest, started, i - 1);
    }
}

fn same_points(a: &Vec<Point>, b: &Vec<Point>) -> (r: bool)
    ensures
        r == (a@ == b@),
{
    if a.len() != b.len() {
        return false;
    }
    let mut i: usize = 0;
    while i < a.len()
        invariant
            i <= a@.len(),
            a@.len() == b@.len(),
            forall|j: int| 0 <= j < i ==> a@[j] == b@[j],
        decreases a@.len() - i,
    {
        if a[i].0 != b[i].0 || a[i].1 != b[i].1 {
            return false;
        }
        i += 1;
    }
    assert(a@ =~= b@);
    true
}

fn same_reading(a: Option<Micro>, b: Option<Micro>) -> (r: bool)
    ensures
        r == (a == b),
{
    match (a, b) {
        (Some(a), Some(b)) => a == b,
        (None, None) => true,
        _ => false,
    }
}

impl Run {
    /// Whether two runs say the same.
    pub fn same_as(&self, other: &Run) -> (r: bool)
        ensures
            r == (self@ == other@),
    {
        self.kind == other.kind && self.started == other.started && self.ended == other.ended
            && self.from_percent == other.from_percent && self.to_percent == other.to_percent
            && same_reading(self.watts, other.watts) && same_points(&self.series, &other.series)
            && self.in_progress == other.in_progress
    }

    /// A run that says the same.
    pub fn copy(&self) -> (r: Run)
        ensures
            r@ == self@,
    {
        let mut series: Vec<Point> = Vec::new();
        let mut i: usize = 0;
        while i < self.series.len()
            invariant
                i <= self.series@.len(),
                series@ == self.series@.take(i as int),
            decreases self.series@.len() - i,
        {
            series.push(self.series[i]);
            i += 1;
        }
        assert(series@ == self.series@);
        Run {
            kind: self.kind,
            started: self.started,
            ended: self.ended,
            from_percent: self.from_percent,
            to_percent: self.to_percent,
            watts: self.watts,
            series,
            in_progress: self.in_progress,
        }
    }
}

/// Merge freshly derived runs into the known set, keyed by when they started.
/// A run already there is replaced, so an in-progress run becomes its completed
/// self rather than a duplicate. Tells whether anything changed.
pub fn merge(known: &mut Vec<Run>, derived: Vec<Run>) -> (r: bool)
    ensures
        models(final(known)@) == after_merging(models(old(known)@), models(derived@)),
        r == any_news(models(old(known)@), models(derived@)),
{
    let ghost given = models(known@);
    let ghost all = models(derived@);
    let mut rest = derived;
    let mut pending: Vec<Run> = Vec::new();
    // Turned round, so that the first is taken first.
    while rest.len() > 0
        invariant
            models(rest@) + models(pending@).reverse() == all,
        decreases rest@.len(),
    {
        let ghost before = rest@;
        let ghost turned = pending@;
        if let Some(run) = rest.pop() {
            pending.push(run);
            assert(models(pending@) == models(turned).push(run@));
            assert(models(pending@).reverse() == seq![run@] + models(turned).reverse());
            assert(before == rest@.push(run));
            assert(models(before) == models(rest@).push(run@));
            assert(models(rest@) + models(pending@).reverse() == models(before) + models(
                turned,
            ).reverse());
        }
    }
    assert(models(pending@).reverse() == all);
    let mut changed = false;
    let ghost mut k: int = 0;
    assert(all.take(0) == Seq::<RunModel>::empty());
    while pending.len() > 0
        invariant
            0 <= k <= all.len(),
            pending@.len() == all.len() - k,
            models(pending@).reverse() == all.skip(k),
            models(known@) == folded(given, all.take(k)),
            changed == any_news(given, all.take(k)),
        decreases pending@.len(),
    {
        let ghost before = models(pending@);
        let ghost base = known@;
        if let Some(run) = pending.pop() {
            proof {
                assert(before == models(pending@).push(run@));
                assert(before.reverse()[0] == run@);
                assert(all.skip(k)[0] == all[k]);
                assert(models(pending@).reverse() == before.reverse().drop_first());
                assert(all.skip(k).drop_first() == all.skip(k + 1));
                assert(all.take(k + 1).drop_last() == all.take(k));
                assert(all.take(k + 1).last() == run@);
            }
            let mut i: usize = 0;
            while i < known.len() && known[i].started != run.started
                invariant
                    i <= known@.len(),
                    known@ == base,
                    forall|j: int|
                        0 <= j < i ==> (#[trigger] models(known@)[j]).started != run.started,
                decreases known@.len() - i,
            {
                i += 1;
            }
            proof {
                lemma_started_at_unique(models(base), run.started as int, i as int);
            }
            let ghost told = run@;
            if i == known.len() {
                known.push(run);
                changed = true;
                assert(models(known@) == models(base).push(told));
            } else if !known[i].same_as(&run) {
                known.set(i, run);
                changed = true;
                assert(models(known@) == models(base).update(i as int, told));
            }
            proof {
                k = k + 1;
            }
        }
    }
    assert(all.take(k) == all);
    proof {
        lemma_models_in_order(known@);
    }
    sort(known);
    changed
}

/// The runs of one kind that are still running, or those that are finished, in the
/// order given.
pub open spec fn of_kind<'a>(runs: Seq<Run>, kind: Kind, in_progress: bool) -> Seq<&'a Run>
    decreases runs.len(),
{
    if runs.len() == 0 {
        seq![]
    } else {
        let rest = of_kind(runs.drop_last(), kind, in_progress);
        if runs.last().kind == kind && runs.last().in_progress == in_progress {
            rest.push(&runs.last())
        } else {
            rest
        }
    }
}

fn pick<'a>(runs: &'a [Run], kind: Kind, in_progress: bool) -> (r: Vec<&'a Run>)
    ensures
        r@ == of_kind(runs@, kind, in_progress),
{
    let mut out: Vec<&'a Run> = Vec::new();
    let mut i: usize = 0;
    assert(runs@.take(0) == Seq::<Run>::empty());
    while i < runs.len()
        invariant
            i <= runs@.len(),
            out@ == of_kind(runs@.take(i as int), kind, in_progress),
        decreases runs@.len() - i,
    {
        assert(runs@.take(i + 1).drop_last() == runs@.take(i as int));
        let run: &'a Run = &runs[i];
        if run.kind == kind && run.in_progress == in_progress {
            out.push(run);
        }
        i += 1;
    }
    assert(runs@.take(i as int) == runs@);
    out
}

/// At most `n` of the sequence, from the front.
pub open spec fn first_of<T>(s: Seq<T>, n: nat) -> Seq<T> {
    if s.len() > n {
        s.take(n as int)
    } else {
        s
    }
}

/// At most `n` of the sequence, from the end.
pub open spec fn last_of<T>(s: Seq<T>, n: nat) -> Seq<T> {
    if s.len() > n {
        s.skip(s.len() - n)
    } else {
        s
    }
}

/// The runs of one kind that are still running, or those that are finished, newest
/// first.
pub open spec fn newest_first<'a>(runs: Seq<Run>, kind: Kind, in_progress: bool) -> Seq<&'a Run> {
    in_order(of_kind(runs, kind, in_progress)).reverse()
}

/// What the dialog lists of one kind.
pub open spec fn listed<'a>(runs: Seq<Run>, kind: Kind) -> Seq<&'a Run> {
    first_of(
        newest_first(runs, kind, true) + newest_first(runs, kind, false),
        SHOWN_PER_KIND as nat,
    )
}

/// Adds to a list the newest runs of one kind that are still running, or those
/// that are finished, as far as there is room.
fn push_newest<'a>(out: &mut Vec<&'a Run>, runs: &'a [Run], kind: Kind, in_progress: bool)
    requires
        old(out)@.len() <= SHOWN_PER_KIND,
    ensures
        final(out)@ == first_of(
            old(out)@ + newest_first(runs@, kind, in_progress),
            SHOWN_PER_KIND as nat,
        ),
{
    let ghost start = out@;
    let mut of: Vec<&'a Run> = pick(runs, kind, in_progress);
    sort(&mut of);
    let ghost sorted = of@;
    let ghost all = start + sorted.reverse();
    let mut i: usize = of.len();
    assert(all.take(start.len() as int) == start);
    while i > 0 && out.len() < SHOWN_PER_KIND
        invariant
            of@ == sorted,
            all == start + sorted.reverse(),
            i <= sorted.len(),
            out@.len() == start.len() + sorted.len() - i,
            out@.len() <= SHOWN_PER_KIND,
            out@ == all.take(out@.len() as int),
        decreases i,
    {
        let ghost before = out@;
        out.push(of[i - 1]);
        assert(all[before.len() as int] == sorted[i - 1]);
        assert(all.take(out@.len() as int) == all.take(before.len() as int).push(sorted[i - 1]));
        i -= 1;
    }
    assert(all.take(all.len() as int) == all);
}

/// The newest `SHOWN_PER_KIND` of one kind, newest first, with any in-progress
/// run at the front where it is most useful.
pub fn latest<'a>(runs: &'a [Run], kind: Kind) -> (r: Vec<&'a Run>)
    ensures
        r@ == listed(runs@, kind),
{
    let mut out: Vec<&'a Run> = Vec::new();
    push_newest(&mut out, runs, kind, true);
    let ghost going = newest_first(runs@, kind, true);
    let ghost over = newest_first(runs@, kind, false);
    let ghost n = SHOWN_PER_KIND as nat;
    assert(Seq::<&Run>::empty() + going == going);
    assert(out@ == first_of(going, n));
    push_newest(&mut out, runs, kind, false);
    assert(first_of(first_of(going, n) + over, n) == first_of(going + over, n));
    out
}

/// What the file keeps of one kind.
pub open spec fn saved_of<'a>(runs: Seq<Run>, kind: Kind) -> Seq<&'a Run> {
    last_of(in_order(of_kind(runs, kind, false)), KEEP_PER_KIND as nat)
}

/// What the file keeps: of each kind, the newest finished runs.
pub open spec fn saved<'a>(runs: Seq<Run>) -> Seq<&'a Run> {
    in_order(saved_of(runs, Kind::Discharge) + saved_of(runs, Kind::Charge))
}

fn newest<'a>(runs: &'a [Run], kind: Kind) -> (r: Vec<&'a Run>)
    ensures
        r@ == saved_of(runs@, kind),
{
    let mut of: Vec<&'a Run> = pick(runs, kind, false);
    sort(&mut of);
    let ghost sorted = of@;
    let mut out: Vec<&'a Run> = Vec::new();
    let from: usize = if of.len() > KEEP_PER_KIND {
        of.len() - KEEP_PER_KIND
    } else {
        0
    };
    let mut i: usize = from;
    assert(sorted.subrange(from as int, from as int) == Seq::<&Run>::empty());
    while i < of.len()
        invariant
            of@ == sorted,
            from <= i <= sorted.len(),
            out@ == sorted.subrange(from as int, i as int),
        decreases sorted.len() - i,
    {
        out.push(of[i]);
        assert(sorted.subrange(from as int, i + 1) == sorted.subrange(from as int, i as int).push(
            sorted[i as int],
        ));
        i += 1;
    }
    assert(out@ == last_of(sorted, KEEP_PER_KIND as nat));
    out
}

/// What the file keeps: the newest `KEEP_PER_KIND` finished runs of each kind,
/// oldest first.
pub fn keep<'a>(runs: &'a [Run]) -> (r: Vec<&'a Run>)
    ensures
        r@ == saved(runs@),
{
    let mut kept: Vec<&'a Run> = newest(runs, Kind::Discharge);
    let mut charges: Vec<&'a Run> = newest(runs, Kind::Charge);
    kept.append(&mut charges);
    sort(&mut kept);
    kept
}

// ---------------------------------------------------------------------------
// The file

/// A point as the file has it.
pub open spec fn point_text(point: Point) -> Seq<char> {
    fixed(point.0 as int, 0) + seq![':'] + fixed(point.1 as int, 1)
}

pub open spec fn series_text(series: Seq<Point>) -> Seq<char> {
    joined(series.map_values(|point: Point| point_text(point)), ',')
}

/// The columns of a run's line.
pub open spec fn columns(run: RunModel) -> Seq<Seq<char>> {
    seq![
        run.kind.key_text(),
        natural(run.started as nat),
        natural(run.ended as nat),
        fixed(run.from_percent as int, 1),
        fixed(run.to_percent as int, 1),
        power_text(run.watts),
        series_text(run.series),
    ]
}

/// A run's line, with the line end.
pub open spec fn written(run: RunModel) -> Seq<char> {
    joined(columns(run), '\t').push('\n')
}

proof fn lemma_joined_seven(
    a: Seq<char>,
    b: Seq<char>,
    c: Seq<char>,
    d: Seq<char>,
    e: Seq<char>,
    f: Seq<char>,
    g: Seq<char>,
)
    ensures
        joined(seq![a, b, c, d, e, f, g], '\t') == a + seq!['\t'] + b + seq!['\t'] + c
            + seq!['\t'] + d + seq!['\t'] + e + seq!['\t'] + f + seq!['\t'] + g,
{
    let p = seq![a, b, c, d, e, f, g];
    let p1 = p.drop_first();
    let p2 = p1.drop_first();
    let p3 = p2.drop_first();
    let p4 = p3.drop_first();
    let p5 = p4.drop_first();
    assert(p1 == seq![b, c, d, e, f, g]);
    assert(p2 == seq![c, d, e, f, g]);
    assert(p3 == seq![d, e, f, g]);
    assert(p4 == seq![e, f, g]);
    assert(p5 == seq![f, g]);
    assert(p5.drop_first() == seq![g]);
    reveal_with_fuel(joined, 7);
    assert(joined(p, '\t') == a + seq!['\t'] + b + seq!['\t'] + c + seq!['\t'] + d + seq!['\t']
        + e + seq!['\t'] + f + seq!['\t'] + g);
}

proof fn lemma_joined_push(parts: Seq<Seq<char>>, more: Seq<char>, sep: char)
    requires
        parts.len() > 0,
    ensures
        joined(parts.push(more), sep) == joined(parts, sep) + seq![sep] + more,
    decreases parts.len(),
{
    let all = parts.push(more);
    if parts.len() == 1 {
        assert(all.drop_first() == seq![more]);
        assert(joined(seq![more], sep) == more);
    } else {
        lemma_joined_push(parts.drop_first(), more, sep);
        assert(all.drop_first() == parts.drop_first().push(more));
    }
    assert(joined(all, sep) == joined(parts, sep) + seq![sep] + more);
}

fn push_series(out: &mut String, series: &Vec<Point>)
    ensures
        final(out)@ == old(out)@ + series_text(series@),
{
    let ghost start = out@;
    let mut i: usize = 0;
    assert(start + Seq::<char>::empty() == start);
    assert(series@.take(0).map_values(|point: Point| point_text(point)) == Seq::<
        Seq<char>,
    >::empty());
    while i < series.len()
        invariant
            i <= series@.len(),
            out@ == start + series_text(series@.take(i as int)),
        decreases series@.len() - i,
    {
        let ghost parts = series@.take(i as int).map_values(|point: Point| point_text(point));
        let ghost more = point_text(series@[i as int]);
        assert(series@.take(i + 1).map_values(|point: Point| point_text(point)) == parts.push(
            more,
        ));
        proof {
            if i > 0 {
                lemma_joined_push(parts, more, ',');
            } else {
                assert(parts.push(more) == seq![more]);
            }
        }
        if i > 0 {
            out.push(',');
        }
        push_fixed(out, series[i].0, 0);
        out.push(':');
        push_fixed(out, series[i].1, 1);
        assert(out@ == start + joined(parts.push(more), ','));
        i += 1;
    }
    assert(series@.take(i as int) == series@);
}

/// The line for a run. A run from before the epoch has none.
pub fn line(run: &Run) -> (r: Option<String>)
    ensures
        match r {
            Some(text) => run.started >= 0 && run.ended >= 0 && text@ == written(run@),
            None => run.started < 0 || run.ended < 0,
        },
{
    if run.started < 0 || run.ended < 0 {
        return None;
    }
    let mut out = String::new();
    out.append(run.kind.as_key());
    out.push('\t');
    push_natural(&mut out, run.started as u64);
    out.push('\t');
    push_natural(&mut out, run.ended as u64);
    out.push('\t');
    push_fixed(&mut out, run.from_percent, 1);
    out.push('\t');
    push_fixed(&mut out, run.to_percent, 1);
    out.push('\t');
    push_power(&mut out, run.watts);
    out.push('\t');
    push_series(&mut out, &run.series);
    proof {
        let c = columns(run@);
        lemma_joined_seven(c[0], c[1], c[2], c[3], c[4], c[5], c[6]);
        assert(out@ == joined(c, '\t'));
    }
    out.push('\n');
    Some(out)
}

/// A point as the file has it; `None` where it is not a pair of numbers.
pub open spec fn point_in(part: Seq<char>) -> Option<Point> {
    match cut(part, ':') {
        Some((at, percent)) => match (decimal(at), decimal(percent)) {
            (Some(at), Some(percent)) => Some((at as i64, percent as i64)),
            _ => None,
        },
        None => None,
    }
}

/// Pairs only. A line from the first format stored bare percentages with no
/// offsets; those cannot say where a gap was, so they load as no series at all
/// and the run simply shows without a plot.
pub open spec fn points_in(parts: Seq<Seq<char>>) -> Seq<Point>
    decreases parts.len(),
{
    if parts.len() == 0 {
        seq![]
    } else {
        let rest = points_in(parts.drop_last());
        match point_in(parts.last()) {
            Some(point) => rest.push(point),
            None => rest,
        }
    }
}

/// The run on a line.
pub open spec fn parsed(line: Seq<char>) -> Option<RunModel> {
    let f = fields(line, '\t');
    if f.len() < 6 {
        None
    } else {
        match (
            Kind::keyed(trimmed(f[0])),
            moment(f[1]),
            moment(f[2]),
            decimal(f[3]),
            decimal(f[4]),
            power_of(f[5]),
        ) {
            (
                Some(kind),
                Some(started),
                Some(ended),
                Some(from_percent),
                Some(to_percent),
                Some(watts),
            ) => Some(
                RunModel {
                    kind,
                    started: started as i64,
                    ended: ended as i64,
                    from_percent: from_percent as i64,
                    to_percent: to_percent as i64,
                    watts,
                    series: if f.len() > 6 {
                        points_in(fields(trimmed(f[6]), ','))
                    } else {
                        seq![]
                    },
                    in_progress: false,
                },
            ),
            _ => None,
        }
    }
}

fn read_point(part: &[char]) -> (r: Option<Point>)
    ensures
        r == point_in(part@),
{
    match split_once(part, ':') {
        Some((at, percent)) => match (read_decimal(at), read_decimal(percent)) {
            (Some(at), Some(percent)) => Some((at, percent)),
            _ => None,
        },
        None => None,
    }
}

fn read_series(field: &[char]) -> (r: Vec<Point>)
    ensures
        r@ == points_in(fields(trimmed(field@), ',')),
{
    let parts = split(trim(field), ',');
    let ghost ps = views(parts@);
    let mut out: Vec<Point> = Vec::new();
    let mut i: usize = 0;
    assert(ps.take(0) == Seq::<Seq<char>>::empty());
    while i < parts.len()
        invariant
            i <= parts@.len(),
            ps == views(parts@),
            out@ == points_in(ps.take(i as int)),
        decreases parts@.len() - i,
    {
        assert(ps.take(i + 1).drop_last() == ps.take(i as int));
        assert(ps.take(i + 1).last() == parts@[i as int]@);
        if let Some(point) = read_point(parts[i]) {
            out.push(point);
        }
        i += 1;
    }
    assert(ps.take(i as int) == ps);
    out
}

/// The run on a line; `None` where the line is not one.
pub fn parse(line: &str) -> (r: Option<Run>)
    ensures
        match r {
            Some(run) => parsed(line@) == Some(run@),
            None => parsed(line@) is None,
        },
{
    let all = chars_of(line);
    let f = split(all.as_slice(), '\t');
    let ghost fs = fields(line@, '\t');
    assert(f@.len() == fs.len());
    assert forall|i: int| 0 <= i < f@.len() implies (#[trigger] f@[i])@ == fs[i] by {
        assert(views(f@)[i] == f@[i]@);
    }
    if f.len() < 6 {
        return None;
    }
    let kind = Kind::of_key(trim(f[0]));
    let started = read_moment(f[1]);
    let ended = read_moment(f[2]);
    let from_percent = read_decimal(f[3]);
    let to_percent = read_decimal(f[4]);
    let watts = read_power(f[5]);
    match (kind, started, ended, from_percent, to_percent, watts) {
        (
            Some(kind),
            Some(started),
            Some(ended),
            Some(from_percent),
            Some(to_percent),
            Some(watts),
        ) => {
            let series: Vec<Point> = if f.len() > 6 {
                read_series(f[6])
            } else {
                Vec::new()
            };
            Some(
                Run {
                    kind,
                    started,
                    ended,
                    from_percent,
                    to_percent,
                    watts,
                    series,
                    in_progress: false,
                },
            )
        },
        _ => None,
    }
}

/// The runs on the lines, in the order of the lines.
pub open spec fn loaded(lines: Seq<String>) -> Seq<RunModel>
    decreases lines.len(),
{
    if lines.len() == 0 {
        seq![]
    } else {
        let rest = loaded(lines.drop_last());
        match parsed(lines.last()@) {
            Some(run) => rest.push(run),
            None => rest,
        }
    }
}

impl Timed for RunModel {
    open spec fn time(&self) -> int {
        self.started as int
    }

    fn when(&self) -> (r: i64) {
        self.started
    }
}

/// Runs in order say the same as what they say, in order.
proof fn lemma_models_in_order(runs: Seq<Run>)
    ensures
        models(in_order(runs)) == in_order(models(runs)),
    decreases runs.len(),
{
    if runs.len() > 0 {
        let init = runs.drop_last();
        lemma_models_in_order(init);
        assert(models(runs).drop_last() == models(init));
        let rest = in_order(init);
        let x = runs.last();
        lemma_models_place(rest, x.time());
        lemma_place(rest, x.time());
        let at = place(rest, x.time());
        assert(models(rest.insert(at, x)) == models(rest).insert(at, x@));
    }
}

proof fn lemma_models_place(runs: Seq<Run>, t: int)
    ensures
        place(models(runs), t) == place(runs, t),
    decreases runs.len(),
{
    if runs.len() > 0 {
        lemma_models_place(runs.drop_last(), t);
        assert(models(runs).drop_last() == models(runs.drop_last()));
        assert(models(runs).last() == runs.last()@);
    }
}

/// Every recorded run, oldest first. No lines are a first run.
pub fn load(lines: &Vec<String>) -> (r: Vec<Run>)
    ensures
        models(r@) == in_order(loaded(lines@)),
{
    let mut runs: Vec<Run> = Vec::new();
    let mut i: usize = 0;
    assert(lines@.take(0) == Seq::<String>::empty());
    assert(models(runs@) == Seq::<RunModel>::empty());
    while i < lines.len()
        invariant
            i <= lines@.len(),
            models(runs@) == loaded(lines@.take(i as int)),
        decreases lines@.len() - i,
    {
        let ghost before = runs@;
        assert(lines@.take(i + 1).drop_last() == lines@.take(i as int));
        if let Some(run) = parse(lines[i].as_str()) {
            runs.push(run);
            assert(models(runs@) == models(before).push(run@));
        }
        i += 1;
    }
    assert(lines@.take(i as int) == lines@);
    proof {
        lemma_models_in_order(runs@);
    }
    sort(&mut runs);
    runs
}

/// The lines of the runs, one after another.
pub open spec fn file_text(runs: Seq<&Run>) -> Seq<char>
    decreases runs.len(),
{
    if runs.len() == 0 {
        seq![]
    } else {
        file_text(runs.drop_last()) + if runs.last().started >= 0 && runs.last().ended >= 0 {
            written(runs.last()@)
        } else {
            seq![]
        }
    }
}

/// The text to replace the file with: the newest `KEEP_PER_KIND` finished runs
/// of each kind.
///
/// Rewritten rather than appended: a run completing is rare, a handful a day,
/// and rewriting a file of at most forty lines keeps the trimming in one place.
pub fn save(runs: &[Run]) -> (r: String)
    ensures
        r@ == file_text(saved(runs@)),
{
    let kept = keep(runs);
    let mut out = String::new();
    let mut i: usize = 0;
    assert(kept@.take(0) == Seq::<&Run>::empty());
    while i < kept.len()
        invariant
            i <= kept@.len(),
            out@ == file_text(kept@.take(i as int)),
        decreases kept@.len() - i,
    {
        assert(kept@.take(i + 1).drop_last() == kept@.take(i as int));
        match line(kept[i]) {
            Some(text) => {
                out.append(text.as_str());
            },
            None => {
                assert(out@ + Seq::<char>::empty() == out@);
            },
        }
        i += 1;
    }
    assert(kept@.take(i as int) == kept@);
    out
}

} // verus!

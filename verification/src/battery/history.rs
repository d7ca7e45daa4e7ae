//! The sample ring behind the graph, the estimates and the recorded runs.
//!
//! Times are whole seconds since the epoch, on the wall clock: a ring in any
//! finer unit would not survive the history file, and a monotonic clock would
//! not survive a suspend.

use std::collections::vec_deque::Iter;
use std::collections::VecDeque;

use vstd::prelude::*;
use vstd::std_specs::iter::IteratorSpec;

use super::types::Status;
use crate::micro::{div_nearest, nearest, Micro};
use crate::order::{ordered, Timed};
use crate::text::{chars_of, same};

verus! {

/// What came before a sample: the previous poll, or a stretch in which nothing
/// could be read, because the machine slept or the app was not running.
#[derive(Debug, Clone, Copy, PartialEq, Eq, Structural)]
pub enum Follows {
    Poll,
    Sleep,
    Launch,
}

impl Default for Follows {
    fn default() -> (r: Self)
        ensures
            r == Follows::Poll,
    {
        Follows::Poll
    }
}

impl Follows {
    /// The marker in the history file; an ordinary poll has none.
    pub open spec fn key_text(self) -> Seq<char> {
        match self {
            Follows::Poll => ""@,
            Follows::Sleep => "sleep"@,
            Follows::Launch => "launch"@,
        }
    }

    pub fn as_key(self) -> (r: &'static str)
        ensures
            r@ == self.key_text(),
    {
        match self {
            Follows::Poll => "",
            Follows::Sleep => "sleep",
            Follows::Launch => "launch",
        }
    }

    /// What a marker stands for. An unrecognised one says nothing.
    pub open spec fn keyed(key: Seq<char>) -> Self {
        if key == "sleep"@ {
            Follows::Sleep
        } else if key == "launch"@ {
            Follows::Launch
        } else {
            Follows::Poll
        }
    }

    pub fn from_key(key: &str) -> (r: Self)
        ensures
            r == Follows::keyed(key@),
    {
        let word = chars_of(key);
        Follows::of_key(word.as_slice())
    }

    pub(crate) fn of_key(key: &[char]) -> (r: Self)
        ensures
            r == Follows::keyed(key@),
    {
        if same(key, "sleep") {
            Follows::Sleep
        } else if same(key, "launch") {
            Follows::Launch
        } else {
            Follows::Poll
        }
    }

    /// Whether nothing was read for a while before the sample.
    pub open spec fn is_gap(self) -> bool {
        self == Follows::Sleep || self == Follows::Launch
    }

    pub fn gap(self) -> (r: bool)
        ensures
            r == self.is_gap(),
    {
        match self {
            Follows::Sleep => true,
            Follows::Launch => true,
            Follows::Poll => false,
        }
    }
}

/// A marker survives being written as its key and read back.
pub proof fn law_follows_keys_round_trip(follows: Follows)
    ensures
        Follows::keyed(follows.key_text()) == follows,
{
    reveal_strlit("");
    reveal_strlit("sleep");
    reveal_strlit("launch");
    assert(""@.len() == 0 && "sleep"@.len() == 5 && "launch"@.len() == 6);
}

/// One poll's worth of the values worth keeping.
#[derive(Debug, Clone, Copy, PartialEq, Eq, Structural)]
pub struct Sample {
    /// Seconds since the epoch.
    pub at: i64,
    pub percent: Micro,
    pub power: Option<Micro>,
    pub status: Status,
    pub follows: Follows,
}

impl Timed for Sample {
    open spec fn time(&self) -> int {
        self.at as int
    }

    fn when(&self) -> (r: i64) {
        self.at
    }
}

/// The time from one moment to another; none where the second is not later.
pub open spec fn elapsed(from: int, to: int) -> int {
    if to > from {
        to - from
    } else {
        0
    }
}

/// Seconds from one moment to another; none where the second is not later.
pub fn elapsed_secs(from: i64, to: i64) -> (r: u64)
    ensures
        r == elapsed(from as int, to as int),
{
    if to > from {
        (to as i128 - from as i128) as u64
    } else {
        0
    }
}

// ---------------------------------------------------------------------------
// Averages

/// The power readings among the samples, in order.
pub open spec fn readings(s: Seq<Sample>) -> Seq<Micro>
    decreases s.len(),
{
    if s.len() == 0 {
        seq![]
    } else {
        let rest = readings(s.drop_last());
        match s.last().power {
            Some(power) => rest.push(power),
            None => rest,
        }
    }
}

pub open spec fn total(r: Seq<Micro>) -> int
    decreases r.len(),
{
    if r.len() == 0 {
        0
    } else {
        total(r.drop_last()) + r.last()
    }
}

/// The mean of some readings; none of no readings.
pub open spec fn average(r: Seq<Micro>) -> Option<int> {
    if r.len() == 0 {
        None
    } else {
        Some(nearest(total(r), r.len() as int))
    }
}

proof fn lemma_total_bound(r: Seq<Micro>)
    ensures
        -0x8000_0000_0000_0000 * r.len() <= total(r) <= 0x7fff_ffff_ffff_ffff * r.len(),
    decreases r.len(),
{
    if r.len() > 0 {
        lemma_total_bound(r.drop_last());
    }
}

proof fn lemma_mean_bound(a: int, n: int, m: int)
    requires
        0 <= a <= n * m,
        n > 0,
        m >= 0,
    ensures
        0 <= nearest(a, n) <= m,
{
    let q = a / n;
    let rest = a % n;
    assert(a == n * q + rest && 0 <= rest < n && q >= 0) by (nonlinear_arith)
        requires
            q == a / n,
            rest == a % n,
            n > 0,
            a >= 0,
    ;
    assert(q <= m && (q == m ==> rest == 0)) by (nonlinear_arith)
        requires
            a == n * q + rest,
            0 <= rest < n,
            a <= n * m,
            n > 0,
    ;
}

/// The mean of some readings.
pub fn mean(r: &Vec<Micro>) -> (m: Option<Micro>)
    ensures
        match m {
            Some(m) => average(r@) == Some(m as int),
            None => average(r@) is None,
        },
{
    if r.len() == 0 {
        return None;
    }
    let mut sum: i128 = 0;
    let mut i: usize = 0;
    assert(r@.take(0) == Seq::<Micro>::empty());
    while i < r.len()
        invariant
            i <= r@.len(),
            sum == total(r@.take(i as int)),
        decreases r@.len() - i,
    {
        assert(r@.take(i + 1).drop_last() == r@.take(i as int));
        proof {
            lemma_total_bound(r@.take(i + 1));
        }
        sum = sum + r[i] as i128;
        i += 1;
    }
    assert(r@.take(i as int) == r@);
    proof {
        lemma_total_bound(r@);
        let n = r@.len() as int;
        if total(r@) >= 0 {
            lemma_mean_bound(total(r@), n, 0x7fff_ffff_ffff_ffff);
        } else {
            lemma_mean_bound(-total(r@), n, 0x8000_0000_0000_0000);
        }
    }
    Some(div_nearest(sum, r.len() as i128) as i64)
}

// ---------------------------------------------------------------------------
// The ring

/// A ring with room for `capacity` samples after one more went in: the oldest
/// makes room when it is full.
pub open spec fn pushed(s: Seq<Sample>, capacity: nat, sample: Sample) -> Seq<Sample> {
    if s.len() == capacity && s.len() > 0 {
        s.drop_first().push(sample)
    } else {
        s.push(sample)
    }
}

/// A ring after all of `more` went in, one after another.
pub open spec fn pushed_all(s: Seq<Sample>, capacity: nat, more: Seq<Sample>) -> Seq<Sample>
    decreases more.len(),
{
    if more.len() == 0 {
        s
    } else {
        pushed(pushed_all(s, capacity, more.drop_last()), capacity, more.last())
    }
}

/// The last `n` samples, or all where there are fewer.
pub open spec fn newest_of(s: Seq<Sample>, n: nat) -> Seq<Sample> {
    if s.len() > n {
        s.skip(s.len() - n)
    } else {
        s
    }
}

/// A ring that was filled from empty holds the newest samples that fit it, in
/// the order in which they came.
pub proof fn law_the_ring_keeps_the_newest(capacity: nat, all: Seq<Sample>)
    requires
        capacity > 0,
    ensures
        pushed_all(seq![], capacity, all) == newest_of(all, capacity),
    decreases all.len(),
{
    if all.len() > 0 {
        law_the_ring_keeps_the_newest(capacity, all.drop_last());
        let before = newest_of(all.drop_last(), capacity);
        assert(pushed(before, capacity, all.last()) == newest_of(all, capacity));
    }
}

/// The samples from `cutoff` on, given that they are in order.
pub open spec fn pruned(s: Seq<Sample>, cutoff: int) -> Seq<Sample>
    decreases s.len(),
{
    if s.len() > 0 && s[0].at < cutoff {
        pruned(s.drop_first(), cutoff)
    } else {
        s
    }
}

/// Pruning drops what is too old and nothing else: of samples in order it leaves
/// exactly those from `cutoff` on, the newest, still in order.
pub proof fn law_pruning_keeps_the_horizon(s: Seq<Sample>, cutoff: int)
    requires
        ordered(s),
    ensures
        ordered(pruned(s, cutoff)),
        forall|i: int|
            0 <= i < pruned(s, cutoff).len() ==> (#[trigger] pruned(s, cutoff)[i]).at >= cutoff,
        exists|n: int|
            0 <= n <= s.len() && pruned(s, cutoff) == #[trigger] s.skip(n) && forall|i: int|
                0 <= i < n ==> (#[trigger] s[i]).at < cutoff,
    decreases s.len(),
{
    if s.len() > 0 && s[0].at < cutoff {
        let rest = s.drop_first();
        assert forall|i: int, j: int| 0 <= i < j < rest.len() implies (#[trigger] rest[i]).time()
            <= (#[trigger] rest[j]).time() by {
            assert(s[i + 1].time() <= s[j + 1].time());
        }
        law_pruning_keeps_the_horizon(rest, cutoff);
        let n = choose|n: int|
            0 <= n <= rest.len() && pruned(rest, cutoff) == #[trigger] rest.skip(n) && forall|i: int|
                0 <= i < n ==> (#[trigger] rest[i]).at < cutoff;
        assert(s.skip(n + 1) == rest.skip(n));
        assert forall|i: int| 0 <= i < n + 1 implies (#[trigger] s[i]).at < cutoff by {
            if i > 0 {
                assert(rest[i - 1] == s[i]);
            }
        }
    } else {
        assert(s.skip(0) == s);
        assert forall|i: int| 0 <= i < s.len() implies (#[trigger] s[i]).at >= cutoff by {
            if i > 0 {
                assert(s[0].time() <= s[i].time());
            }
        }
    }
}

/// The samples older than everything in the ring.
pub open spec fn older_than(more: Seq<Sample>, ring: Seq<Sample>) -> Seq<Sample>
    decreases more.len(),
{
    if more.len() == 0 {
        seq![]
    } else {
        let rest = older_than(more.drop_last(), ring);
        if ring.len() == 0 || more.last().at < ring[0].at {
            rest.push(more.last())
        } else {
            rest
        }
    }
}

/// Folding an earlier session in underneath keeps the ring in order, and keeps
/// what it held at its end, as far as it fits.
pub proof fn law_absorbing_keeps_the_order(more: Seq<Sample>, ring: Seq<Sample>, room: nat)
    requires
        ordered(more),
        ordered(ring),
    ensures
        ordered(newest_of(older_than(more, ring) + ring, room)),
        newest_of(newest_of(older_than(more, ring) + ring, room), ring.len()) == newest_of(
            ring,
            room,
        ),
{
    let older = older_than(more, ring);
    lemma_older_than(more, ring);
    let all = older + ring;
    assert forall|i: int, j: int| 0 <= i < j < all.len() implies (#[trigger] all[i]).time() <= (
    #[trigger] all[j]).time() by {
        if j < older.len() {
            assert(older[i].time() <= older[j].time());
        } else if i >= older.len() {
            assert(ring[i - older.len()].time() <= ring[j - older.len()].time());
        } else {
            assert(older[i].at < ring[0].at);
            if j > older.len() {
                assert(ring[0].time() <= ring[j - older.len()].time());
            }
        }
    }
    let kept = newest_of(all, room);
    let from = all.len() - kept.len();
    assert forall|i: int, j: int| 0 <= i < j < kept.len() implies (#[trigger] kept[i]).time() <= (
    #[trigger] kept[j]).time() by {
        assert(kept[i] == all[from + i] && kept[j] == all[from + j]);
    }
    assert(newest_of(kept, ring.len()) == newest_of(ring, room));
}

proof fn lemma_older_than(more: Seq<Sample>, ring: Seq<Sample>)
    requires
        ordered(more),
    ensures
        ordered(older_than(more, ring)),
        ring.len() > 0 ==> forall|i: int|
            0 <= i < older_than(more, ring).len() ==> (#[trigger] older_than(more, ring)[i]).at
                < ring[0].at,
        forall|i: int|
            0 <= i < older_than(more, ring).len() ==> more.contains(
                #[trigger] older_than(more, ring)[i],
            ),
    decreases more.len(),
{
    if more.len() > 0 {
        let init = more.drop_last();
        assert forall|i: int, j: int| 0 <= i < j < init.len() implies (#[trigger] init[i]).time()
            <= (#[trigger] init[j]).time() by {
            assert(more[i].time() <= more[j].time());
        }
        lemma_older_than(init, ring);
        let rest = older_than(init, ring);
        let all = older_than(more, ring);
        let last = more.len() - 1;
        assert forall|i: int| 0 <= i < rest.len() implies more.contains(#[trigger] rest[i])
            && rest[i].time() <= more[last].time() by {
            let k = choose|k: int| 0 <= k < init.len() && init[k] == rest[i];
            assert(more[k] == rest[i]);
            assert(more[k].time() <= more[last].time());
        }
        assert forall|i: int| 0 <= i < all.len() implies more.contains(#[trigger] all[i]) by {
            if i < rest.len() {
                assert(all[i] == rest[i]);
            } else {
                assert(all[i] == more[last]);
            }
        }
        assert forall|i: int, j: int| 0 <= i < j < all.len() implies (#[trigger] all[i]).time()
            <= (#[trigger] all[j]).time() by {
            assert(all[i] == rest[i]);
            if j < rest.len() {
                assert(all[j] == rest[j]);
            }
        }
    }
}

/// Where the unbroken stretch of polls that ends at `i` begins: no two of them
/// further apart than `gap`, none further than `window` from the end.
pub open spec fn stretch_from(s: Seq<Sample>, i: int, window: int, gap: int) -> int
    decreases i,
{
    if 0 < i < s.len() && elapsed(s[i - 1].at as int, s.last().at as int) <= window && elapsed(
        s[i - 1].at as int,
        s[i].at as int,
    ) <= gap {
        stretch_from(s, i - 1, window, gap)
    } else {
        i
    }
}

/// The newest samples that one average may run over.
pub open spec fn stretch(s: Seq<Sample>, window: int, gap: int) -> Seq<Sample> {
    if s.len() == 0 {
        s
    } else {
        s.skip(stretch_from(s, s.len() - 1, window, gap))
    }
}

#[derive(Debug)]
pub struct History {
    samples: VecDeque<Sample>,
    capacity: usize,
}

impl View for History {
    type V = Seq<Sample>;

    closed spec fn view(&self) -> Seq<Sample> {
        self.samples@
    }
}

impl History {
    /// How many samples fit.
    pub closed spec fn room(&self) -> nat {
        self.capacity as nat
    }

    pub fn new(capacity: usize) -> (r: Self)
        ensures
            r@ == Seq::<Sample>::empty(),
            r.room() == capacity,
    {
        History { samples: VecDeque::new(), capacity }
    }

    /// Adds the newest sample; the oldest makes room for it when the ring is
    /// full.
    pub fn push(&mut self, sample: Sample)
        ensures
            final(self)@ == pushed(old(self)@, old(self).room(), sample),
            final(self).room() == old(self).room(),
            old(self).room() > 0 && old(self)@.len() <= old(self).room() ==> final(self)@.len()
                <= final(self).room(),
    {
        if self.samples.len() == self.capacity {
            self.samples.pop_front();
        }
        self.samples.push_back(sample);
    }

    /// The samples, oldest first.
    pub fn iter(&self) -> (r: Iter<'_, Sample>)
        ensures
            IteratorSpec::remaining(&r) == self@.as_ref(),
    {
        self.samples.iter()
    }

    pub fn len(&self) -> (r: usize)
        ensures
            r == self@.len(),
    {
        self.samples.len()
    }

    pub fn is_empty(&self) -> (r: bool)
        ensures
            r == (self@.len() == 0),
    {
        self.samples.len() == 0
    }

    /// The sample at a position, counted from the oldest.
    pub fn at(&self, i: usize) -> (r: Sample)
        requires
            i < self@.len(),
        ensures
            r == self@[i as int],
    {
        self.samples[i]
    }

    pub fn newest(&self) -> (r: Option<Sample>)
        ensures
            r == (if self@.len() == 0 {
                None
            } else {
                Some(self@.last())
            }),
    {
        if self.samples.len() == 0 {
            None
        } else {
            Some(self.samples[self.samples.len() - 1])
        }
    }

    /// The time the ring covers.
    pub open spec fn span(&self) -> int {
        if self@.len() == 0 {
            0
        } else {
            elapsed(self@[0].at as int, self@.last().at as int)
        }
    }

    /// Seconds between the oldest and newest sample: the graph's x extent.
    pub fn span_secs(&self) -> (r: u64)
        ensures
            r == self.span(),
    {
        if self.samples.len() == 0 {
            0
        } else {
            elapsed_secs(self.samples[0].at, self.samples[self.samples.len() - 1].at)
        }
    }

    /// Drops what is more than `secs` older than `now`.
    pub fn prune_older_than(&mut self, now: i64, secs: u64)
        ensures
            final(self)@ == pruned(old(self)@, now - secs),
            final(self).room() == old(self).room(),
    {
        let cutoff: i128 = now as i128 - secs as i128;
        while self.samples.len() > 0 && (self.samples[0].at as i128) < cutoff
            invariant
                cutoff == now - secs,
                pruned(self@, now - secs) == pruned(old(self)@, now - secs),
                self.room() == old(self).room(),
            decreases self@.len(),
        {
            let ghost before = self@;
            self.samples.pop_front();
            assert(self@ == before.drop_first());
        }
    }

    /// Folds samples from an earlier session in underneath. What is not older
    /// than everything here is here already.
    pub fn absorb(&mut self, more: Vec<Sample>)
        ensures
            final(self)@ == newest_of(
                older_than(more@, old(self)@) + old(self)@,
                old(self).room(),
            ),
            final(self).room() == old(self).room(),
    {
        let ghost held = self@;
        let mut all: VecDeque<Sample> = VecDeque::new();
        let mut i: usize = 0;
        assert(more@.take(0) == Seq::<Sample>::empty());
        while i < more.len()
            invariant
                i <= more@.len(),
                held == self@,
                self.room() == old(self).room(),
                all@ == older_than(more@.take(i as int), held),
            decreases more@.len() - i,
        {
            assert(more@.take(i + 1).drop_last() == more@.take(i as int));
            if self.samples.len() == 0 || more[i].at < self.samples[0].at {
                all.push_back(more[i]);
            }
            i += 1;
        }
        assert(more@.take(i as int) == more@);
        let ghost older = all@;
        let mut j: usize = 0;
        assert(held.take(0) == Seq::<Sample>::empty());
        assert(older + held.take(0) == older);
        while j < self.samples.len()
            invariant
                j <= held.len(),
                held == self@,
                self.room() == old(self).room(),
                all@ == older + held.take(j as int),
            decreases held.len() - j,
        {
            all.push_back(self.samples[j]);
            assert(held.take(j + 1) == held.take(j as int).push(held[j as int]));
            assert(older + held.take(j + 1) == (older + held.take(j as int)).push(held[j as int]));
            j += 1;
        }
        assert(held.take(j as int) == held);
        let ghost merged = all@;
        assert(merged.skip(0) == merged);
        let ghost mut dropped: int = 0;
        while all.len() > self.capacity
            invariant
                0 <= dropped <= merged.len(),
                all@ == merged.skip(dropped),
                dropped == 0 || all@.len() >= self.room(),
                self.room() == old(self).room(),
            decreases all@.len(),
        {
            all.pop_front();
            proof {
                dropped = dropped + 1;
            }
            assert(all@ == merged.skip(dropped));
        }
        self.samples = all;
    }

    /// The average power over the newest stretch of polls: at most `window`
    /// seconds of it, and only back to the last two samples more than `gap`
    /// seconds apart. `None` until there are two readings to average.
    pub open spec fn trailing_power(&self, window: int, gap: int) -> Option<int> {
        let r = readings(stretch(self@, window, gap));
        if r.len() < 2 {
            None
        } else {
            average(r)
        }
    }

    pub fn recent_power(&self, window: u64, gap: u64) -> (r: Option<Micro>)
        ensures
            match r {
                Some(power) => self.trailing_power(window as int, gap as int) == Some(power as int),
                None => self.trailing_power(window as int, gap as int) is None,
            },
    {
        let n = self.samples.len();
        if n == 0 {
            return None;
        }
        let newest: i64 = self.samples[n - 1].at;
        let mut from: usize = n - 1;
        while from > 0 && elapsed_secs(self.samples[from - 1].at, newest) <= window && elapsed_secs(
            self.samples[from - 1].at,
            self.samples[from].at,
        ) <= gap
            invariant
                from < n,
                n == self@.len(),
                newest == self@.last().at,
                stretch_from(self@, n - 1, window as int, gap as int) == stretch_from(
                    self@,
                    from as int,
                    window as int,
                    gap as int,
                ),
            decreases from,
        {
            from -= 1;
        }
        let ghost kept = self@.skip(from as int);
        assert(stretch(self@, window as int, gap as int) == kept);
        let mut r: Vec<Micro> = Vec::new();
        let mut i: usize = from;
        assert(kept.take(0) == Seq::<Sample>::empty());
        while i < n
            invariant
                from <= i <= n,
                n == self@.len(),
                kept == self@.skip(from as int),
                r@ == readings(kept.take(i - from)),
            decreases n - i,
        {
            assert(kept.take(i + 1 - from).drop_last() == kept.take(i - from));
            if let Some(power) = self.samples[i].power {
                r.push(power);
            }
            i += 1;
        }
        assert(kept.take(n - from) == kept);
        if r.len() < 2 {
            None
        } else {
            mean(&r)
        }
    }
}

} // verus!

//! What `/sys/class/power_supply` says.
//!
//! Two gauge flavours exist and a laptop has exactly one of them: *energy*
//! gauges expose `energy_now`/`energy_full`/`power_now` in µWh and µW, *charge*
//! gauges expose `charge_now`/`charge_full`/`current_now` in µAh and µA. The
//! charge kind is converted with `voltage_now`, so everything above this file
//! sees energies and powers.
//!
//! Everything comes from each supply's `uevent`, which holds every value in one
//! file. Opening the files is the caller's; this module takes what they held.

use vstd::prelude::*;
use vstd::slice::slice_subrange;

use super::types::{Battery, Status};
use crate::decimal::{decimal, read_decimal};
use crate::micro::{abs, percent_of, percentage, product, round_units};
use crate::micro::{times, whole_units, Micro, UNIT};
use crate::text::{
    before, chars_of, cut, is_before, is_plain, lemma_before_carries_over, lemma_one_is_before,
    lines, lines_of, lowercase, lowered, same, same_str, split_once, string_of, strip_prefixes,
    to_lowercase, trim, trimmed, views, without_prefix,
};

verus! {

/// The name and the value on one line of a `uevent`. `None` for a line that sets
/// nothing.
pub open spec fn entry(line: Seq<char>) -> Option<(Seq<char>, Seq<char>)> {
    match cut(line, '=') {
        Some((name, value)) => if trimmed(value).len() > 0 {
            Some((without_prefix(trimmed(name), "POWER_SUPPLY_"@), trimmed(value)))
        } else {
            None
        },
        None => None,
    }
}

/// What one line of a `uevent` sets: a key, named the way the sysfs attribute
/// is, and a value.
pub open spec fn setting(line: Seq<char>) -> Option<(Seq<char>, Seq<char>)> {
    match entry(line) {
        Some((name, value)) => Some((lowercase(name), value)),
        None => None,
    }
}

/// What some lines set; a later line wins over an earlier one.
pub open spec fn settings(s: Seq<Seq<char>>) -> Map<Seq<char>, Seq<char>>
    decreases s.len(),
{
    if s.len() == 0 {
        Map::empty()
    } else {
        let rest = settings(s.drop_last());
        match setting(s.last()) {
            Some((key, value)) => rest.insert(key, value),
            None => rest,
        }
    }
}

/// Every name on the lines is in ASCII, as the kernel's are.
pub open spec fn plain_names(s: Seq<Seq<char>>) -> bool {
    forall|i: int|
        0 <= i < s.len() ==> match entry(#[trigger] s[i]) {
            Some((name, _)) => is_plain(name),
            None => true,
        }
}

/// What lines with names in ASCII set.
pub open spec fn plain_settings(s: Seq<Seq<char>>) -> Map<Seq<char>, Seq<char>>
    decreases s.len(),
{
    if s.len() == 0 {
        Map::empty()
    } else {
        let rest = plain_settings(s.drop_last());
        match entry(s.last()) {
            Some((name, value)) => rest.insert(lowered(name), value),
            None => rest,
        }
    }
}

/// One supply's `uevent`: `POWER_SUPPLY_ENERGY_NOW` is its `energy_now`.
#[derive(Debug)]
pub struct Uevent(Vec<(String, String)>);

/// Pairs as a map; a later pair wins over an earlier one.
spec fn mapped(s: Seq<(String, String)>) -> Map<Seq<char>, Seq<char>>
    decreases s.len(),
{
    if s.len() == 0 {
        Map::empty()
    } else {
        mapped(s.drop_last()).insert(s.last().0@, s.last().1@)
    }
}

impl View for Uevent {
    type V = Map<Seq<char>, Seq<char>>;

    closed spec fn view(&self) -> Map<Seq<char>, Seq<char>> {
        mapped(self.0@)
    }
}

/// The value of a key as a number, in millionths of the unit it is given in.
pub open spec fn number_in(m: Map<Seq<char>, Seq<char>>, key: Seq<char>) -> Option<int> {
    if m.contains_key(key) {
        decimal(m[key])
    } else {
        None
    }
}

impl Uevent {
    pub fn parse(text: &str) -> (r: Self)
        ensures
            r@ == settings(lines_of(text@)),
            plain_names(lines_of(text@)) ==> r@ == plain_settings(lines_of(text@)),
    {
        let all = chars_of(text);
        let given = lines(all.as_slice());
        let ghost ls = views(given@);
        let mut pairs: Vec<(String, String)> = Vec::new();
        let mut i: usize = 0;
        assert(ls.take(0) == Seq::<Seq<char>>::empty());
        while i < given.len()
            invariant
                i <= given@.len(),
                ls == views(given@),
                mapped(pairs@) == settings(ls.take(i as int)),
                plain_names(ls) ==> mapped(pairs@) == plain_settings(ls.take(i as int)),
            decreases given@.len() - i,
        {
            let ghost before = pairs@;
            assert(ls.take(i + 1).drop_last() == ls.take(i as int));
            assert(ls.take(i + 1).last() == given@[i as int]@);
            assert(ls[i as int] == given@[i as int]@);
            if let Some((key, value)) = split_once(given[i], '=') {
                let kept = trim(value);
                if kept.len() > 0 {
                    let name = string_of(strip_prefixes(trim(key), prefix()));
                    pairs.push((to_lowercase(name.as_str()), string_of(kept)));
                    assert(pairs@.drop_last() == before);
                }
            }
            i += 1;
        }
        assert(ls.take(i as int) == ls);
        Uevent(pairs)
    }

    pub fn text(&self, key: &str) -> (r: Option<&str>)
        ensures
            match r {
                Some(value) => self@.contains_key(key@) && value@ == self@[key@],
                None => !self@.contains_key(key@),
            },
    {
        let mut i: usize = self.0.len();
        assert(self.0@.take(i as int) == self.0@);
        while i > 0
            invariant
                i <= self.0@.len(),
                self@.contains_key(key@) == mapped(self.0@.take(i as int)).contains_key(key@),
                self@.contains_key(key@) ==> self@[key@] == mapped(self.0@.take(i as int))[key@],
            decreases i,
        {
            assert(self.0@.take(i as int).drop_last() == self.0@.take(i - 1));
            if same_str(self.0[i - 1].0.as_str(), key) {
                return Some(self.0[i - 1].1.as_str());
            }
            i -= 1;
        }
        assert(self.0@.take(0) == Seq::<(String, String)>::empty());
        None
    }

    /// The value of a key as a number, in millionths of the unit it is given in.
    pub fn number(&self, key: &str) -> (r: Option<Micro>)
        ensures
            match r {
                Some(n) => number_in(self@, key@) == Some(n as int),
                None => number_in(self@, key@) is None,
            },
    {
        match self.text(key) {
            Some(value) => {
                let all = chars_of(value);
                read_decimal(all.as_slice())
            },
            None => None,
        }
    }

    /// Whether the key is set to exactly this.
    fn is(&self, key: &str, value: &str) -> (r: bool)
        ensures
            r == (self@.contains_key(key@) && self@[key@] == value@),
    {
        match self.text(key) {
            Some(text) => same_str(text, value),
            None => false,
        }
    }

    /// The value of a key, as a string of its own.
    fn owned(&self, key: &str) -> (r: Option<String>)
        ensures
            is_value(r, self@, key@),
    {
        match self.text(key) {
            Some(text) => Some(text.to_owned()),
            None => None,
        }
    }
}

/// What the kernel puts in front of each attribute's name.
fn prefix() -> (r: &'static str)
    ensures
        r@ == "POWER_SUPPLY_"@,
        r@.len() > 0,
{
    proof {
        reveal_strlit("POWER_SUPPLY_");
    }
    "POWER_SUPPLY_"
}

/// `r` is what the key is set to.
pub open spec fn is_value(
    r: Option<String>,
    m: Map<Seq<char>, Seq<char>>,
    key: Seq<char>,
) -> bool {
    match r {
        Some(text) => m.contains_key(key) && text@ == m[key],
        None => !m.contains_key(key),
    }
}

// ---------------------------------------------------------------------------
// One battery

/// A path without slashes at its end.
pub open spec fn without_slashes(path: Seq<char>) -> Seq<char>
    decreases path.len(),
{
    if path.len() > 0 && path.last() == '/' {
        without_slashes(path.drop_last())
    } else {
        path
    }
}

/// What follows the last slash of a path.
pub open spec fn after_slash(path: Seq<char>) -> Seq<char>
    decreases path.len(),
{
    if path.len() == 0 || path.last() == '/' {
        seq![]
    } else {
        after_slash(path.drop_last()).push(path.last())
    }
}

/// The name of what a path leads to: its last component, where a `.` counts for
/// nothing. A path that ends in `..`, or has no component, leads to no name.
pub open spec fn name_of(path: Seq<char>) -> Seq<char>
    decreases path.len(),
{
    let bare = without_slashes(path);
    let last = after_slash(bare);
    proof {
        lemma_without_slashes(path);
    }
    if last == "."@ && last.len() < bare.len() {
        name_of(bare.drop_last())
    } else if last == "."@ || last == ".."@ {
        seq![]
    } else {
        last
    }
}

pub proof fn lemma_without_slashes(path: Seq<char>)
    ensures
        without_slashes(path).len() <= path.len(),
    decreases path.len(),
{
    if path.len() > 0 {
        lemma_without_slashes(path.drop_last());
    }
}

/// `after_slash` is the only end of the path with these properties.
proof fn lemma_after_slash(path: Seq<char>, from: int)
    requires
        0 <= from <= path.len(),
        from > 0 ==> path[from - 1] == '/',
        forall|i: int| from <= i < path.len() ==> path[i] != '/',
    ensures
        after_slash(path) == path.skip(from),
    decreases path.len() - from,
{
    if from < path.len() {
        let rest = path.drop_last();
        lemma_after_slash(rest, from);
        assert(path.skip(from) == rest.skip(from).push(path.last()));
    } else {
        assert(path.skip(from) == Seq::<char>::empty());
    }
}

/// The name of what a path leads to.
fn name_in(path: &[char]) -> (r: String)
    ensures
        r@ == name_of(path@),
    decreases path@.len(),
{
    let mut to: usize = path.len();
    assert(path@.take(to as int) == path@);
    while to > 0 && path[to - 1] == '/'
        invariant
            to <= path@.len(),
            without_slashes(path@) == without_slashes(path@.take(to as int)),
        decreases to,
    {
        assert(path@.take(to as int).drop_last() == path@.take(to - 1));
        to -= 1;
    }
    let bare = slice_subrange(path, 0, to);
    assert(bare@ == path@.take(to as int));
    assert(bare@ == without_slashes(path@));
    let mut from: usize = to;
    while from > 0 && bare[from - 1] != '/'
        invariant
            from <= to,
            to == bare@.len(),
            forall|i: int| from <= i < to ==> bare@[i] != '/',
        decreases from,
    {
        from -= 1;
    }
    let last = slice_subrange(bare, from, to);
    proof {
        lemma_after_slash(bare@, from as int);
        assert(last@ == bare@.skip(from as int));
    }
    if same(last, ".") {
        if from > 0 {
            proof {
                reveal_strlit(".");
            }
            let before = slice_subrange(bare, 0, to - 1);
            assert(before@ == bare@.drop_last());
            return name_in(before);
        }
        return String::new();
    }
    if same(last, "..") {
        return String::new();
    }
    string_of(last)
}

/// The voltage, in µV.
pub open spec fn voltage_in(m: Map<Seq<char>, Seq<char>>) -> Option<int> {
    match number_in(m, "voltage_now"@) {
        Some(v) => Some(whole_units(v)),
        None => None,
    }
}

/// An energy, in µWh: read directly, or a charge times the present voltage.
pub open spec fn energy_in(
    m: Map<Seq<char>, Seq<char>>,
    energy_key: Seq<char>,
    charge_key: Seq<char>,
) -> Option<int> {
    match number_in(m, energy_key) {
        Some(e) => Some(whole_units(e)),
        None => match (number_in(m, charge_key), voltage_in(m)) {
            (Some(c), Some(v)) => Some(product(whole_units(c), v)),
            _ => None,
        },
    }
}

/// The power, in µW. Some drivers sign `current_now` by direction; the status
/// carries that, so power stays a magnitude.
pub open spec fn power_in(m: Map<Seq<char>, Seq<char>>) -> Option<int> {
    match number_in(m, "power_now"@) {
        Some(p) => Some(abs(whole_units(p))),
        None => match (number_in(m, "current_now"@), voltage_in(m)) {
            (Some(c), Some(v)) => Some(product(abs(whole_units(c)), v)),
            _ => None,
        },
    }
}

/// `percent` held between none and all.
pub open spec fn within_percent(percent: int) -> int {
    if percent < 0 {
        0
    } else if percent > 100 * UNIT {
        100 * UNIT
    } else {
        percent
    }
}

/// The charge: what the gauge says, or else what there is of what fits.
pub open spec fn percent_in(m: Map<Seq<char>, Seq<char>>) -> int {
    within_percent(
        match number_in(m, "capacity"@) {
            Some(percent) => percent,
            None => match (
                energy_in(m, "energy_now"@, "charge_now"@),
                energy_in(m, "energy_full"@, "charge_full"@),
            ) {
                (Some(now), Some(full)) => percentage(now, full),
                _ => 0,
            },
        },
    )
}

/// Whatever the gauge says, the charge lies between none and all.
pub proof fn law_the_charge_stays_within_bounds(m: Map<Seq<char>, Seq<char>>)
    ensures
        0 <= percent_in(m) <= 100 * UNIT,
{
}

/// How often the battery went through its charge. Zero is no reading at all.
pub open spec fn cycles_in(m: Map<Seq<char>, Seq<char>>) -> Option<int> {
    match number_in(m, "cycle_count"@) {
        Some(n) => if n < UNIT {
            None
        } else if n / (UNIT as int) > u32::MAX {
            Some(u32::MAX as int)
        } else {
            Some(n / (UNIT as int))
        },
        None => None,
    }
}

pub open spec fn same_number(r: Option<i64>, n: Option<int>) -> bool {
    match r {
        Some(r) => n == Some(r as int),
        None => n is None,
    }
}

/// The battery that a `uevent` describes.
pub open spec fn describes(
    m: Map<Seq<char>, Seq<char>>,
    dir: Seq<char>,
    on_ac: bool,
    b: Battery,
) -> bool {
    &&& b.name@ == if m.contains_key("name"@) {
        m["name"@]
    } else {
        name_of(dir)
    }
    &&& b.status == if m.contains_key("status"@) {
        Status::named(trimmed(m["status"@]))
    } else {
        Status::Unknown
    }
    &&& b.percent == percent_in(m)
    &&& same_number(b.energy_now, energy_in(m, "energy_now"@, "charge_now"@))
    &&& same_number(b.energy_full, energy_in(m, "energy_full"@, "charge_full"@))
    &&& same_number(b.energy_design, energy_in(m, "energy_full_design"@, "charge_full_design"@))
    &&& same_number(b.power, power_in(m))
    &&& same_number(b.voltage, voltage_in(m))
    &&& match b.cycle_count {
        Some(count) => cycles_in(m) == Some(count as int),
        None => cycles_in(m) is None,
    }
    &&& is_value(b.model, m, "model_name"@)
    &&& is_value(b.manufacturer, m, "manufacturer"@)
    &&& match b.technology {
        Some(technology) => m.contains_key("technology"@) && technology@ == m["technology"@]
            && technology@ != "Unknown"@,
        None => m.contains_key("technology"@) ==> m["technology"@] == "Unknown"@,
    }
    &&& b.on_ac == on_ac
}

fn energy(
    uevent: &Uevent,
    energy_key: &str,
    charge_key: &str,
    voltage: Option<Micro>,
) -> (r: Option<Micro>)
    requires
        same_number(voltage, voltage_in(uevent@)),
    ensures
        same_number(r, energy_in(uevent@, energy_key@, charge_key@)),
{
    if let Some(e) = uevent.number(energy_key) {
        return Some(round_units(e));
    }
    match (uevent.number(charge_key), voltage) {
        (Some(c), Some(v)) => Some(times(round_units(c), v)),
        _ => None,
    }
}

/// The magnitude of a number already cut to whole units.
fn unsigned_units(n: Micro) -> (r: i64)
    ensures
        r == abs(whole_units(n as int)),
{
    let whole: i64 = round_units(n);
    proof {
        lemma_units_small(n as int);
    }
    if whole < 0 {
        -whole
    } else {
        whole
    }
}

proof fn lemma_units_small(n: int)
    requires
        i64::MIN <= n <= i64::MAX,
    ensures
        -10_000_000_000_000 <= whole_units(n) <= 10_000_000_000_000,
{
}

fn power(uevent: &Uevent, voltage: Option<Micro>) -> (r: Option<Micro>)
    requires
        same_number(voltage, voltage_in(uevent@)),
    ensures
        same_number(r, power_in(uevent@)),
{
    if let Some(p) = uevent.number("power_now") {
        return Some(unsigned_units(p));
    }
    match (uevent.number("current_now"), voltage) {
        (Some(c), Some(v)) => Some(times(unsigned_units(c), v)),
        _ => None,
    }
}

fn cycles(uevent: &Uevent) -> (r: Option<u32>)
    ensures
        match r {
            Some(count) => cycles_in(uevent@) == Some(count as int),
            None => cycles_in(uevent@) is None,
        },
{
    match uevent.number("cycle_count") {
        Some(n) => {
            if n < UNIT {
                None
            } else if n / UNIT > u32::MAX as i64 {
                Some(u32::MAX)
            } else {
                Some((n / UNIT) as u32)
            }
        },
        None => None,
    }
}

/// The battery that a `uevent` describes; `dir` is the path of its directory.
pub fn battery(dir: &str, uevent: &Uevent, on_ac: bool) -> (r: Battery)
    ensures
        describes(uevent@, dir@, on_ac, r),
{
    let voltage: Option<Micro> = match uevent.number("voltage_now") {
        Some(v) => Some(round_units(v)),
        None => None,
    };
    let energy_now = energy(uevent, "energy_now", "charge_now", voltage);
    let energy_full = energy(uevent, "energy_full", "charge_full", voltage);
    let energy_design = energy(uevent, "energy_full_design", "charge_full_design", voltage);
    let percent: i64 = match uevent.number("capacity") {
        Some(percent) => percent,
        None => match (energy_now, energy_full) {
            (Some(now), Some(full)) => percent_of(now, full),
            _ => 0,
        },
    };
    let name = match uevent.text("name") {
        Some(name) => name.to_owned(),
        None => {
            let path = chars_of(dir);
            name_in(path.as_slice())
        },
    };
    let status = match uevent.text("status") {
        Some(status) => Status::parse(status),
        None => Status::Unknown,
    };
    let technology = match uevent.text("technology") {
        Some(technology) => {
            if same_str(technology, "Unknown") {
                None
            } else {
                Some(technology.to_owned())
            }
        },
        None => None,
    };
    Battery {
        name,
        status,
        percent: if percent < 0 {
            0
        } else if percent > 100_000_000 {
            100_000_000
        } else {
            percent
        },
        energy_now,
        energy_full,
        energy_design,
        power: power(uevent, voltage),
        voltage,
        cycle_count: cycles(uevent),
        model: uevent.owned("model_name"),
        manufacturer: uevent.owned("manufacturer"),
        technology,
        on_ac,
    }
}

// ---------------------------------------------------------------------------
// All supplies

/// One power supply: the path of its directory and the text of its `uevent`.
#[derive(Debug)]
pub struct Supply {
    pub dir: String,
    pub uevent: String,
}

impl Supply {
    pub open spec fn values(self) -> Map<Seq<char>, Seq<char>> {
        settings(lines_of(self.uevent@))
    }

    pub open spec fn is_battery(self) -> bool {
        self.values().contains_key("type"@) && self.values()["type"@] == "Battery"@
    }

    pub open spec fn feeds(self) -> bool {
        &&& self.values().contains_key("type"@) && self.values()["type"@] == "Mains"@
        &&& self.values().contains_key("online"@) && self.values()["online"@] == "1"@
    }
}

/// `i` is the first battery among the supplies, in the order of their
/// directories. The order in which these are listed is not one to go by.
pub open spec fn first_battery(s: Seq<Supply>, i: int) -> bool {
    &&& 0 <= i < s.len()
    &&& s[i].is_battery()
    &&& forall|j: int|
        0 <= j < i && (#[trigger] s[j]).is_battery() ==> before(s[i].dir@, s[j].dir@)
    &&& forall|j: int|
        i < j < s.len() && (#[trigger] s[j]).is_battery() ==> !before(s[j].dir@, s[i].dir@)
}

/// There is one first battery at most.
pub proof fn law_one_battery_is_first(s: Seq<Supply>, i: int, k: int)
    requires
        first_battery(s, i),
        first_battery(s, k),
    ensures
        i == k,
{
    lemma_one_is_before(s[i].dir@, s[k].dir@);
}

pub open spec fn any_feeds(s: Seq<Supply>) -> bool {
    exists|j: int| 0 <= j < s.len() && (#[trigger] s[j]).feeds()
}

/// A battery that comes before the first of those ahead of it comes before all of
/// them.
proof fn lemma_earlier_battery(s: Seq<Supply>, k: int, i: int)
    requires
        0 <= k < i == s.len() - 1,
        first_battery(s.take(i), k),
        s[i].is_battery(),
        before(s[i].dir@, s[k].dir@),
    ensures
        first_battery(s, i),
{
    assert forall|j: int| 0 <= j < i && (#[trigger] s[j]).is_battery() implies before(
        s[i].dir@,
        s[j].dir@,
    ) by {
        assert(s.take(i)[j] == s[j] && s.take(i)[k] == s[k]);
        lemma_one_is_before(s[j].dir@, s[k].dir@);
        if before(s[k].dir@, s[j].dir@) {
            lemma_before_carries_over(s[i].dir@, s[k].dir@, s[j].dir@);
        }
    }
}

/// `r` is what the supplies say.
pub open spec fn is_read(s: Seq<Supply>, r: Option<Battery>) -> bool {
    match r {
        Some(b) => exists|i: int|
            #[trigger] first_battery(s, i) && describes(
                s[i].values(),
                s[i].dir@,
                any_feeds(s),
                b,
            ),
        None => forall|j: int| 0 <= j < s.len() ==> !(#[trigger] s[j]).is_battery(),
    }
}

/// The first battery present, with mains state folded in. `None` on a desktop.
pub fn read(supplies: &Vec<Supply>) -> (r: Option<Battery>)
    ensures
        is_read(supplies@, r),
{
    let mut on_ac = false;
    let mut found: Option<usize> = None;
    let mut i: usize = 0;
    while i < supplies.len()
        invariant
            i <= supplies@.len(),
            on_ac == exists|j: int| 0 <= j < i && (#[trigger] supplies@[j]).feeds(),
            match found {
                Some(k) => k < i && first_battery(supplies@.take(i as int), k as int),
                None => forall|j: int| 0 <= j < i ==> !(#[trigger] supplies@[j]).is_battery(),
            },
        decreases supplies@.len() - i,
    {
        let uevent = Uevent::parse(supplies[i].uevent.as_str());
        if uevent.is("type", "Mains") && uevent.is("online", "1") {
            assert(supplies@[i as int].feeds());
            on_ac = true;
        }
        let ghost seen = supplies@.take(i as int);
        let ghost more = supplies@.take(i + 1);
        assert forall|j: int| 0 <= j < i implies #[trigger] more[j] == seen[j] by {}
        if uevent.is("type", "Battery") {
            match found {
                Some(k) => {
                    if is_before(supplies[i].dir.as_str(), supplies[k].dir.as_str()) {
                        proof {
                            lemma_earlier_battery(more, k as int, i as int);
                        }
                        found = Some(i);
                    }
                },
                None => {
                    found = Some(i);
                },
            }
        }
        i += 1;
    }
    assert(supplies@.take(i as int) == supplies@);
    match found {
        Some(k) => {
            let uevent = Uevent::parse(supplies[k].uevent.as_str());
            let b = battery(supplies[k].dir.as_str(), &uevent, on_ac);
            assert(first_battery(supplies@, k as int));
            Some(b)
        },
        None => None,
    }
}

/// The first battery is there wherever there is one at all, and no other battery's
/// directory comes before its own.
pub proof fn law_no_battery_comes_before_the_first(s: Seq<Supply>)
    ensures
        forall|i: int, j: int|
            first_battery(s, i) && 0 <= j < s.len() && (#[trigger] s[j]).is_battery() ==> s[i]
                .is_battery() && !before(s[j].dir@, #[trigger] s[i].dir@),
        (exists|j: int| 0 <= j < s.len() && (#[trigger] s[j]).is_battery()) ==> exists|i: int|
            first_battery(s, i),
    decreases s.len(),
{
    assert forall|i: int, j: int|
        first_battery(s, i) && 0 <= j < s.len() && (#[trigger] s[j]).is_battery() implies s[i]
        .is_battery() && !before(s[j].dir@, #[trigger] s[i].dir@) by {
        lemma_one_is_before(s[i].dir@, s[j].dir@);
        lemma_one_is_before(s[i].dir@, s[i].dir@);
    }
    if exists|j: int| 0 <= j < s.len() && (#[trigger] s[j]).is_battery() {
        let last = s.len() - 1;
        let init = s.take(last);
        law_no_battery_comes_before_the_first(init);
        if exists|j: int| 0 <= j < init.len() && (#[trigger] init[j]).is_battery() {
            let k = choose|k: int| first_battery(init, k);
            assert(init[k] == s[k]);
            if s[last].is_battery() && before(s[last].dir@, s[k].dir@) {
                lemma_earlier_battery(s, k, last);
                assert(first_battery(s, last));
            } else {
                assert forall|j: int| 0 <= j < k && (#[trigger] s[j]).is_battery() implies before(
                    s[k].dir@,
                    s[j].dir@,
                ) by {
                    assert(init[j] == s[j]);
                }
                assert forall|j: int| k < j < s.len() && (#[trigger] s[j]).is_battery() implies
                    !before(s[j].dir@, s[k].dir@) by {
                    if j < last {
                        assert(init[j] == s[j]);
                    }
                }
                assert(first_battery(s, k));
            }
        } else {
            assert forall|j: int| 0 <= j < last implies !(#[trigger] s[j]).is_battery() by {
                assert(init[j] == s[j]);
            }
            assert(first_battery(s, last));
        }
    }
}

} // verus!

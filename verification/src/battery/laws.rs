//! What holds of every reading of a battery.

use vstd::prelude::*;

use super::history::{
    average, elapsed, newest_of, older_than, pushed, readings, stretch, stretch_from, total,
    History, Sample,
};
use super::sysfs::{
    after_slash, any_feeds, describes, energy_in, entry, first_battery, is_read,
    law_no_battery_comes_before_the_first, name_of, plain_settings, power_in, setting, settings,
    voltage_in, without_slashes, Supply,
};
use super::types::{law_health_is_a_share_of_the_rating, Battery, Status};
use crate::decimal::decimal;
use crate::micro::{
    law_a_percentage_is_a_part_of_a_hundred, law_a_product_is_to_the_nearest,
    law_nearest_lies_within_a_half, nearest, whole_units, UNIT,
};
use crate::text::{
    before, cut, is_space, lemma_first_at, lemma_trimmed_alone, lines_of, lowercase, lowered,
    trimmed, without_prefix,
};

verus! {

/// What a `uevent` sets.
pub type Values = Map<Seq<char>, Seq<char>>;

/// The value of `key` is the whole number `n`.
pub open spec fn holds(m: Values, key: Seq<char>, n: int) -> bool {
    m.contains_key(key) && decimal(m[key]) == Some(n * UNIT)
}

/// There is no number under `key`.
pub open spec fn lacks(m: Values, key: Seq<char>) -> bool {
    m.contains_key(key) ==> decimal(m[key]) is None
}

/// Both say the same under `key`, or both nothing.
pub open spec fn agree(a: Values, b: Values, key: Seq<char>) -> bool {
    a.contains_key(key) == b.contains_key(key) && (a.contains_key(key) ==> a[key] == b[key])
}

proof fn lemma_whole(n: int)
    ensures
        whole_units(n * UNIT) == n,
{
    law_nearest_lies_within_a_half(n * UNIT, UNIT as int);
    let q = nearest(n * UNIT, UNIT as int);
    assert(q == n);
}

/// What an energy gauge says is taken as it stands: each energy from its own key.
pub proof fn law_an_energy_gauge_is_read(
    m: Values,
    dir: Seq<char>,
    on_ac: bool,
    b: Battery,
    n: int,
)
    requires
        describes(m, dir, on_ac, b),
    ensures
        holds(m, "energy_now"@, n) ==> b.energy_now is Some && b.energy_now->0 == n,
        holds(m, "energy_full"@, n) ==> b.energy_full is Some && b.energy_full->0 == n,
        holds(m, "energy_full_design"@, n) ==> b.energy_design is Some && b.energy_design->0 == n,
{
    lemma_whole(n);
}

/// What a charge gauge says goes through the voltage: a charge in µAh times a
/// voltage in µV is an energy in millionths of a µWh, and each energy is to the
/// nearest µWh of its own charge.
pub proof fn law_a_charge_gauge_goes_through_the_voltage(
    m: Values,
    dir: Seq<char>,
    on_ac: bool,
    b: Battery,
    c: int,
    v: int,
)
    requires
        describes(m, dir, on_ac, b),
        holds(m, "voltage_now"@, v),
        -9_000_000_000_000_000_000_000_000 <= c * v <= 9_000_000_000_000_000_000_000_000,
    ensures
        lacks(m, "energy_now"@) && holds(m, "charge_now"@, c) ==> b.energy_now is Some
            && -1_000_000 <= 2 * (1_000_000 * b.energy_now->0 - c * v) <= 1_000_000,
        lacks(m, "energy_full"@) && holds(m, "charge_full"@, c) ==> b.energy_full is Some
            && -1_000_000 <= 2 * (1_000_000 * b.energy_full->0 - c * v) <= 1_000_000,
        lacks(m, "energy_full_design"@) && holds(m, "charge_full_design"@, c)
            ==> b.energy_design is Some && -1_000_000 <= 2 * (1_000_000 * b.energy_design->0 - c
            * v) <= 1_000_000,
{
    lemma_whole(c);
    lemma_whole(v);
    law_a_product_is_to_the_nearest(c, v);
}

/// An energy that no key tells is none.
pub proof fn law_what_no_gauge_says_is_not_known(
    m: Values,
    dir: Seq<char>,
    on_ac: bool,
    b: Battery,
)
    requires
        describes(m, dir, on_ac, b),
    ensures
        lacks(m, "energy_now"@) && (lacks(m, "charge_now"@) || lacks(m, "voltage_now"@))
            <==> b.energy_now is None,
        lacks(m, "energy_full"@) && (lacks(m, "charge_full"@) || lacks(m, "voltage_now"@))
            <==> b.energy_full is None,
        lacks(m, "energy_full_design"@) && (lacks(m, "charge_full_design"@) || lacks(
            m,
            "voltage_now"@,
        )) <==> b.energy_design is None,
        lacks(m, "power_now"@) && (lacks(m, "current_now"@) || lacks(m, "voltage_now"@))
            <==> b.power is None,
        lacks(m, "voltage_now"@) <==> b.voltage is None,
{
}

/// Each energy depends on its own key, its own charge and the voltage alone.
pub proof fn law_each_energy_has_its_own_keys(
    m: Values,
    n: Values,
    dir: Seq<char>,
    on_ac: bool,
    a: Battery,
    b: Battery,
)
    requires
        describes(m, dir, on_ac, a),
        describes(n, dir, on_ac, b),
        agree(m, n, "voltage_now"@),
    ensures
        a.voltage == b.voltage,
        agree(m, n, "energy_now"@) && agree(m, n, "charge_now"@) ==> a.energy_now == b.energy_now,
        agree(m, n, "energy_full"@) && agree(m, n, "charge_full"@) ==> a.energy_full
            == b.energy_full,
        agree(m, n, "energy_full_design"@) && agree(m, n, "charge_full_design"@)
            ==> a.energy_design == b.energy_design,
        agree(m, n, "power_now"@) && agree(m, n, "current_now"@) ==> a.power == b.power,
{
    assert(voltage_in(m) == voltage_in(n));
    if agree(m, n, "energy_now"@) && agree(m, n, "charge_now"@) {
        assert(energy_in(m, "energy_now"@, "charge_now"@) == energy_in(
            n,
            "energy_now"@,
            "charge_now"@,
        ));
    }
    if agree(m, n, "energy_full"@) && agree(m, n, "charge_full"@) {
        assert(energy_in(m, "energy_full"@, "charge_full"@) == energy_in(
            n,
            "energy_full"@,
            "charge_full"@,
        ));
    }
    if agree(m, n, "energy_full_design"@) && agree(m, n, "charge_full_design"@) {
        assert(energy_in(m, "energy_full_design"@, "charge_full_design"@) == energy_in(
            n,
            "energy_full_design"@,
            "charge_full_design"@,
        ));
    }
    if agree(m, n, "power_now"@) && agree(m, n, "current_now"@) {
        assert(power_in(m) == power_in(n));
    }
}

/// Health through a charge gauge is what is left of the charge that was rated, in
/// percent, wherever the voltage makes whole energies of the two charges.
pub proof fn law_health_through_a_charge_gauge(
    m: Values,
    dir: Seq<char>,
    on_ac: bool,
    b: Battery,
    full: int,
    design: int,
    v: int,
    e: int,
    d: int,
)
    requires
        describes(m, dir, on_ac, b),
        lacks(m, "energy_full"@),
        lacks(m, "energy_full_design"@),
        holds(m, "charge_full"@, full),
        holds(m, "charge_full_design"@, design),
        holds(m, "voltage_now"@, v),
        full * v == e * 1_000_000,
        design * v == d * 1_000_000,
        0 < v,
        0 < design,
        0 <= full <= 100 * design,
        0 < d <= 9_000_000_000_000_000_000,
        0 <= e <= 9_000_000_000_000_000_000,
    ensures
        b.wear() is Some,
        -design <= 2 * (design * b.wear()->0 - full * 100_000_000) <= design,
{
    law_a_charge_gauge_goes_through_the_voltage(m, dir, on_ac, b, full, v);
    law_a_charge_gauge_goes_through_the_voltage(m, dir, on_ac, b, design, v);
    assert(b.energy_full->0 == e && b.energy_design->0 == d);
    assert(e <= 100 * d) by (nonlinear_arith)
        requires
            full * v == e * 1_000_000,
            design * v == d * 1_000_000,
            0 < v,
            full <= 100 * design,
    ;
    assert(e * 100_000_000 <= 0x7000_0000_0000_0000 * d && -0x7000_0000_0000_0000 * d <= 0);
    law_health_is_a_share_of_the_rating(b);
    let h = b.wear()->0;
    let x = 2 * (d * h - e * 100_000_000);
    let y = 2 * (design * h - full * 100_000_000);
    assert(1_000_000 * x == v * y) by (nonlinear_arith)
        requires
            full * v == e * 1_000_000,
            design * v == d * 1_000_000,
            x == 2 * (d * h - e * 100_000_000),
            y == 2 * (design * h - full * 100_000_000),
    ;
    assert(-design <= y <= design) by (nonlinear_arith)
        requires
            1_000_000 * x == v * y,
            -d <= x <= d,
            design * v == d * 1_000_000,
            v > 0,
    ;
}

/// The power is a magnitude, whichever way the driver signs it: as it stands, or
/// a current through the voltage.
pub proof fn law_the_power_is_a_magnitude(
    m: Values,
    dir: Seq<char>,
    on_ac: bool,
    b: Battery,
    n: int,
    v: int,
)
    requires
        describes(m, dir, on_ac, b),
        -9_000_000_000_000_000_000_000_000 <= n * v <= 9_000_000_000_000_000_000_000_000,
        v >= 0,
    ensures
        holds(m, "power_now"@, n) ==> b.power is Some && b.power->0 == (if n < 0 {
            -n
        } else {
            n
        }),
        lacks(m, "power_now"@) && holds(m, "current_now"@, n) && holds(m, "voltage_now"@, v)
            ==> b.power is Some && b.power->0 >= 0 && -1_000_000 <= 2 * (1_000_000 * b.power->0
            - (if n < 0 {
            -(n * v)
        } else {
            n * v
        })) <= 1_000_000,
{
    lemma_whole(n);
    lemma_whole(v);
    let size = if n < 0 {
        -n
    } else {
        n
    };
    assert(size * v == if n < 0 {
        -(n * v)
    } else {
        n * v
    }) by (nonlinear_arith)
        requires
            size == if n < 0 {
                -n
            } else {
                n
            },
    ;
    assert(size * v >= 0) by (nonlinear_arith)
        requires
            size >= 0,
            v >= 0,
    ;
    law_a_product_is_to_the_nearest(size, v);
}

/// The charge is what the gauge calls its capacity, held between none and all;
/// without one it is the energy there is, in percent of what fits; and without
/// those it is none.
pub proof fn law_the_charge_is_the_gauges(
    m: Values,
    dir: Seq<char>,
    on_ac: bool,
    b: Battery,
    p: int,
)
    requires
        describes(m, dir, on_ac, b),
    ensures
        m.contains_key("capacity"@) && decimal(m["capacity"@]) == Some(p) ==> {
            &&& 0 <= p <= 100_000_000 ==> b.percent == p
            &&& p < 0 ==> b.percent == 0
            &&& p > 100_000_000 ==> b.percent == 100_000_000
        },
        lacks(m, "capacity"@) && b.energy_now is Some && b.energy_full is Some
            && b.energy_full->0 > 0 ==> {
            &&& 0 <= b.energy_now->0 <= b.energy_full->0 ==> -b.energy_full->0 <= 2 * (
            b.energy_full->0 * b.percent - b.energy_now->0 * 100_000_000) <= b.energy_full->0
            &&& b.energy_now->0 < 0 ==> b.percent == 0
        },
        lacks(m, "capacity"@) && (b.energy_now is None || b.energy_full is None) ==> b.percent
            == 0,
{
    if b.energy_now is Some && b.energy_full is Some && b.energy_full->0 > 0 {
        let now = b.energy_now->0 as int;
        let full = b.energy_full->0 as int;
        law_nearest_lies_within_a_half(now * 100_000_000, full);
        let q = nearest(now * 100_000_000, full);
        if 0 <= now <= full {
            law_a_percentage_is_a_part_of_a_hundred(now, full);
            assert(0 <= q <= 100_000_000) by (nonlinear_arith)
                requires
                    -full <= 2 * (full * q - now * 100_000_000) <= full,
                    now > 0 ==> 2 * (full * q - now * 100_000_000) > -full,
                    now == 0 ==> q == 0,
                    0 <= now <= full,
                    full > 0,
            ;
        } else if now < 0 {
            assert(q <= 0) by (nonlinear_arith)
                requires
                    2 * (full * q - now * 100_000_000) <= full,
                    now < 0,
                    full > 0,
            ;
        }
    }
}

/// The voltage is what its key says, in µV; the cycles are what theirs says, and
/// zero cycles are no reading.
pub proof fn law_the_voltage_and_the_cycles_are_read(
    m: Values,
    dir: Seq<char>,
    on_ac: bool,
    b: Battery,
    n: int,
)
    requires
        describes(m, dir, on_ac, b),
    ensures
        holds(m, "voltage_now"@, n) ==> b.voltage is Some && b.voltage->0 == n,
        holds(m, "cycle_count"@, n) ==> {
            &&& n <= 0 ==> b.cycle_count is None
            &&& 0 < n <= 0xFFFF_FFFF ==> b.cycle_count is Some && b.cycle_count->0 == n
        },
        lacks(m, "cycle_count"@) ==> b.cycle_count is None,
{
    lemma_whole(n);
    assert((n * UNIT) / (UNIT as int) == n);
}

/// The words of a `uevent` are carried through, each from its own key; a
/// technology that is not known is none, and a battery that does not say what it
/// does is not known to do anything.
pub proof fn law_the_words_are_carried_through(
    m: Values,
    dir: Seq<char>,
    on_ac: bool,
    b: Battery,
)
    requires
        describes(m, dir, on_ac, b),
    ensures
        m.contains_key("name"@) ==> b.name@ == m["name"@],
        m.contains_key("model_name"@) ==> b.model is Some && b.model->0@ == m["model_name"@],
        !m.contains_key("model_name"@) ==> b.model is None,
        m.contains_key("manufacturer"@) ==> b.manufacturer is Some && b.manufacturer->0@
            == m["manufacturer"@],
        !m.contains_key("manufacturer"@) ==> b.manufacturer is None,
        m.contains_key("technology"@) && m["technology"@] != "Unknown"@ ==> b.technology is Some
            && b.technology->0@ == m["technology"@],
        m.contains_key("technology"@) && m["technology"@] == "Unknown"@ ==> b.technology is None,
        !m.contains_key("technology"@) ==> b.technology is None,
        m.contains_key("status"@) && trimmed(m["status"@]) == "Charging"@ ==> b.status
            == Status::Charging,
        m.contains_key("status"@) && trimmed(m["status"@]) == "Discharging"@ ==> b.status
            == Status::Discharging,
        m.contains_key("status"@) && trimmed(m["status"@]) == "Full"@ ==> b.status
            == Status::Full,
        m.contains_key("status"@) && trimmed(m["status"@]) == "Not charging"@ ==> b.status
            == Status::NotCharging,
        !m.contains_key("status"@) ==> b.status == Status::Unknown,
        b.on_ac == on_ac,
{
    if m.contains_key("status"@) {
        super::types::law_the_kernels_words(trimmed(m["status"@]));
    }
}

/// A line of a `uevent` sets the value after its first equals sign under the name
/// before it, without the prefix and in lower case, over whatever an earlier line
/// set, and touches nothing else.
pub proof fn law_a_line_sets_its_own_key(
    lines: Seq<Seq<char>>,
    name: Seq<char>,
    value: Seq<char>,
)
    requires
        name.len() > 0,
        value.len() > 0,
        !name.contains('='),
        !is_space(name.last()),
        !is_space(value[0]),
        !is_space(value.last()),
        without_prefix(name, "POWER_SUPPLY_"@) == name,
    ensures
        settings(lines.push("POWER_SUPPLY_"@ + name + seq!['='] + value)) == settings(
            lines,
        ).insert(lowercase(name), value),
        plain_settings(lines.push("POWER_SUPPLY_"@ + name + seq!['='] + value))
            == plain_settings(lines).insert(lowered(name), value),
{
    reveal_strlit("POWER_SUPPLY_");
    let prefix = "POWER_SUPPLY_"@;
    let head = prefix + name;
    let line = head + seq!['='] + value;
    assert(prefix + name + seq!['='] + value == line);
    assert forall|j: int| 0 <= j < head.len() implies line[j] != '=' by {
        if j < prefix.len() {
            assert(line[j] == prefix[j]);
        } else {
            assert(line[j] == name[j - prefix.len()]);
        }
    }
    lemma_first_at(line, '=', head.len() as int);
    assert(line.take(head.len() as int) == head);
    assert(line.skip(head.len() as int + 1) == value);
    assert(cut(line, '=') == Some((head, value)));
    assert(head.last() == name.last());
    lemma_trimmed_alone(head);
    lemma_trimmed_alone(value);
    assert(head.take(prefix.len() as int) == prefix);
    assert(head.skip(prefix.len() as int) == name);
    assert(entry(line) == Some((name, value)));
    assert(setting(line) == Some((lowercase(name), value)));
    assert(lines.push(line).drop_last() == lines);
}

/// A line without an equals sign sets nothing.
pub proof fn law_a_line_without_a_value_sets_nothing(lines: Seq<Seq<char>>, line: Seq<char>)
    requires
        !line.contains('='),
    ensures
        settings(lines.push(line)) == settings(lines),
{
    assert forall|j: int| 0 <= j < line.len() implies line[j] != '=' by {
        assert(line.contains(line[j]));
    }
    lemma_first_at(line, '=', line.len() as int);
    assert(lines.push(line).drop_last() == lines);
}

/// The machine is on mains power when and only when some supply is an adapter that
/// is plugged in, wherever it stands in the list; and a supply is a battery when
/// it says so.
pub proof fn law_an_adapter_feeds(s: Seq<Supply>, j: int)
    requires
        0 <= j < s.len(),
    ensures
        settings(lines_of(s[j].uevent@)).contains_pair("type"@, "Mains"@) && settings(
            lines_of(s[j].uevent@),
        ).contains_pair("online"@, "1"@) ==> any_feeds(s),
        any_feeds(s) ==> exists|k: int|
            #![trigger s[k]]
            0 <= k < s.len() && settings(lines_of(s[k].uevent@)).contains_pair("type"@, "Mains"@)
                && settings(lines_of(s[k].uevent@)).contains_pair("online"@, "1"@),
        s[j].is_battery() <==> settings(lines_of(s[j].uevent@)).contains_pair(
            "type"@,
            "Battery"@,
        ),
{
    if s[j].values().contains_pair("type"@, "Mains"@) && s[j].values().contains_pair(
        "online"@,
        "1"@,
    ) {
        assert(s[j].feeds());
    }
    if any_feeds(s) {
        let k = choose|k: int| 0 <= k < s.len() && (#[trigger] s[k]).feeds();
        assert(settings(lines_of(s[k].uevent@)).contains_pair("type"@, "Mains"@) && settings(
            lines_of(s[k].uevent@),
        ).contains_pair("online"@, "1"@));
    }
}

// ---------------------------------------------------------------------------
// Averages

/// The power readings from `a` to before `b`, added up.
pub open spec fn power_sum(s: Seq<Sample>, a: int, b: int) -> int
    decreases b - a,
{
    if b <= a {
        0
    } else {
        power_sum(s, a, b - 1) + match s[b - 1].power {
            Some(power) => power as int,
            None => 0,
        }
    }
}

/// How many of the readings from `a` to before `b` tell a power.
pub open spec fn power_count(s: Seq<Sample>, a: int, b: int) -> int
    decreases b - a,
{
    if b <= a {
        0
    } else {
        power_count(s, a, b - 1) + if s[b - 1].power is Some {
            1int
        } else {
            0
        }
    }
}

pub proof fn lemma_sums(s: Seq<Sample>, a: int, b: int)
    requires
        0 <= a <= b <= s.len(),
    ensures
        readings(s.subrange(a, b)).len() == power_count(s, a, b),
        total(readings(s.subrange(a, b))) == power_sum(s, a, b),
    decreases b - a,
{
    if a < b {
        lemma_sums(s, a, b - 1);
        let sub = s.subrange(a, b);
        assert(sub.drop_last() == s.subrange(a, b - 1));
        assert(sub.last() == s[b - 1]);
        if s[b - 1].power is Some {
            let r = readings(sub);
            assert(r.drop_last() == readings(sub.drop_last()));
        }
    } else {
        assert(s.subrange(a, b) == Seq::<Sample>::empty());
    }
}

pub proof fn lemma_mean_fits(r: Seq<i64>)
    ensures
        average(r) matches Some(m) ==> i64::MIN <= m <= i64::MAX,
{
    if r.len() > 0 {
        lemma_total_within(r);
        let n = r.len() as int;
        let t = total(r);
        law_nearest_lies_within_a_half(t, n);
        let m = average(r)->0;
        assert(-0x8000_0000_0000_0000 <= m <= 0x7fff_ffff_ffff_ffff) by (nonlinear_arith)
            requires
                -n <= 2 * (n * m - t) <= n,
                t > 0 ==> 2 * (n * m - t) > -n,
                t < 0 ==> 2 * (n * m - t) < n,
                t == 0 ==> m == 0,
                -0x8000_0000_0000_0000 * n <= t <= 0x7fff_ffff_ffff_ffff * n,
                n > 0,
        ;
    }
}

proof fn lemma_total_within(r: Seq<i64>)
    ensures
        -0x8000_0000_0000_0000 * r.len() <= total(r) <= 0x7fff_ffff_ffff_ffff * r.len(),
    decreases r.len(),
{
    if r.len() > 0 {
        lemma_total_within(r.drop_last());
    }
}


/// The trailing average runs over the newest polls: back as far as they lie within
/// the window and no two neighbours lie further apart than the gap, and no
/// further. It is the mean of the powers they tell, and there is none of fewer
/// than two.
pub proof fn law_the_trailing_average(history: History, window: int, gap: int)
    requires
        history@.len() > 0,
        window >= 0,
        gap >= 0,
    ensures
        exists|from: int| is_trailing(history@, from, window, gap) && #[trigger] is_mean(
            history.trailing_power(window, gap),
            history@,
            from,
        ),
{
    let s = history@;
    let last = s.len() - 1;
    let from = stretch_from(s, last, window, gap);
    lemma_stretch(s, last, window, gap);
    lemma_sums(s, from, s.len() as int);
    assert(s.skip(from) == s.subrange(from, s.len() as int));
    let r = readings(stretch(s, window, gap));
    let n = power_count(s, from, s.len() as int);
    if r.len() >= 2 {
        law_nearest_lies_within_a_half(total(r), n);
        let m = average(r)->0;
        assert(n * m == m * n) by (nonlinear_arith);
    }
    assert(is_mean(history.trailing_power(window, gap), s, from));
}

/// How long after the sample before it a sample came.
pub open spec fn after_last(s: Seq<Sample>, k: int) -> int {
    s[k].at - s[k - 1].at
}

/// The polls from `from` on are the newest without a break.
pub open spec fn is_trailing(s: Seq<Sample>, from: int, window: int, gap: int) -> bool {
    &&& 0 <= from < s.len()
    &&& forall|k: int| from <= k < s.len() ==> s.last().at - (#[trigger] s[k]).at <= window
    &&& forall|k: int| from < k < s.len() ==> #[trigger] after_last(s, k) <= gap
    &&& from > 0 ==> s.last().at - s[from - 1].at > window || s[from].at - s[from - 1].at > gap
}

/// `m` is the mean of the powers from `from` on, where there are two.
pub open spec fn is_mean(m: Option<int>, s: Seq<Sample>, from: int) -> bool {
    let n = power_count(s, from, s.len() as int);
    match m {
        Some(m) => n >= 2 && -n <= 2 * (m * n - power_sum(s, from, s.len() as int)) <= n,
        None => n < 2,
    }
}

proof fn lemma_stretch(s: Seq<Sample>, i: int, window: int, gap: int)
    requires
        0 <= i < s.len(),
        window >= 0,
        gap >= 0,
        forall|k: int| i <= k < s.len() ==> s.last().at - (#[trigger] s[k]).at <= window,
        forall|k: int| i < k < s.len() ==> #[trigger] after_last(s, k) <= gap,
    ensures
        is_trailing(s, stretch_from(s, i, window, gap), window, gap),
    decreases i,
{
    if 0 < i && elapsed(s[i - 1].at as int, s.last().at as int) <= window && elapsed(
        s[i - 1].at as int,
        s[i].at as int,
    ) <= gap {
        assert forall|k: int| i - 1 <= k < s.len() implies s.last().at - (#[trigger] s[k]).at
            <= window by {
        }
        lemma_stretch(s, i - 1, window, gap);
    }
}

/// The newest sample goes in at the end, the oldest makes room for it where the
/// ring is full, and the rest stays as it was.
pub proof fn law_a_ring_takes_the_newest(s: Seq<Sample>, capacity: nat, x: Sample)
    requires
        0 < capacity,
        s.len() <= capacity,
    ensures
        pushed(s, capacity, x).last() == x,
        s.len() < capacity ==> pushed(s, capacity, x) == s + seq![x],
        s.len() == capacity ==> pushed(s, capacity, x) == s.subrange(1, s.len() as int)
            + seq![x],
{
}

/// What comes from an earlier session goes in underneath: all that is older than
/// everything here, and nothing else; what was here stays at the end.
pub proof fn law_an_earlier_session_goes_underneath(more: Seq<Sample>, ring: Seq<Sample>, x: Sample)
    ensures
        older_than(more, ring).contains(x) <==> more.contains(x) && (ring.len() == 0 || x.at
            < ring[0].at),
    decreases more.len(),
{
    if more.len() > 0 {
        let init = more.drop_last();
        let y = more.last();
        law_an_earlier_session_goes_underneath(init, ring, x);
        let rest = older_than(init, ring);
        assert(more == init.push(y));
        assert(more.contains(x) <==> init.contains(x) || x == y) by {
            if init.contains(x) {
                let k = choose|k: int| 0 <= k < init.len() && init[k] == x;
                assert(more[k] == x);
            }
            if x == y {
                assert(more[more.len() - 1] == x);
            }
            if more.contains(x) {
                let k = choose|k: int| 0 <= k < more.len() && more[k] == x;
                if k < init.len() {
                    assert(init[k] == x);
                }
            }
        }
        if ring.len() == 0 || y.at < ring[0].at {
            let all = older_than(more, ring);
            assert(all == rest.push(y));
            assert(all.contains(x) <==> rest.contains(x) || x == y) by {
                if rest.contains(x) {
                    let k = choose|k: int| 0 <= k < rest.len() && rest[k] == x;
                    assert(all[k] == x);
                }
                if x == y {
                    assert(all[rest.len() as int] == x);
                }
                if all.contains(x) {
                    let k = choose|k: int| 0 <= k < all.len() && all[k] == x;
                    if k < rest.len() {
                        assert(rest[k] == x);
                    }
                }
            }
        }
    }
}

/// Of a list no more than so many are kept, and they are the last ones.
pub proof fn law_the_newest_are_the_last(s: Seq<Sample>, n: nat)
    ensures
        s.len() <= n ==> newest_of(s, n) == s,
        s.len() > n ==> newest_of(s, n) == s.subrange(s.len() - n, s.len() as int),
{
}

/// The time from one moment to another is their difference, and none backwards.
pub proof fn law_time_runs_forward(a: int, b: int)
    ensures
        a <= b ==> elapsed(a, b) == b - a,
        b <= a ==> elapsed(a, b) == 0,
{
}

/// A directory is called by the last part of its path.
pub proof fn law_a_directory_is_called_by_its_last_part(path: Seq<char>, name: Seq<char>)
    requires
        name.len() > 0,
        !name.contains('/'),
        name != "."@,
        name != ".."@,
    ensures
        name_of(path + seq!['/'] + name) == name,
{
    let s = path + seq!['/'] + name;
    assert(name.contains(name.last()));
    assert(s.last() == name.last());
    assert(without_slashes(s) == s);
    lemma_last_part(path + seq!['/'], name);
    assert(after_slash(s) == name);
}

proof fn lemma_last_part(path: Seq<char>, name: Seq<char>)
    requires
        path.len() > 0,
        path.last() == '/',
        !name.contains('/'),
    ensures
        after_slash(path + name) == name,
    decreases name.len(),
{
    let s = path + name;
    if name.len() == 0 {
        assert(s == path);
        assert(after_slash(s) == name);
    } else {
        assert(name.contains(name.last()));
        assert(s.drop_last() == path + name.drop_last());
        assert forall|c: char| name.drop_last().contains(c) implies name.contains(c) by {
            let k = choose|k: int| 0 <= k < name.drop_last().len() && name.drop_last()[k] == c;
            assert(name[k] == c);
        }
        lemma_last_part(path, name.drop_last());
        assert(after_slash(s) == name.drop_last().push(name.last()));
        assert(name.drop_last().push(name.last()) == name);
    }
}

/// What is read is a battery wherever there is one: one whose directory no other
/// battery's comes before, as its own `uevent` describes it, on mains power where
/// any adapter is plugged in.
pub proof fn law_the_first_battery_is_read(s: Seq<Supply>, r: Option<Battery>)
    requires
        is_read(s, r),
    ensures
        r is Some <==> exists|j: int|
            #![trigger s[j]]
            0 <= j < s.len() && settings(lines_of(s[j].uevent@)).contains_pair(
                "type"@,
                "Battery"@,
            ),
        r matches Some(b) ==> {
            &&& b.on_ac <==> exists|k: int|
                #![trigger s[k]]
                0 <= k < s.len() && settings(lines_of(s[k].uevent@)).contains_pair(
                    "type"@,
                    "Mains"@,
                ) && settings(lines_of(s[k].uevent@)).contains_pair("online"@, "1"@)
            &&& exists|i: int|
                #![trigger s[i]]
                0 <= i < s.len() && describes(
                    settings(lines_of(s[i].uevent@)),
                    s[i].dir@,
                    b.on_ac,
                    b,
                ) && forall|j: int|
                    0 <= j < s.len() && (#[trigger] s[j]).is_battery() ==> !before(
                        s[j].dir@,
                        s[i].dir@,
                    )
        },
{
    law_no_battery_comes_before_the_first(s);
    if let Some(b) = r {
        let i = choose|i: int|
            #[trigger] first_battery(s, i) && describes(
                s[i].values(),
                s[i].dir@,
                any_feeds(s),
                b,
            );
        assert(s[i].is_battery());
        law_an_adapter_feeds(s, i);
        assert forall|j: int| 0 <= j < s.len() && (#[trigger] s[j]).is_battery() implies !before(
            s[j].dir@,
            s[i].dir@,
        ) by {
            assert(first_battery(s, i));
            let d = s[i].dir@;
        }
        if exists|k: int|
            #![trigger s[k]]
            0 <= k < s.len() && settings(lines_of(s[k].uevent@)).contains_pair("type"@, "Mains"@)
                && settings(lines_of(s[k].uevent@)).contains_pair("online"@, "1"@) {
            let k = choose|k: int|
                #![trigger s[k]]
                0 <= k < s.len() && settings(lines_of(s[k].uevent@)).contains_pair(
                    "type"@,
                    "Mains"@,
                ) && settings(lines_of(s[k].uevent@)).contains_pair("online"@, "1"@);
            law_an_adapter_feeds(s, k);
        }
        assert(settings(lines_of(s[i].uevent@)).contains_pair("type"@, "Battery"@));
    } else {
        assert forall|j: int| 0 <= j < s.len() implies !settings(
            lines_of((#[trigger] s[j]).uevent@),
        ).contains_pair("type"@, "Battery"@) by {
            assert(!s[j].is_battery());
        }
    }
}

} // verus!

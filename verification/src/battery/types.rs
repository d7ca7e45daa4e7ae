//! Our battery types. Nothing above this module reads a sysfs string.

use vstd::prelude::*;

use crate::duration::Duration;
use crate::decimal::{div_half_even, half_even};
use crate::micro::{law_a_percentage_is_a_part_of_a_hundred, percent_of, percentage, Micro};
use crate::text::{chars_of, same, trim, trimmed};

verus! {

#[derive(Debug, Clone, Copy, PartialEq, Eq, Structural)]
pub enum Status {
    Charging,
    Discharging,
    Full,
    NotCharging,
    Unknown,
}

impl Default for Status {
    fn default() -> (r: Self)
        ensures
            r == Status::Unknown,
    {
        Status::Unknown
    }
}

impl Status {
    /// The status that the kernel's own word stands for.
    pub open spec fn named(word: Seq<char>) -> Self {
        if word == "Charging"@ {
            Status::Charging
        } else if word == "Discharging"@ {
            Status::Discharging
        } else if word == "Full"@ {
            Status::Full
        } else if word == "Not charging"@ {
            Status::NotCharging
        } else {
            Status::Unknown
        }
    }

    pub fn parse(raw: &str) -> (r: Self)
        ensures
            r == Status::named(trimmed(raw@)),
    {
        let all = chars_of(raw);
        let word = trim(all.as_slice());
        if same(word, "Charging") {
            Status::Charging
        } else if same(word, "Discharging") {
            Status::Discharging
        } else if same(word, "Full") {
            Status::Full
        } else if same(word, "Not charging") {
            Status::NotCharging
        } else {
            Status::Unknown
        }
    }

    pub open spec fn label_text(self) -> Seq<char> {
        match self {
            Status::Charging => "Charging"@,
            Status::Discharging => "Discharging"@,
            Status::Full => "Fully charged"@,
            Status::NotCharging => "Not charging"@,
            Status::Unknown => "Unknown"@,
        }
    }

    pub fn label(self) -> (r: &'static str)
        ensures
            r@ == self.label_text(),
    {
        match self {
            Status::Charging => "Charging",
            Status::Discharging => "Discharging",
            Status::Full => "Fully charged",
            Status::NotCharging => "Not charging",
            Status::Unknown => "Unknown",
        }
    }

    pub open spec fn icon_text(self) -> Seq<char> {
        match self {
            Status::Charging => "battery-level-100-charging-symbolic"@,
            Status::Full => "battery-level-100-charged-symbolic"@,
            _ => "battery-symbolic"@,
        }
    }

    pub fn icon_name(self) -> (r: &'static str)
        ensures
            r@ == self.icon_text(),
    {
        match self {
            Status::Charging => "battery-level-100-charging-symbolic",
            Status::Full => "battery-level-100-charged-symbolic",
            _ => "battery-symbolic",
        }
    }

    /// The word that stands for a status in the history file.
    pub open spec fn key_text(self) -> Seq<char> {
        match self {
            Status::Charging => "charging"@,
            Status::Discharging => "discharging"@,
            Status::Full => "full"@,
            Status::NotCharging => "not-charging"@,
            Status::Unknown => "unknown"@,
        }
    }

    pub fn as_key(self) -> (r: &'static str)
        ensures
            r@ == self.key_text(),
    {
        match self {
            Status::Charging => "charging",
            Status::Discharging => "discharging",
            Status::Full => "full",
            Status::NotCharging => "not-charging",
            Status::Unknown => "unknown",
        }
    }

    /// The status that a word in the history file stands for.
    pub open spec fn keyed(key: Seq<char>) -> Self {
        if key == "charging"@ {
            Status::Charging
        } else if key == "discharging"@ {
            Status::Discharging
        } else if key == "full"@ {
            Status::Full
        } else if key == "not-charging"@ {
            Status::NotCharging
        } else {
            Status::Unknown
        }
    }

    pub fn from_key(key: &str) -> (r: Self)
        ensures
            r == Status::keyed(key@),
    {
        let word = chars_of(key);
        Status::of_key(word.as_slice())
    }

    pub(crate) fn of_key(key: &[char]) -> (r: Self)
        ensures
            r == Status::keyed(key@),
    {
        if same(key, "charging") {
            Status::Charging
        } else if same(key, "discharging") {
            Status::Discharging
        } else if same(key, "full") {
            Status::Full
        } else if same(key, "not-charging") {
            Status::NotCharging
        } else {
            Status::Unknown
        }
    }
}

/// A status survives being written as its key and read back.
pub proof fn law_status_keys_round_trip(status: Status)
    ensures
        Status::keyed(status.key_text()) == status,
{
    reveal_strlit("charging");
    reveal_strlit("discharging");
    reveal_strlit("full");
    reveal_strlit("not-charging");
    reveal_strlit("unknown");
    assert("charging"@[0] == 'c' && "discharging"@[0] == 'd' && "full"@[0] == 'f'
        && "not-charging"@[0] == 'n' && "unknown"@[0] == 'u');
}

/// The least power an estimate is made from: 0.1 W.
pub const MIN_DRAW: i64 = 100_000;

/// One reading of one battery. Energies are in µWh, powers in µW, voltages in µV
/// and percentages in millionths of a percent; what kind of gauge they came from
/// is settled in `sysfs`.
#[derive(Debug, Clone)]
pub struct Battery {
    pub name: String,
    pub status: Status,
    pub percent: Micro,
    pub energy_now: Option<Micro>,
    pub energy_full: Option<Micro>,
    pub energy_design: Option<Micro>,
    pub power: Option<Micro>,
    pub voltage: Option<Micro>,
    pub cycle_count: Option<u32>,
    pub model: Option<String>,
    pub manufacturer: Option<String>,
    pub technology: Option<String>,
    pub on_ac: bool,
}

impl Default for Battery {
    fn default() -> (r: Self)
        ensures
            r.name@ == Seq::<char>::empty(),
            r.status == Status::Unknown,
            r.percent == 0,
            r.energy_now is None,
            r.energy_full is None,
            r.energy_design is None,
            r.power is None,
            r.voltage is None,
            r.cycle_count is None,
            r.model is None,
            r.manufacturer is None,
            r.technology is None,
            !r.on_ac,
    {
        Battery {
            name: String::new(),
            status: Status::Unknown,
            percent: 0,
            energy_now: None,
            energy_full: None,
            energy_design: None,
            power: None,
            voltage: None,
            cycle_count: None,
            model: None,
            manufacturer: None,
            technology: None,
            on_ac: false,
        }
    }
}

impl Battery {
    /// Usable capacity against the factory rating.
    pub open spec fn wear(self) -> Option<int> {
        match (self.energy_full, self.energy_design) {
            (Some(full), Some(design)) => if design > 0 {
                Some(percentage(full as int, design as int))
            } else {
                None
            },
            _ => None,
        }
    }

    /// Usable capacity against the factory rating, as a percentage.
    pub fn health(&self) -> (r: Option<Micro>)
        ensures
            match r {
                Some(percent) => self.wear() == Some(percent as int),
                None => self.wear() is None,
            },
    {
        match (self.energy_full, self.energy_design) {
            (Some(full), Some(design)) => {
                if design > 0 {
                    Some(percent_of(full, design))
                } else {
                    None
                }
            },
            _ => None,
        }
    }

    /// The energy still to be moved: what is left when discharging, what is
    /// missing when charging. Nothing is to be moved otherwise.
    pub open spec fn to_move(self) -> Option<int> {
        match (self.status, self.energy_now) {
            (Status::Discharging, Some(now)) => Some(now as int),
            (Status::Charging, Some(now)) => match self.energy_full {
                Some(full) => Some(full - now),
                None => None,
            },
            _ => None,
        }
    }

    /// How many nanoseconds the energy still to be moved takes at `power`, to the
    /// nearest.
    pub open spec fn nanos_at(self, power: int) -> Option<int> {
        match self.to_move() {
            Some(energy) => if power > MIN_DRAW && energy > 0 {
                Some(half_even((energy * 3_600_000_000_000) as nat, power as nat) as int)
            } else {
                None
            },
            None => None,
        }
    }

    /// Time until empty when discharging, until full when charging, at the given
    /// power. `None` when idle, and while there is next to no power to speak of.
    pub fn time_remaining_at(&self, power: Micro) -> (r: Option<Duration>)
        ensures
            match r {
                Some(left) => left.wf() && self.nanos_at(power as int) == Some(left.length()),
                None => self.nanos_at(power as int) is None,
            },
    {
        if power <= MIN_DRAW {
            return None;
        }
        let now: i64 = match self.energy_now {
            Some(now) => now,
            None => {
                return None;
            },
        };
        let energy: i128 = match self.status {
            Status::Discharging => now as i128,
            Status::Charging => match self.energy_full {
                Some(full) => full as i128 - now as i128,
                None => {
                    return None;
                },
            },
            _ => {
                return None;
            },
        };
        if energy <= 0 {
            return None;
        }
        let scaled: u128 = energy as u128 * 3_600_000_000_000;
        let nanos: u128 = div_half_even(scaled, power as u128);
        proof {
            lemma_quotient_small(scaled as int, power as int);
        }
        Some(Duration::from_nanos(nanos))
    }

    /// How many nanoseconds that takes at the power of this very reading.
    pub open spec fn nanos_left(self) -> Option<int> {
        match self.power {
            Some(power) => self.nanos_at(power as int),
            None => None,
        }
    }

    /// Time until empty when discharging, until full when charging, at the power
    /// of this very reading. `None` when idle, or while the gauge still reads
    /// zero draw right after a state change.
    pub fn time_remaining(&self) -> (r: Option<Duration>)
        ensures
            match r {
                Some(left) => left.wf() && self.nanos_left() == Some(left.length()),
                None => self.nanos_left() is None,
            },
    {
        match self.power {
            Some(power) => self.time_remaining_at(power),
            None => None,
        }
    }

    pub fn icon_name(&self) -> (r: String)
        ensures
            r@ == self.status.icon_text(),
    {
        self.status.icon_name().to_owned()
    }
}

proof fn lemma_quotient_small(scaled: int, power: int)
    requires
        0 <= scaled <= 0x1_0000_0000_0000_0000 * 3_600_000_000_000,
        power > MIN_DRAW,
    ensures
        half_even(scaled as nat, power as nat) / 1_000_000_000 <= u64::MAX,
{
    assert(scaled / power <= scaled / 100_000) by (nonlinear_arith)
        requires
            scaled >= 0,
            power > 100_000,
    ;
}

/// Half of the divisor at most lies between a rounded quotient and the exact one.
proof fn lemma_half_even(a: nat, b: nat)
    requires
        b > 0,
    ensures
        -b <= 2 * (half_even(a, b) * b - a) <= b,
{
    let q = a / b;
    assert(a == q * b + a % b && a % b < b) by (nonlinear_arith)
        requires
            q == a / b,
            b > 0,
    ;
    assert((q + 1) * b == q * b + b) by (nonlinear_arith);
}

/// What is left lasts until it is gone: while discharging, the power moves in the
/// estimated time just the energy that is in the battery, to the nearest
/// nanosecond. Energies are in µWh, powers in µW.
pub proof fn law_the_time_left_empties_the_battery(battery: Battery, power: int)
    requires
        battery.status == Status::Discharging,
        battery.energy_now is Some,
        battery.energy_now->0 > 0,
        power > 100_000,
    ensures
        battery.nanos_at(power) is Some,
        -power <= 2 * (battery.nanos_at(power)->0 * power - battery.energy_now->0
            * 3_600_000_000_000) <= power,
{
    lemma_half_even((battery.energy_now->0 * 3_600_000_000_000) as nat, power as nat);
}

/// What is missing takes until it is there: while charging, the power moves in the
/// estimated time just what the battery lacks of its capacity.
pub proof fn law_the_time_left_fills_the_battery(battery: Battery, power: int)
    requires
        battery.status == Status::Charging,
        battery.energy_now is Some,
        battery.energy_full is Some,
        battery.energy_full->0 > battery.energy_now->0,
        power > 100_000,
    ensures
        battery.nanos_at(power) is Some,
        -power <= 2 * (battery.nanos_at(power)->0 * power - (battery.energy_full->0
            - battery.energy_now->0) * 3_600_000_000_000) <= power,
{
    let missing = battery.energy_full->0 - battery.energy_now->0;
    lemma_half_even((missing * 3_600_000_000_000) as nat, power as nat);
}

/// There is no estimate but from a battery that is charging or discharging, that
/// says how much it holds, with something left to move and more than a tenth of a
/// watt to move it.
pub proof fn law_an_estimate_needs_something_to_move(battery: Battery, power: int)
    requires
        battery.nanos_at(power) is Some,
    ensures
        power > 100_000,
        battery.energy_now is Some,
        battery.status == Status::Discharging && battery.energy_now->0 > 0 || battery.status
            == Status::Charging && battery.energy_full is Some && battery.energy_full->0
            > battery.energy_now->0,
{
}

/// The fuller a charging battery, the shorter the time until full; the fuller a
/// discharging one, the longer the time left.
pub proof fn law_the_estimate_follows_the_charge(less: Battery, more: Battery, power: int)
    requires
        less.status == more.status,
        less.energy_full == more.energy_full,
        less.energy_now is Some,
        more.energy_now is Some,
        less.energy_now->0 <= more.energy_now->0,
        less.nanos_at(power) is Some,
        more.nanos_at(power) is Some,
    ensures
        less.status == Status::Charging ==> less.nanos_at(power)->0 >= more.nanos_at(power)->0,
        less.status == Status::Discharging ==> less.nanos_at(power)->0 <= more.nanos_at(power)->0,
{
    law_an_estimate_needs_something_to_move(less, power);
    law_an_estimate_needs_something_to_move(more, power);
    let a = less.nanos_at(power)->0;
    let b = more.nanos_at(power)->0;
    if less.energy_now->0 < more.energy_now->0 {
        if less.status == Status::Charging {
            law_the_time_left_fills_the_battery(less, power);
            law_the_time_left_fills_the_battery(more, power);
            assert(a >= b) by (nonlinear_arith)
                requires
                    2 * (a * power - b * power) > -2 * power,
                    power > 0,
            ;
        } else {
            law_the_time_left_empties_the_battery(less, power);
            law_the_time_left_empties_the_battery(more, power);
            assert(a <= b) by (nonlinear_arith)
                requires
                    2 * (b * power - a * power) > -2 * power,
                    power > 0,
            ;
        }
    }
}

/// The more power, the less time.
pub proof fn law_more_power_takes_less_time(battery: Battery, less: int, more: int)
    requires
        less <= more,
        battery.nanos_at(less) is Some,
    ensures
        battery.nanos_at(more) is Some,
        battery.nanos_at(more)->0 <= battery.nanos_at(less)->0,
{
    law_an_estimate_needs_something_to_move(battery, less);
    let a = battery.nanos_at(less)->0;
    let b = battery.nanos_at(more)->0;
    let e: int = if battery.status == Status::Charging {
        law_the_time_left_fills_the_battery(battery, less);
        law_the_time_left_fills_the_battery(battery, more);
        battery.energy_full->0 - battery.energy_now->0
    } else {
        law_the_time_left_empties_the_battery(battery, less);
        law_the_time_left_empties_the_battery(battery, more);
        battery.energy_now->0 as int
    };
    if less < more {
        assert(b <= a) by (nonlinear_arith)
            requires
                0 < less < more,
                e > 0,
                2 * (a * less - e * 3_600_000_000_000) >= -less,
                2 * (b * more - e * 3_600_000_000_000) <= more,
        ;
    }
}

/// Health is the share of the factory rating that the battery still takes, in
/// percent, and there is none without a rating to compare to.
pub proof fn law_health_is_a_share_of_the_rating(battery: Battery)
    ensures
        battery.wear() is Some <==> battery.energy_full is Some && battery.energy_design is Some
            && battery.energy_design->0 > 0,
        battery.wear() is Some && -0x7000_0000_0000_0000 * battery.energy_design->0
            <= battery.energy_full->0 * 100_000_000 <= 0x7000_0000_0000_0000
            * battery.energy_design->0 ==> -battery.energy_design->0 <= 2 * (
        battery.energy_design->0 * battery.wear()->0 - battery.energy_full->0 * 100_000_000)
            <= battery.energy_design->0,
{
    if battery.wear() is Some {
        let full = battery.energy_full->0 as int;
        let design = battery.energy_design->0 as int;
        if -0x7000_0000_0000_0000 * design <= full * 100_000_000 <= 0x7000_0000_0000_0000 * design {
            law_a_percentage_is_a_part_of_a_hundred(full, design);
        }
    }
}

/// Each of the kernel's words stands for its own status, and any other for none
/// that is known.
pub proof fn law_the_kernels_words(word: Seq<char>)
    ensures
        Status::named(word) == Status::Charging <==> word == "Charging"@,
        Status::named(word) == Status::Discharging <==> word == "Discharging"@,
        Status::named(word) == Status::Full <==> word == "Full"@,
        Status::named(word) == Status::NotCharging <==> word == "Not charging"@,
{
    reveal_strlit("Charging");
    reveal_strlit("Discharging");
    reveal_strlit("Full");
    reveal_strlit("Not charging");
    assert("Charging"@[0] == 'C' && "Discharging"@[0] == 'D' && "Full"@[0] == 'F'
        && "Not charging"@[0] == 'N');
}

/// The words of the history file.
pub proof fn law_the_files_words(word: Seq<char>)
    ensures
        Status::keyed(word) == Status::Charging <==> word == "charging"@,
        Status::keyed(word) == Status::Discharging <==> word == "discharging"@,
        Status::keyed(word) == Status::Full <==> word == "full"@,
        Status::keyed(word) == Status::NotCharging <==> word == "not-charging"@,
{
    reveal_strlit("charging");
    reveal_strlit("discharging");
    reveal_strlit("full");
    reveal_strlit("not-charging");
    assert("charging"@[0] == 'c' && "discharging"@[0] == 'd' && "full"@[0] == 'f'
        && "not-charging"@[0] == 'n');
}

/// Of a reading itself: what it tells of time is what its own power takes for what
/// it has left, or for what it lacks; and nothing where it tells no power.
pub proof fn law_a_reading_tells_its_own_time(battery: Battery)
    ensures
        battery.power is None ==> battery.nanos_left() is None,
        battery.nanos_left() matches Some(left) ==> {
            let power = battery.power->0;
            let energy: int = if battery.status == Status::Charging {
                battery.energy_full->0 - battery.energy_now->0
            } else {
                battery.energy_now->0 as int
            };
            &&& battery.status == Status::Charging || battery.status == Status::Discharging
            &&& energy > 0
            &&& -power <= 2 * (left * power - energy * 3_600_000_000_000) <= power
        },
        battery.power is Some && battery.power->0 > 100_000 && battery.energy_now is Some && (
        battery.status == Status::Discharging && battery.energy_now->0 > 0 || battery.status
            == Status::Charging && battery.energy_full is Some && battery.energy_full->0
            > battery.energy_now->0) ==> battery.nanos_left() is Some,
{
    if let Some(power) = battery.power {
        if battery.nanos_at(power as int) is Some {
            law_an_estimate_needs_something_to_move(battery, power as int);
            if battery.status == Status::Charging {
                law_the_time_left_fills_the_battery(battery, power as int);
            } else {
                law_the_time_left_empties_the_battery(battery, power as int);
            }
        } else if power > 100_000 && battery.energy_now is Some {
            if battery.status == Status::Discharging && battery.energy_now->0 > 0 {
                law_the_time_left_empties_the_battery(battery, power as int);
            } else if battery.status == Status::Charging && battery.energy_full is Some
                && battery.energy_full->0 > battery.energy_now->0 {
                law_the_time_left_fills_the_battery(battery, power as int);
            }
        }
    }
}

/// What each status is called, and which icon stands for it.
pub proof fn law_each_status_is_called_its_own(status: Status)
    ensures
        status == Status::Charging ==> status.label_text() == "Charging"@ && status.icon_text()
            == "battery-level-100-charging-symbolic"@,
        status == Status::Discharging ==> status.label_text() == "Discharging"@
            && status.icon_text() == "battery-symbolic"@,
        status == Status::Full ==> status.label_text() == "Fully charged"@ && status.icon_text()
            == "battery-level-100-charged-symbolic"@,
        status == Status::NotCharging ==> status.label_text() == "Not charging"@
            && status.icon_text() == "battery-symbolic"@,
        status == Status::Unknown ==> status.label_text() == "Unknown"@ && status.icon_text()
            == "battery-symbolic"@,
{
}

} // verus!

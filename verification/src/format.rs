//! Value -> label. Every "—" in the UI comes from a `None` here.

use vstd::prelude::*;

use crate::decimal::laws::{law_what_is_rounded_is_near, law_what_is_written_is_near};
use crate::decimal::{
    cut_to, decimal, fixed, integer, natural, push_fixed, push_integer, push_natural, round,
    rounded, ten_to,
};
use crate::duration::Duration;
use crate::micro::{Micro, UNIT};
use crate::text::{chars_of, string_of, trim, trimmed};

verus! {

/// What stands where there is nothing to show.
pub const EMPTY: &'static str = "—";

/// The pattern that shows a time of day. `%l` is space padded, hence the trim in
/// `time_text`; `%p` is empty in locales without AM/PM, which trims away too.
pub fn time_pattern(twelve_hour: bool) -> (r: &'static str)
    ensures
        r@ == (if twelve_hour {
            "%l:%M %p"@
        } else {
            "%H:%M"@
        }),
{
    if twelve_hour {
        "%l:%M %p"
    } else {
        "%H:%M"
    }
}

/// The time of day as shown, from the time that the pattern gave.
pub fn time_text(formatted: Option<String>) -> (r: String)
    ensures
        r@ == match formatted {
            Some(text) => trimmed(text@),
            None => seq![],
        },
{
    match formatted {
        Some(text) => {
            let all = chars_of(text.as_str());
            string_of(trim(all.as_slice()))
        },
        None => String::new(),
    }
}

/// A length of time in words: hours and minutes, whichever there are.
pub open spec fn duration_text(secs: int) -> Seq<char> {
    let minutes = secs / 60;
    let h = minutes / 60;
    let m = minutes % 60;
    if h == 0 && m == 0 {
        "less than a minute"@
    } else if h == 0 {
        natural(m as nat) + " min"@
    } else if m == 0 {
        natural(h as nat) + " h"@
    } else {
        natural(h as nat) + " h "@ + natural(m as nat) + " min"@
    }
}

pub fn duration(value: Duration) -> (r: String)
    ensures
        r@ == duration_text(value.secs as int),
{
    let minutes: u64 = value.as_secs() / 60;
    let h: u64 = minutes / 60;
    let m: u64 = minutes % 60;
    let mut out = String::new();
    if h == 0 && m == 0 {
        return "less than a minute".to_owned();
    }
    if h == 0 {
        push_natural(&mut out, m);
        out.append(" min");
    } else if m == 0 {
        push_natural(&mut out, h);
        out.append(" h");
    } else {
        push_natural(&mut out, h);
        out.append(" h ");
        push_natural(&mut out, m);
        out.append(" min");
    }
    assert(out@ == duration_text(value.secs as int));
    out
}

/// A quantity with its unit, or the dash where there is none.
pub open spec fn unit_text(value: Option<Micro>, decimals: nat, suffix: Seq<char>) -> Seq<char> {
    match value {
        Some(v) => fixed(v as int, decimals) + " "@ + suffix,
        None => EMPTY@,
    }
}

pub fn unit(value: Option<Micro>, decimals: usize, suffix: &str) -> (r: String)
    ensures
        r@ == unit_text(value, decimals as nat, suffix@),
{
    match value {
        Some(v) => {
            let mut out = String::new();
            push_fixed(&mut out, v, decimals);
            out.append(" ");
            out.append(suffix);
            assert(out@ == unit_text(value, decimals as nat, suffix@));
            out
        },
        None => EMPTY.to_owned(),
    }
}

/// A percentage to the nearest whole percent.
pub open spec fn percent_text(value: int) -> Seq<char> {
    integer(rounded(value)) + "%"@
}

pub fn percent(value: Micro) -> (r: String)
    ensures
        r@ == percent_text(value as int),
{
    let mut out = String::new();
    push_integer(&mut out, round(value));
    out.append("%");
    assert(out@ == percent_text(value as int));
    out
}

pub fn text(value: Option<&String>) -> (r: String)
    ensures
        r@ == match value {
            Some(text) => text@,
            None => EMPTY@,
        },
{
    match value {
        Some(text) => text.clone(),
        None => EMPTY.to_owned(),
    }
}

// ---------------------------------------------------------------------------
// What a label tells

/// A length of time is told in whole hours and minutes: the hours where there are
/// any, the minutes past them where there are any, and less than a minute as just
/// that.
pub proof fn law_a_length_is_told_in_hours_and_minutes(h: nat, m: nat, secs: nat)
    requires
        m < 60,
        secs < 60,
    ensures
        h == 0 && m == 0 ==> duration_text((3600 * h + 60 * m + secs) as int)
            == "less than a minute"@,
        h == 0 && m > 0 ==> duration_text((3600 * h + 60 * m + secs) as int) == natural(m)
            + " min"@,
        h > 0 && m == 0 ==> duration_text((3600 * h + 60 * m + secs) as int) == natural(h)
            + " h"@,
        h > 0 && m > 0 ==> duration_text((3600 * h + 60 * m + secs) as int) == natural(h)
            + " h "@ + natural(m) + " min"@,
{
    let all = 3600 * h + 60 * m + secs;
    assert(all / 60 == 60 * h + m);
    assert((60 * h + m) / 60 == h && (60 * h + m) % 60 == m);
}

/// A quantity is told by a number near it, to so many decimals, and its unit; what
/// is not there by a dash.
pub proof fn law_a_quantity_is_told_with_its_unit(
    value: Option<Micro>,
    decimals: nat,
    suffix: Seq<char>,
)
    requires
        decimals <= 2,
        value matches Some(v) ==> -9_000_000_000_000_000_000 <= v <= 9_000_000_000_000_000_000,
    ensures
        value is None ==> unit_text(value, decimals, suffix) == "—"@,
        value matches Some(v) ==> exists|told: Seq<char>, w: int|
            {
                &&& unit_text(value, decimals, suffix) == told + " "@ + suffix
                &&& #[trigger] decimal(told) == Some(w)
                &&& #[trigger] is_near(v as int, w, decimals)
            },
{
    if let Some(v) = value {
        law_what_is_written_is_near(v as int, decimals);
        let told = fixed(v as int, decimals);
        let w = cut_to(v as int, decimals);
        assert(decimal(told) == Some(w) && is_near(v as int, w, decimals));
    }
}

/// The two lie within 0.61 of the last of so many decimals of each other.
pub open spec fn is_near(v: int, w: int, decimals: nat) -> bool {
    -61 * ten_to((6 - decimals) as nat) <= 100 * (w - v) <= 61 * ten_to((6 - decimals) as nat)
}

/// A percentage is told by the whole number nearest to it.
pub proof fn law_a_percentage_is_told_by_the_nearest(value: int)
    requires
        -9_000_000_000_000_000_000 <= value <= 9_000_000_000_000_000_000,
    ensures
        exists|n: int|
            #[trigger] integer(n) + "%"@ == percent_text(value) && -51 * UNIT <= 100 * (n * UNIT
                - value) <= 51 * UNIT,
{
    law_what_is_rounded_is_near(value);
    let n = rounded(value);
    assert(integer(n) + "%"@ == percent_text(value));
}

} // verus!

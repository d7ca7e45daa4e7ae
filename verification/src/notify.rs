//! Desktop notifications for the charge crossing a threshold.
//!
//! Two rules shape everything here. Alerts fire on **transitions**, never on
//! state: the poll runs every couple of seconds, so a level check would re-raise
//! the same warning forever while the battery sits at 19%. And the first reading
//! of a session **seeds silently**, so opening the app at 15% does not
//! immediately alarm you about something you already know.
//!
//! **Off by default.** GNOME already warns about low battery, and a second
//! banner repeating it is noise. This exists for people who have turned the
//! system warnings off, or who want the charged-to-full alert GNOME does not
//! give.

use vstd::prelude::*;

use crate::battery::types::Status;
use crate::decimal::laws::law_what_is_rounded_is_near;
use crate::decimal::{integer, push_integer, round, rounded};
use crate::micro::{Micro, UNIT};

verus! {

pub const CRITICAL_PERCENT: Micro = 10_000_000;

pub const LOW_PERCENT: Micro = 20_000_000;

pub const FULL_PERCENT: Micro = 100_000_000;

/// Once an alert stands it only clears well clear of its own threshold. A
/// battery hovering on the boundary would otherwise re-notify every time the
/// reading ticked up and back down.
pub const HYSTERESIS: Micro = 3_000_000;

#[derive(Debug, Clone, Copy, PartialEq, Eq, Structural)]
pub enum Alert {
    Low,
    Critical,
    Full,
}

/// How urgently the desktop shows a notification.
#[derive(Debug, Clone, Copy, PartialEq, Eq, Structural)]
pub enum Priority {
    Normal,
    Urgent,
}

impl Alert {
    pub open spec fn stands_at(self) -> int {
        match self {
            Alert::Critical => CRITICAL_PERCENT as int,
            Alert::Low => LOW_PERCENT as int,
            Alert::Full => FULL_PERCENT as int,
        }
    }

    pub fn threshold(self) -> (r: Micro)
        ensures
            r == self.stands_at(),
    {
        match self {
            Alert::Critical => CRITICAL_PERCENT,
            Alert::Low => LOW_PERCENT,
            Alert::Full => FULL_PERCENT,
        }
    }

    pub fn title(self) -> (r: &'static str)
        ensures
            r@ == match self {
                Alert::Low => "Battery low"@,
                Alert::Critical => "Battery critically low"@,
                Alert::Full => "Battery charged"@,
            },
    {
        match self {
            Alert::Low => "Battery low",
            Alert::Critical => "Battery critically low",
            Alert::Full => "Battery charged",
        }
    }

    pub open spec fn body_text(self, percent: int) -> Seq<char> {
        match self {
            Alert::Low => integer(rounded(percent)) + "% remaining. Consider plugging in."@,
            Alert::Critical => integer(rounded(percent)) + "% remaining. Plug in now."@,
            Alert::Full => "The battery is fully charged."@,
        }
    }

    pub fn body(self, percent: Micro) -> (r: String)
        ensures
            r@ == self.body_text(percent as int),
    {
        let mut out = String::new();
        match self {
            Alert::Low => {
                push_integer(&mut out, round(percent));
                out.append("% remaining. Consider plugging in.");
            },
            Alert::Critical => {
                push_integer(&mut out, round(percent));
                out.append("% remaining. Plug in now.");
            },
            Alert::Full => {
                out.append("The battery is fully charged.");
            },
        }
        assert(out@ == self.body_text(percent as int));
        out
    }

    pub fn icon_name(self) -> (r: &'static str)
        ensures
            r@ == match self {
                Alert::Low => "battery-level-20-symbolic"@,
                Alert::Critical => "battery-level-10-symbolic"@,
                Alert::Full => "battery-level-100-charged-symbolic"@,
            },
    {
        match self {
            Alert::Low => "battery-level-20-symbolic",
            Alert::Critical => "battery-level-10-symbolic",
            Alert::Full => "battery-level-100-charged-symbolic",
        }
    }

    pub fn priority(self) -> (r: Priority)
        ensures
            r == match self {
                Alert::Critical => Priority::Urgent,
                _ => Priority::Normal,
            },
    {
        match self {
            Alert::Critical => Priority::Urgent,
            _ => Priority::Normal,
        }
    }
}

/// Up to where a threshold reaches: past itself, once an alert stands that is at
/// least as severe.
pub open spec fn reaches(raised: Option<Alert>, threshold: int) -> int {
    match raised {
        Some(alert) => if alert.stands_at() <= threshold {
            threshold + HYSTERESIS
        } else {
            threshold
        },
        None => threshold,
    }
}

/// From where on a battery counts as charged: from a little below full, once the
/// alert stands.
pub open spec fn full_from(raised: Option<Alert>) -> int {
    if raised == Some(Alert::Full) {
        FULL_PERCENT - HYSTERESIS
    } else {
        FULL_PERCENT as int
    }
}

/// The alert that a reading stands for, given the one already raised.
pub open spec fn level_of(raised: Option<Alert>, percent: int, status: Status) -> Option<Alert> {
    match status {
        Status::Discharging => if percent <= reaches(raised, CRITICAL_PERCENT as int) {
            Some(Alert::Critical)
        } else if percent <= reaches(raised, LOW_PERCENT as int) {
            Some(Alert::Low)
        } else {
            None
        },
        Status::Charging | Status::Full => if percent >= full_from(raised) {
            Some(Alert::Full)
        } else {
            None
        },
        _ => None,
    }
}

/// Remembers what has already been raised, so only crossings notify.
#[derive(Debug, Clone, Copy, PartialEq, Eq, Structural)]
pub struct Alerts {
    pub raised: Option<Alert>,
    pub seeded: bool,
}

impl Default for Alerts {
    fn default() -> (r: Self)
        ensures
            r.raised is None,
            !r.seeded,
    {
        Alerts { raised: None, seeded: false }
    }
}

impl Alerts {
    /// What is remembered after a reading.
    pub open spec fn after(self, percent: int, status: Status) -> Alerts {
        Alerts { raised: level_of(self.raised, percent, status), seeded: true }
    }

    /// The alert that a reading is worth: none for the first reading, and none
    /// unless it changes what stands.
    pub open spec fn worth(self, percent: int, status: Status) -> Option<Alert> {
        let current = level_of(self.raised, percent, status);
        if !self.seeded || current == self.raised {
            None
        } else {
            current
        }
    }

    /// Feed every reading through this. Returns the alert worth raising, which
    /// is `None` far more often than not.
    pub fn advance(&mut self, percent: Micro, status: Status) -> (r: Option<Alert>)
        ensures
            r == old(self).worth(percent as int, status),
            *final(self) == old(self).after(percent as int, status),
    {
        let current = self.level(percent, status);
        if !self.seeded {
            self.seeded = true;
            self.raised = current;
            return None;
        }
        let same = match (current, self.raised) {
            (Some(a), Some(b)) => a == b,
            (None, None) => true,
            _ => false,
        };
        if same {
            return None;
        }
        self.raised = current;
        current
    }

    fn ceiling(&self, threshold: Micro) -> (r: Micro)
        requires
            threshold <= FULL_PERCENT,
        ensures
            r == reaches(self.raised, threshold as int),
    {
        match self.raised {
            Some(raised) => if raised.threshold() <= threshold {
                threshold + HYSTERESIS
            } else {
                threshold
            },
            None => threshold,
        }
    }

    /// From where on a battery counts as charged.
    fn floor(&self) -> (r: Micro)
        ensures
            r == full_from(self.raised),
    {
        match self.raised {
            Some(Alert::Full) => FULL_PERCENT - HYSTERESIS,
            _ => FULL_PERCENT,
        }
    }

    pub fn level(&self, percent: Micro, status: Status) -> (r: Option<Alert>)
        ensures
            r == level_of(self.raised, percent as int, status),
    {
        match status {
            Status::Discharging => if percent <= self.ceiling(CRITICAL_PERCENT) {
                Some(Alert::Critical)
            } else if percent <= self.ceiling(LOW_PERCENT) {
                Some(Alert::Low)
            } else {
                None
            },
            Status::Charging | Status::Full => if percent >= self.floor() {
                Some(Alert::Full)
            } else {
                None
            },
            _ => None,
        }
    }
}

/// The first reading of a session never alerts, whatever it says.
pub proof fn law_the_first_reading_seeds_silently(alerts: Alerts, percent: int, status: Status)
    requires
        !alerts.seeded,
    ensures
        alerts.worth(percent, status) is None,
        alerts.after(percent, status).seeded,
{
}

/// Alerts fire on transitions: one is worth raising only when it is what now
/// stands and was not what stood before.
pub proof fn law_alerts_fire_on_transitions(alerts: Alerts, percent: int, status: Status)
    ensures
        alerts.worth(percent, status) matches Some(alert) ==> alerts.seeded && alerts.raised
            != Some(alert) && alerts.after(percent, status).raised == Some(alert),
{
}

/// The same reading twice alerts at most once, and settles.
pub proof fn law_a_repeated_reading_is_silent(alerts: Alerts, percent: int, status: Status)
    ensures
        alerts.after(percent, status).worth(percent, status) is None,
        alerts.after(percent, status).after(percent, status) == alerts.after(percent, status),
{
}

/// Hovering on a boundary does not alert again: while an alert stands, no reading
/// within `HYSTERESIS` of its own threshold changes anything. A warning stands
/// from the next worse threshold up to there, the charged alert from there on.
pub proof fn law_hovering_on_a_boundary_is_silent(alerts: Alerts, percent: int, status: Status)
    requires
        alerts.seeded,
        match alerts.raised {
            Some(Alert::Low) => status == Status::Discharging && CRITICAL_PERCENT < percent
                <= LOW_PERCENT + HYSTERESIS,
            Some(Alert::Critical) => status == Status::Discharging && percent <= CRITICAL_PERCENT
                + HYSTERESIS,
            Some(Alert::Full) => (status == Status::Charging || status == Status::Full) && percent
                >= FULL_PERCENT - HYSTERESIS,
            None => false,
        },
    ensures
        alerts.worth(percent, status) is None,
        alerts.after(percent, status) == alerts,
{
}

/// Recovering clears a warning silently: well above the thresholds nothing
/// stands, and a fall to a threshold alerts again.
pub proof fn law_recovering_and_falling_again_alerts_again(
    alerts: Alerts,
    high: int,
    percent: int,
)
    requires
        alerts.seeded,
        high > LOW_PERCENT + HYSTERESIS,
        percent <= LOW_PERCENT,
    ensures
        alerts.worth(high, Status::Discharging) is None,
        alerts.after(high, Status::Discharging).worth(percent, Status::Discharging) == Some(
            if percent <= CRITICAL_PERCENT {
                Alert::Critical
            } else {
                Alert::Low
            },
        ),
{
}

/// Plugging in below full is not itself an alert, but it clears the state; where
/// the charged alert stands, well below full.
pub proof fn law_charging_clears_the_warning(alerts: Alerts, percent: int)
    requires
        percent < full_from(alerts.raised),
    ensures
        alerts.worth(percent, Status::Charging) is None,
        alerts.after(percent, Status::Charging).raised is None,
{
}

/// Reaching full alerts: wherever the charged alert does not stand yet, a reading
/// of all of the charge is worth it, whether the battery says that it is still
/// charging or that it is full; and then it stands.
pub proof fn law_reaching_full_alerts(alerts: Alerts, percent: int, status: Status)
    requires
        alerts.seeded,
        alerts.raised != Some(Alert::Full),
        percent >= 100 * UNIT,
        status == Status::Charging || status == Status::Full,
    ensures
        alerts.worth(percent, status) == Some(Alert::Full),
        alerts.after(percent, status).raised == Some(Alert::Full),
{
}

/// Falling alerts: with nothing raised, a discharge is worth the low alert at a
/// fifth of the charge, the critical one at a tenth, and none above.
pub proof fn law_falling_alerts(alerts: Alerts, percent: int)
    requires
        alerts.seeded,
        alerts.raised is None,
    ensures
        percent <= 10 * UNIT ==> alerts.worth(percent, Status::Discharging) == Some(
            Alert::Critical,
        ),
        10 * UNIT < percent <= 20 * UNIT ==> alerts.worth(percent, Status::Discharging) == Some(
            Alert::Low,
        ),
        percent > 20 * UNIT ==> alerts.worth(percent, Status::Discharging) is None,
{
}

/// A low battery that goes on falling alerts once more, at a tenth of the charge.
pub proof fn law_a_warning_gets_worse(alerts: Alerts, percent: int)
    requires
        alerts.seeded,
        alerts.raised == Some(Alert::Low),
        percent <= 10 * UNIT,
    ensures
        alerts.worth(percent, Status::Discharging) == Some(Alert::Critical),
{
}

/// What stands after a reading, whatever stood before. While discharging: the
/// critical alert up to 10%, or 13% where it stood; the low alert up to 20%, or
/// 23% where it or the critical one stood. While plugged in: the charged alert
/// from 100%, or 97% where it stood. Nothing stands otherwise.
pub proof fn law_what_stands_after_a_reading(alerts: Alerts, percent: int, status: Status)
    ensures
        alerts.after(percent, status).seeded,
        alerts.after(percent, status).raised == Some(Alert::Critical) <==> status
            == Status::Discharging && (percent <= 10 * UNIT || percent <= 13 * UNIT
            && alerts.raised == Some(Alert::Critical)),
        alerts.after(percent, status).raised == Some(Alert::Low) <==> status
            == Status::Discharging && (percent > 10 * UNIT && percent <= 20 * UNIT && !(percent
            <= 13 * UNIT && alerts.raised == Some(Alert::Critical)) || 20 * UNIT < percent <= 23
            * UNIT && (alerts.raised == Some(Alert::Low) || alerts.raised == Some(
            Alert::Critical,
        ))),
        alerts.after(percent, status).raised == Some(Alert::Full) <==> (status == Status::Charging
            || status == Status::Full) && (percent >= 100 * UNIT || percent >= 97 * UNIT
            && alerts.raised == Some(Alert::Full)),
{
}

/// A reading is worth an alert when and only when it makes one stand that did not
/// stand before, and it is not the first.
pub proof fn law_a_crossing_is_worth_its_alert(alerts: Alerts, percent: int, status: Status)
    ensures
        !alerts.seeded ==> alerts.worth(percent, status) is None,
        alerts.seeded && alerts.after(percent, status).raised == alerts.raised ==> alerts.worth(
            percent,
            status,
        ) is None,
        alerts.seeded && alerts.after(percent, status).raised != alerts.raised ==> alerts.worth(
            percent,
            status,
        ) == alerts.after(percent, status).raised,
{
}

/// A warning tells how much is left, to the nearest percent; the charged alert has
/// nothing to tell but that.
pub proof fn law_a_warning_tells_what_is_left(percent: int)
    requires
        0 <= percent <= 100 * UNIT,
    ensures
        exists|n: int|
            {
                &&& -51 * UNIT <= 100 * (n * UNIT - percent) <= 51 * UNIT
                &&& Alert::Low.body_text(percent) == #[trigger] integer(n)
                    + "% remaining. Consider plugging in."@
                &&& Alert::Critical.body_text(percent) == integer(n)
                    + "% remaining. Plug in now."@
            },
        Alert::Full.body_text(percent) == "The battery is fully charged."@,
{
    law_what_is_rounded_is_near(percent);
    let n = rounded(percent);
    assert(Alert::Low.body_text(percent) == integer(n) + "% remaining. Consider plugging in."@);
}

/// Each alert stands at its own threshold.
pub proof fn law_where_each_alert_stands()
    ensures
        Alert::Critical.stands_at() == 10 * UNIT,
        Alert::Low.stands_at() == 20 * UNIT,
        Alert::Full.stands_at() == 100 * UNIT,
{
}

} // verus!

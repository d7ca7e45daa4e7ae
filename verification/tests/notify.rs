use leyden::battery::types::Status;
use leyden::notify::{Alert, Alerts, Priority};

fn micro(value: f64) -> i64 {
    (value * 1e6).round() as i64
}

fn discharging(alerts: &mut Alerts, percent: f64) -> Option<Alert> {
    alerts.advance(micro(percent), Status::Discharging)
}

#[test]
fn the_first_reading_never_alerts() {
    let mut alerts = Alerts::default();
    // Opening the app at 5% must not alarm about a state already known.
    assert_eq!(discharging(&mut alerts, 5.0), None);
}

#[test]
fn crossing_a_threshold_alerts_once() {
    let mut alerts = Alerts::default();
    assert_eq!(discharging(&mut alerts, 80.0), None);
    assert_eq!(discharging(&mut alerts, 20.0), Some(Alert::Low));
    // Still low, and still the same crossing.
    assert_eq!(discharging(&mut alerts, 19.0), None);
    assert_eq!(discharging(&mut alerts, 15.0), None);
    assert_eq!(discharging(&mut alerts, 10.0), Some(Alert::Critical));
    assert_eq!(discharging(&mut alerts, 4.0), None);
}

#[test]
fn hovering_on_a_boundary_does_not_re_alert() {
    let mut alerts = Alerts::default();
    assert_eq!(discharging(&mut alerts, 80.0), None);
    assert_eq!(discharging(&mut alerts, 20.0), Some(Alert::Low));
    // A gauge wobbling across 20 must stay quiet until clearly recovered.
    for percent in [21.0, 20.0, 22.0, 19.0, 21.0, 23.0] {
        assert_eq!(discharging(&mut alerts, percent), None, "at {percent}%");
    }
}

#[test]
fn recovering_and_falling_again_alerts_again() {
    let mut alerts = Alerts::default();
    assert_eq!(discharging(&mut alerts, 80.0), None);
    assert_eq!(discharging(&mut alerts, 18.0), Some(Alert::Low));
    assert_eq!(discharging(&mut alerts, 60.0), None);
    assert_eq!(discharging(&mut alerts, 18.0), Some(Alert::Low));
}

#[test]
fn charging_clears_the_warning_and_full_alerts() {
    let mut alerts = Alerts::default();
    assert_eq!(discharging(&mut alerts, 80.0), None);
    assert_eq!(discharging(&mut alerts, 12.0), Some(Alert::Low));
    // Plugging in is not itself an alert, but it does clear the state.
    assert_eq!(alerts.advance(micro(12.0), Status::Charging), None);
    assert_eq!(alerts.advance(micro(99.0), Status::Charging), None);
    assert_eq!(
        alerts.advance(micro(100.0), Status::Charging),
        Some(Alert::Full)
    );
    assert_eq!(alerts.advance(micro(100.0), Status::Full), None);
}

#[test]
fn a_full_battery_on_power_does_not_alert_on_every_poll() {
    let mut alerts = Alerts::default();
    assert_eq!(alerts.advance(micro(100.0), Status::Full), None);
    for _ in 0..10 {
        assert_eq!(alerts.advance(micro(100.0), Status::Full), None);
    }
}

#[test]
fn a_warning_clears_only_past_its_margin() {
    let mut alerts = Alerts::default();
    assert_eq!(discharging(&mut alerts, 80.0), None);
    assert_eq!(discharging(&mut alerts, 9.0), Some(Alert::Critical));
    assert_eq!(discharging(&mut alerts, 13.0), None);
    assert_eq!(alerts.raised, Some(Alert::Critical));
    // Past the margin the milder warning stands, and says so.
    assert_eq!(discharging(&mut alerts, 13.1), Some(Alert::Low));
    assert_eq!(alerts.level(micro(23.0), Status::Discharging), Some(Alert::Low));
    assert_eq!(alerts.level(micro(23.1), Status::Discharging), None);
    assert_eq!(alerts.level(micro(5.0), Status::NotCharging), None);
}

#[test]
fn hovering_on_full_does_not_re_alert() {
    let mut alerts = Alerts::default();
    let mut charging = |percent: f64| alerts.advance(micro(percent), Status::Charging);
    assert_eq!(charging(99.0), None);
    assert_eq!(charging(100.0), Some(Alert::Full));
    // Down to three points below, the alert still stands.
    for percent in [99.0, 100.0, 97.0, 98.5, 100.0] {
        assert_eq!(charging(percent), None, "at {percent}%");
    }
    // Clear of it, reaching full is news again.
    assert_eq!(charging(96.9), None);
    assert_eq!(charging(99.9), None);
    assert_eq!(charging(100.0), Some(Alert::Full));
}

#[test]
fn alerts_say_what_they_are() {
    assert_eq!(Alert::Low.title(), "Battery low");
    assert_eq!(
        Alert::Low.body(micro(19.5)),
        "20% remaining. Consider plugging in."
    );
    assert_eq!(
        Alert::Critical.body(micro(9.4)),
        "9% remaining. Plug in now."
    );
    assert_eq!(Alert::Full.body(0), "The battery is fully charged.");
    assert_eq!(Alert::Critical.title(), "Battery critically low");
    assert_eq!(Alert::Full.icon_name(), "battery-level-100-charged-symbolic");
    assert_eq!(Alert::Critical.priority(), Priority::Urgent);
    assert_eq!(Alert::Full.priority(), Priority::Normal);
    assert_eq!(Alert::Full.threshold(), micro(100.0));
}

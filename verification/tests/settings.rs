use leyden::settings::{bound_poll, Clock, Settings, Stored, Theme};

#[test]
fn theme_keys_round_trip() {
    for theme in [Theme::System, Theme::Light, Theme::Dark] {
        assert_eq!(Theme::from_key(theme.as_key()), theme);
        assert_eq!(Theme::from_index(theme.index()), theme);
    }
}

#[test]
fn clock_keys_round_trip() {
    for clock in [Clock::System, Clock::TwentyFour, Clock::Twelve] {
        assert_eq!(Clock::from_key(clock.as_key()), clock);
        assert_eq!(Clock::from_index(clock.index()), clock);
    }
    assert_eq!(Clock::from_key("half past"), Clock::System);
    assert!(Clock::Twelve.twelve_hour(None));
    assert!(!Clock::TwentyFour.twelve_hour(None));
}

#[test]
fn an_unknown_theme_key_falls_back_to_the_system() {
    assert_eq!(Theme::from_key("solarized"), Theme::System);
    assert_eq!(Theme::from_index(99), Theme::System);
}

#[test]
fn the_system_clock_is_the_desktops() {
    assert!(Clock::System.twelve_hour(Some("12h")));
    assert!(!Clock::System.twelve_hour(Some("24h")));
    assert!(!Clock::System.twelve_hour(None));
    assert!(!Clock::TwentyFour.twelve_hour(Some("12h")));
}

#[test]
fn a_missing_file_is_a_first_run() {
    let settings = Settings::load(None);
    assert_eq!(settings, Settings::default());
    assert_eq!(settings.poll_secs, 2);
    assert!(!settings.alerts && !settings.background);
}

fn stored(poll_secs: Option<i32>) -> Stored {
    Stored {
        poll_secs,
        theme: Some("dark".to_owned()),
        alerts: Some(true),
        clock: None,
        background: None,
    }
}

#[test]
fn each_value_falls_back_on_its_own() {
    let settings = Settings::load(Some(&stored(Some(7))));
    assert_eq!(settings.poll_secs, 7);
    assert_eq!(settings.theme, Theme::Dark);
    assert!(settings.alerts);
    assert_eq!(settings.clock, Clock::System);
    assert!(!settings.background);
    // Held to its bounds, and a negative interval is not one.
    assert_eq!(Settings::load(Some(&stored(Some(0)))).poll_secs, 1);
    assert_eq!(Settings::load(Some(&stored(Some(99)))).poll_secs, 30);
    assert_eq!(Settings::load(Some(&stored(Some(-5)))).poll_secs, 2);
    assert_eq!(Settings::load(Some(&stored(None))).poll_secs, 2);
    assert_eq!(bound_poll(31), 30);
}

#[test]
fn settings_survive_a_round_trip() {
    let settings = Settings {
        poll_secs: 12,
        theme: Theme::Light,
        alerts: true,
        clock: Clock::Twelve,
        background: true,
    };
    let stored = settings.save().unwrap();
    assert_eq!(stored.theme.as_deref(), Some("light"));
    assert_eq!(stored.clock.as_deref(), Some("12h"));
    assert_eq!(Settings::load(Some(&stored)), settings);
}

#[test]
fn an_interval_the_file_cannot_hold_is_an_error() {
    let settings = Settings {
        poll_secs: 0x8000_0000,
        ..Settings::default()
    };
    assert_eq!(settings.save().unwrap_err(), "poll interval out of range");
}

use leyden::battery::history::{elapsed_secs, mean, Follows, History, Sample};
use leyden::battery::sysfs::{battery, read, Supply, Uevent};
use leyden::battery::types::{Battery, Status};
use leyden::duration::Duration;

fn micro(value: f64) -> i64 {
    (value * 1e6).round() as i64
}

fn units(value: i64) -> f64 {
    value as f64 / 1e6
}

// ---------------------------------------------------------------------------
// The ring

fn sample(percent: f64) -> Sample {
    Sample {
        at: 1_780_000_000,
        percent: micro(percent),
        power: None,
        status: Status::Discharging,
        follows: Follows::Poll,
    }
}

fn at(secs: i64, power: Option<f64>) -> Sample {
    Sample {
        at: secs,
        power: power.map(micro),
        ..sample(50.0)
    }
}

fn moments(history: &History) -> Vec<i64> {
    history.iter().map(|s| s.at).collect()
}

#[test]
fn drops_the_oldest_past_capacity() {
    let mut history = History::new(2);
    history.push(sample(1.0));
    history.push(sample(2.0));
    history.push(sample(3.0));
    let percents: Vec<f64> = history.iter().map(|s| units(s.percent)).collect();
    assert_eq!(percents, vec![2.0, 3.0]);
}

#[test]
fn the_ring_keeps_the_newest_in_order() {
    let mut history = History::new(3);
    for secs in 0..10 {
        history.push(at(secs, None));
    }
    assert_eq!(moments(&history), vec![7, 8, 9]);
    assert_eq!(history.len(), 3);
    assert_eq!(history.newest().unwrap().at, 9);
    assert_eq!(history.at(0).at, 7);
    assert_eq!(history.span_secs(), 2);
}

#[test]
fn an_empty_ring_spans_nothing() {
    let history = History::new(4);
    assert!(history.is_empty());
    assert_eq!(history.len(), 0);
    assert_eq!(history.span_secs(), 0);
    assert_eq!(history.newest(), None);
    assert_eq!(history.recent_power(120, 14), None);
}

#[test]
fn pruning_keeps_the_horizon() {
    let mut history = History::new(10);
    for secs in [0, 50, 100, 150, 200] {
        history.push(at(secs, None));
    }
    history.prune_older_than(200, 100);
    assert_eq!(moments(&history), vec![100, 150, 200]);
    history.prune_older_than(1000, 100);
    assert!(history.is_empty());
}

#[test]
fn an_earlier_session_folds_in_underneath() {
    let mut history = History::new(4);
    history.push(at(100, None));
    history.push(at(130, None));
    // 100 is here already; of the rest the newest fit.
    history.absorb(vec![at(10, None), at(40, None), at(70, None), at(100, None)]);
    assert_eq!(moments(&history), vec![40, 70, 100, 130]);
}

#[test]
fn the_average_runs_over_one_unbroken_stretch() {
    let mut history = History::new(10);
    history.push(at(0, Some(100.0)));
    // A gap: what was read before it is not part of the average.
    history.push(at(1000, Some(10.0)));
    history.push(at(1002, None));
    history.push(at(1004, Some(20.0)));
    assert_eq!(history.recent_power(120, 14), Some(micro(15.0)));
    // A window that reaches back to one reading only has nothing to average.
    assert_eq!(history.recent_power(1, 14), None);
    // A gap wide enough takes in everything.
    assert_eq!(history.recent_power(2000, 1000), Some(43_333_333));
}

#[test]
fn elapsed_time_never_runs_backwards() {
    assert_eq!(elapsed_secs(10, 40), 30);
    assert_eq!(elapsed_secs(40, 10), 0);
    assert_eq!(elapsed_secs(i64::MIN, i64::MAX), u64::MAX);
}

#[test]
fn the_mean_is_the_nearest_millionth() {
    assert_eq!(mean(&vec![]), None);
    assert_eq!(mean(&vec![1, 2]), Some(2));
    assert_eq!(mean(&vec![-1, -2]), Some(-2));
    assert_eq!(mean(&vec![i64::MAX, i64::MAX]), Some(i64::MAX));
}

#[test]
fn markers_have_keys() {
    for follows in [Follows::Poll, Follows::Sleep, Follows::Launch] {
        assert_eq!(Follows::from_key(follows.as_key()), follows);
    }
    assert_eq!(Follows::from_key("hibernated"), Follows::Poll);
    assert!(Follows::Sleep.gap() && Follows::Launch.gap() && !Follows::Poll.gap());
}

// ---------------------------------------------------------------------------
// One reading

fn reading(status: Status, now: f64, power: f64) -> Battery {
    Battery {
        status,
        energy_now: Some(micro(now)),
        energy_full: Some(micro(50.0)),
        energy_design: Some(micro(60.0)),
        power: Some(micro(power)),
        ..Battery::default()
    }
}

#[test]
fn health_is_full_over_design() {
    let health = units(reading(Status::Full, 50.0, 0.0).health().unwrap());
    assert!((health - 83.333).abs() < 0.01);
    // The formula, exactly: fifty sixtieths in millionths of a percent.
    assert_eq!(reading(Status::Full, 50.0, 0.0).health(), Some(83_333_333));
}

#[test]
fn health_needs_a_rating() {
    let unrated = Battery {
        energy_design: None,
        ..reading(Status::Full, 50.0, 0.0)
    };
    assert_eq!(unrated.health(), None);
    let nothing = Battery {
        energy_design: Some(0),
        ..reading(Status::Full, 50.0, 0.0)
    };
    assert_eq!(nothing.health(), None);
}

#[test]
fn discharging_drains_what_is_left() {
    let left = reading(Status::Discharging, 25.0, 10.0)
        .time_remaining()
        .unwrap();
    assert_eq!(left.as_secs(), 9000);
}

#[test]
fn charging_fills_the_gap() {
    let left = reading(Status::Charging, 25.0, 10.0)
        .time_remaining()
        .unwrap();
    assert_eq!(left.as_secs(), 9000);
}

#[test]
fn idle_and_zero_draw_have_no_estimate() {
    assert!(reading(Status::Full, 50.0, 0.0).time_remaining().is_none());
    assert!(reading(Status::Discharging, 25.0, 0.0)
        .time_remaining()
        .is_none());
}

#[test]
fn an_estimate_at_a_given_power() {
    let battery = reading(Status::Discharging, 25.0, 10.0);
    assert_eq!(
        battery.time_remaining_at(micro(7.0)),
        Some(Duration {
            secs: 12_857,
            nanos: 142_857_143
        })
    );
    // A tenth of a watt is next to no power to speak of.
    assert_eq!(battery.time_remaining_at(micro(0.1)), None);
    assert!(battery.time_remaining_at(micro(0.2)).is_some());
    // A full battery has nothing left to fill.
    assert_eq!(
        reading(Status::Charging, 50.0, 10.0).time_remaining_at(micro(10.0)),
        None
    );
}

#[test]
fn statuses_have_names_labels_and_keys() {
    assert_eq!(Status::parse("Charging"), Status::Charging);
    assert_eq!(Status::parse("Discharging"), Status::Discharging);
    assert_eq!(Status::parse("Full"), Status::Full);
    assert_eq!(Status::parse("Not charging"), Status::NotCharging);
    assert_eq!(Status::parse("???"), Status::Unknown);
    assert_eq!(Status::NotCharging.label(), "Not charging");
    for status in [
        Status::Charging,
        Status::Discharging,
        Status::Full,
        Status::NotCharging,
        Status::Unknown,
    ] {
        assert_eq!(Status::from_key(status.as_key()), status);
    }
    assert_eq!(
        Battery::default().icon_name(),
        Status::Unknown.icon_name().to_owned()
    );
}

// ---------------------------------------------------------------------------
// What the kernel says

/// A charge gauge with no `power_now`, captured verbatim from a Razer Blade.
const CHARGE_GAUGE: &str = "\
POWER_SUPPLY_NAME=BAT0
POWER_SUPPLY_TYPE=Battery
POWER_SUPPLY_STATUS=Discharging
POWER_SUPPLY_PRESENT=1
POWER_SUPPLY_TECHNOLOGY=Unknown
POWER_SUPPLY_CYCLE_COUNT=22
POWER_SUPPLY_VOLTAGE_NOW=15450000
POWER_SUPPLY_CURRENT_NOW=806000
POWER_SUPPLY_CHARGE_FULL_DESIGN=4417000
POWER_SUPPLY_CHARGE_FULL=4344000
POWER_SUPPLY_CHARGE_NOW=1096000
POWER_SUPPLY_CAPACITY=25
POWER_SUPPLY_MODEL_NAME=Blade
POWER_SUPPLY_MANUFACTURER=Razer
";

/// An energy gauge, as most Intel laptops report. Neither branch may rot.
const ENERGY_GAUGE: &str = "\
POWER_SUPPLY_NAME=BAT0
POWER_SUPPLY_TYPE=Battery
POWER_SUPPLY_STATUS=Charging
POWER_SUPPLY_TECHNOLOGY=Li-ion
POWER_SUPPLY_CYCLE_COUNT=0
POWER_SUPPLY_VOLTAGE_NOW=12000000
POWER_SUPPLY_POWER_NOW=15000000
POWER_SUPPLY_ENERGY_FULL_DESIGN=50000000
POWER_SUPPLY_ENERGY_FULL=48000000
POWER_SUPPLY_ENERGY_NOW=24000000
POWER_SUPPLY_CAPACITY=50
";

fn parse(text: &str) -> Battery {
    battery("/sys/class/power_supply/BAT0", &Uevent::parse(text), false)
}

#[test]
fn a_charge_gauge_is_converted_through_voltage() {
    let battery = parse(CHARGE_GAUGE);
    assert_eq!(battery.status, Status::Discharging);
    assert_eq!(units(battery.percent), 25.0);
    // 1.096 Ah × 15.45 V
    assert!((units(battery.energy_now.unwrap()) - 16.93).abs() < 0.01);
    assert_eq!(battery.energy_now, Some(16_933_200));
    // 0.806 A × 15.45 V: there is no power_now on this machine.
    assert!((units(battery.power.unwrap()) - 12.45).abs() < 0.01);
    assert_eq!(battery.power, Some(12_452_700));
    assert!((units(battery.voltage.unwrap()) - 15.45).abs() < 0.001);
    assert_eq!(battery.cycle_count, Some(22));
    assert_eq!(battery.model.as_deref(), Some("Blade"));
    // The literal string "Unknown" is not a technology.
    assert_eq!(battery.technology, None);
}

#[test]
fn an_energy_gauge_is_read_directly() {
    let battery = parse(ENERGY_GAUGE);
    assert_eq!(battery.status, Status::Charging);
    assert!((units(battery.energy_now.unwrap()) - 24.0).abs() < 0.001);
    assert!((units(battery.energy_full.unwrap()) - 48.0).abs() < 0.001);
    // power_now wins; it must not be re-derived from current_now.
    assert!((units(battery.power.unwrap()) - 15.0).abs() < 0.001);
    assert_eq!(battery.technology.as_deref(), Some("Li-ion"));
    // A zero cycle count is no reading at all.
    assert_eq!(battery.cycle_count, None);
}

#[test]
fn a_missing_value_is_none_not_a_zero() {
    let battery = parse("POWER_SUPPLY_NAME=BAT0\nPOWER_SUPPLY_TYPE=Battery\n");
    assert_eq!(battery.energy_now, None);
    assert_eq!(battery.power, None);
    assert_eq!(battery.voltage, None);
    assert_eq!(battery.status, Status::Unknown);
    assert_eq!(units(battery.percent), 0.0);
}

#[test]
fn junk_lines_do_not_derail_the_parse() {
    let uevent = Uevent::parse("garbage\nPOWER_SUPPLY_CAPACITY=42\n\nEMPTY=\n");
    assert_eq!(uevent.number("capacity"), Some(micro(42.0)));
    assert_eq!(uevent.text("empty"), None);
}

#[test]
fn a_nameless_battery_goes_by_its_directory() {
    let nameless = Uevent::parse("POWER_SUPPLY_TYPE=Battery\n");
    let name = |dir: &str| battery(dir, &nameless, false).name;
    assert_eq!(name("/sys/class/power_supply/BAT0"), "BAT0");
    assert_eq!(name("/sys/class/power_supply/BAT1//"), "BAT1");
    for path in ["a/.", "a", "/a", "./a/./", "", "/", ".", "./.", "a/..", "..", "/."] {
        let expected = std::path::Path::new(path)
            .file_name()
            .map(|name| name.to_string_lossy().into_owned())
            .unwrap_or_default();
        assert_eq!(name(path), expected, "{path:?}");
    }
    assert_eq!(
        battery("/x/BAT0", &Uevent::parse("NAME=BAT9\n"), false).name,
        "BAT9"
    );
}

#[test]
fn names_are_read_in_lower_case() {
    let uevent = Uevent::parse("POWER_SUPPLY_MODEL_NAME=Blade 14\r\nÄrger=1\n");
    assert_eq!(uevent.text("model_name"), Some("Blade 14"));
    assert_eq!(uevent.text("MODEL_NAME"), None);
    // The Unicode lower case, not only the ASCII one.
    assert_eq!(uevent.text("ärger"), Some("1"));
    assert_eq!(uevent.text("Ärger"), None);
}

#[test]
fn a_later_line_wins() {
    let uevent = Uevent::parse("CAPACITY=1\nCAPACITY=2\n");
    assert_eq!(uevent.number("capacity"), Some(micro(2.0)));
}

fn supply(dir: &str, text: &str) -> Supply {
    Supply {
        dir: dir.to_owned(),
        uevent: text.to_owned(),
    }
}

#[test]
fn the_first_battery_is_read_and_the_adapter_is_noticed() {
    let adapter = "POWER_SUPPLY_TYPE=Mains\nPOWER_SUPPLY_ONLINE=1\n";
    let found = read(&vec![
        supply("/sys/class/power_supply/ADP1", adapter),
        supply("/sys/class/power_supply/BAT0", ENERGY_GAUGE),
        supply("/sys/class/power_supply/BAT1", CHARGE_GAUGE),
    ])
    .unwrap();
    assert_eq!(found.status, Status::Charging);
    assert!(found.on_ac);

    // However the directory lists them.
    let listed = read(&vec![
        supply("/sys/class/power_supply/BAT1", CHARGE_GAUGE),
        supply("/sys/class/power_supply/BAT10", CHARGE_GAUGE),
        supply("/sys/class/power_supply/BAT0", ENERGY_GAUGE),
        supply("/sys/class/power_supply/ADP1", adapter),
        supply("/sys/class/power_supply/BAT", adapter),
    ])
    .unwrap();
    assert_eq!(listed.status, Status::Charging);
    assert!(listed.on_ac);

    let unplugged = read(&vec![
        supply(
            "/sys/class/power_supply/ADP1",
            "POWER_SUPPLY_TYPE=Mains\nPOWER_SUPPLY_ONLINE=0\n",
        ),
        supply("/sys/class/power_supply/BAT0", ENERGY_GAUGE),
    ])
    .unwrap();
    assert!(!unplugged.on_ac);
    assert!(read(&vec![supply("/sys/class/power_supply/ADP1", adapter)]).is_none());
    assert!(read(&vec![]).is_none());
}

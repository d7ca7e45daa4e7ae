use leyden::decimal::{
    push_fixed, push_integer, push_natural, read_decimal, read_whole, round,
};
use leyden::duration::Duration;
use leyden::format::{duration, percent, text, time_pattern, time_text, unit, EMPTY};
use leyden::micro::{clip, percent_of, round_units, times};
use leyden::text::{chars_of, is_before, lines, split, split_once, string_of, strip_prefixes, trim};

fn micro(value: f64) -> i64 {
    (value * 1e6).round() as i64
}

#[test]
fn durations_read_naturally() {
    assert_eq!(duration(Duration::from_secs(30)), "less than a minute");
    assert_eq!(duration(Duration::from_secs(48 * 60)), "48 min");
    assert_eq!(duration(Duration::from_secs(2 * 3600)), "2 h");
    assert_eq!(duration(Duration::from_secs(72 * 60)), "1 h 12 min");
}

#[test]
fn missing_values_render_as_a_dash() {
    assert_eq!(unit(None, 1, "W"), EMPTY);
    assert_eq!(unit(Some(micro(12.44)), 1, "W"), "12.4 W");
    assert_eq!(text(None), EMPTY);
}

#[test]
fn present_values_render_with_their_unit() {
    assert_eq!(unit(Some(micro(15.45)), 2, "V"), "15.45 V");
    assert_eq!(unit(Some(micro(-0.04)), 1, "W"), "-0.0 W");
    assert_eq!(text(Some(&"Li-ion".to_owned())), "Li-ion");
    assert_eq!(percent(micro(41.5)), "42%");
    assert_eq!(percent(micro(41.4)), "41%");
}

#[test]
fn a_time_of_day_is_shown_without_padding() {
    assert_eq!(time_pattern(true), "%l:%M %p");
    assert_eq!(time_pattern(false), "%H:%M");
    assert_eq!(time_text(Some(" 1:05 AM".to_owned())), "1:05 AM");
    assert_eq!(time_text(None), "");
}

#[test]
fn fixed_decimals_round_the_nearest_binary_fraction() {
    let cases = [
        (62_500_000, 0, "62"),
        (63_500_000, 0, "64"),
        (1_234_567, 2, "1.23"),
        (999_999, 1, "1.0"),
        (-1_250_000, 1, "-1.2"),
        (5, 8, "0.00000500"),
        (350_000, 1, "0.3"),
        (450_000, 1, "0.5"),
        (250_000, 1, "0.2"),
        (12_350_000, 1, "12.3"),
        (100_000, 20, "0.10000000000000000555"),
        (999_999, 3, "1.000"),
        (i64::MAX, 6, "9223372036854.775391"),
    ];
    for (value, decimals, expected) in cases {
        let mut out = String::new();
        push_fixed(&mut out, value, decimals);
        assert_eq!(out, expected);
    }
}

#[test]
fn quantities_are_written_as_floating_point_numbers_are() {
    let mut values: Vec<i64> = (-2_000..2_000).map(|i| i * 5_000).collect();
    values.extend((0..2_000).map(|i: i64| i * i * i * 1_117_771 + i));
    values.extend([1, 2, 49_999, 50_000, 50_001, 1 << 52, 8_589_934_592_499_999]);
    for value in values {
        let float = value as f64 / 1e6;
        for decimals in [0, 1, 2, 3, 6, 7, 25, 80] {
            let mut out = String::new();
            push_fixed(&mut out, value, decimals);
            assert_eq!(out.trim_start_matches('-'), format!("{:.decimals$}", float.abs()));
            assert_eq!(out.starts_with('-'), value < 0);
        }
        assert_eq!(round(value), float.round() as i64);
    }
}

#[test]
fn whole_numbers_are_written_in_decimal() {
    let mut out = String::new();
    push_natural(&mut out, 0);
    push_integer(&mut out, -7);
    push_integer(&mut out, i64::MIN);
    push_natural(&mut out, u64::MAX);
    assert_eq!(out, "0-7-922337203685477580818446744073709551615");
}

fn decimal(s: &str) -> Option<i64> {
    read_decimal(&chars_of(s))
}

#[test]
fn decimals_are_read_to_the_millionth() {
    assert_eq!(decimal("41.5"), Some(41_500_000));
    assert_eq!(decimal("-0.25"), Some(-250_000));
    assert_eq!(decimal("+3"), Some(3_000_000));
    assert_eq!(decimal("1e-3"), Some(1_000));
    assert_eq!(decimal(".5"), Some(500_000));
    assert_eq!(decimal("5."), Some(5_000_000));
    assert_eq!(decimal("inf"), Some(i64::MAX));
    assert_eq!(decimal("-Infinity"), Some(i64::MIN));
    assert_eq!(decimal("1e300"), Some(i64::MAX));
    assert_eq!(decimal(""), None);
    assert_eq!(decimal("."), None);
    assert_eq!(decimal("4 2"), None);
    assert_eq!(decimal("1e"), None);
}

#[test]
fn whole_numbers_are_read_where_they_fit() {
    let whole = |s: &str| read_whole(&chars_of(s));
    assert_eq!(whole("1780000000"), Some(1_780_000_000));
    assert_eq!(whole("+7"), Some(7));
    assert_eq!(whole("18446744073709551615"), Some(u64::MAX));
    assert_eq!(whole("18446744073709551616"), None);
    assert_eq!(whole("-1"), None);
    assert_eq!(whole(""), None);
}

#[test]
fn quantities_stay_within_their_range() {
    assert_eq!(clip(i128::MAX), i64::MAX);
    assert_eq!(clip(-5), -5);
    assert_eq!(times(micro(1.5), micro(2.0)), micro(3.0));
    assert_eq!(times(i64::MAX, i64::MAX), i64::MAX);
    assert_eq!(percent_of(micro(1.0), micro(3.0)), 33_333_333);
    assert_eq!(percent_of(1, 0), i64::MAX);
    assert_eq!(round_units(-1_500_000), -2);
    assert_eq!(round_units(1_499_999), 1);
}

#[test]
fn texts_have_an_order() {
    let texts = ["", "A", "BAT", "BAT0", "BAT1", "BAT10", "BAT2", "b", "é", "→", "🔋"];
    for (i, a) in texts.iter().enumerate() {
        for (j, b) in texts.iter().enumerate() {
            assert_eq!(is_before(a, b), i < j);
        }
    }
}

#[test]
fn text_is_taken_apart_by_character() {
    let all = chars_of("a\tbé\t");
    let fields: Vec<String> = split(&all, '\t').iter().map(|f| string_of(f)).collect();
    assert_eq!(fields, vec!["a", "bé", ""]);

    let all = chars_of("one\r\ntwo\n\nthree");
    let found: Vec<String> = lines(&all).iter().map(|f| string_of(f)).collect();
    assert_eq!(found, vec!["one", "two", "", "three"]);

    let all = chars_of("\u{a0} x \u{3000}");
    assert_eq!(string_of(trim(&all)), "x");
    let all = chars_of("k=v=w");
    let (key, value) = split_once(&all, '=').unwrap();
    assert_eq!((string_of(key), string_of(value)), ("k".to_owned(), "v=w".to_owned()));
    assert_eq!(string_of(strip_prefixes(&chars_of("ababc"), "ab")), "c");
}

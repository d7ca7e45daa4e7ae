use leyden::battery::history::{Follows, Sample};
use leyden::battery::types::Status;
use leyden::duration::Duration;
use leyden::store;
use leyden::store::{compacted, cutoff, load, oversized, parse, within_horizon};

fn micro(value: f64) -> i64 {
    (value * 1e6).round() as i64
}

fn sample(secs: i64, power: Option<f64>) -> Sample {
    Sample {
        at: secs,
        percent: micro(41.5),
        power: power.map(micro),
        status: Status::Charging,
        follows: Follows::Poll,
    }
}

#[test]
fn a_sample_survives_a_round_trip() {
    let written = store::line(&sample(1_780_000_000, Some(68.031))).unwrap();
    assert_eq!(written, "1780000000\t41.5\t68.03\tcharging\t\n");

    let read = parse(written.trim_end()).unwrap();
    assert_eq!(read.at, sample(1_780_000_000, None).at);
    assert_eq!(read.percent, micro(41.5));
    assert_eq!(read.power, Some(micro(68.03)));
    assert_eq!(read.status, Status::Charging);
}

#[test]
fn a_missing_power_reading_round_trips_as_a_dash() {
    let written = store::line(&sample(1_780_000_000, None)).unwrap();
    assert!(written.contains("\t-\t"));
    assert_eq!(parse(written.trim_end()).unwrap().power, None);
}

#[test]
fn markers_round_trip_and_old_lines_still_load() {
    for follows in [Follows::Sleep, Follows::Launch, Follows::Poll] {
        let mut marked = sample(1_780_000_000, None);
        marked.follows = follows;
        let written = store::line(&marked).unwrap();
        assert_eq!(parse(written.trim_end()).unwrap().follows, follows);
    }

    // A line from before the column existed: four fields, no marker.
    let old = parse("1780000000\t41.5\t-\tcharging").unwrap();
    assert_eq!(old.follows, Follows::Poll);
    // An unrecognised marker is not a reason to drop the reading.
    let future = parse("1780000000\t41.5\t-\tcharging\thibernated").unwrap();
    assert_eq!(future.follows, Follows::Poll);
}

#[test]
fn junk_lines_are_skipped_not_fatal() {
    assert!(parse("").is_none());
    assert!(parse("# leyden history").is_none());
    assert!(parse("1780000000\t41.5").is_none());
    assert!(parse("not-a-number\t41.5\t-\tcharging").is_none());
    // An unknown status is readable: only the parse rules are strict.
    assert_eq!(
        parse("1780000000\t41.5\t-\tsomething-new").unwrap().status,
        Status::Unknown
    );
}

#[test]
fn columns_of_a_later_format_are_ignored() {
    let line = "1780000000\t41.5\t-\tcharging\tsleep";
    let more = format!("{line}\tmore\t\tand more");
    assert_eq!(parse(&more), parse(line));
    assert_eq!(parse(line).unwrap().follows, Follows::Sleep);
}

#[test]
fn writing_what_was_read_loses_nothing_more() {
    let read = parse(store::line(&sample(5, Some(1.23456))).unwrap().trim_end()).unwrap();
    assert_eq!(read.power, Some(micro(1.23)));
    let again = parse(store::line(&read).unwrap().trim_end()).unwrap();
    assert_eq!(again, read);
}

#[test]
fn a_sample_from_before_the_epoch_has_no_line() {
    assert_eq!(store::line(&sample(-1, None)), None);
}

fn lines_of(text: &str) -> Vec<String> {
    text.lines().map(str::to_owned).collect()
}

const DAY: i64 = 24 * 60 * 60;

#[test]
fn loading_drops_what_is_past_the_horizon_and_settles() {
    let now = Duration::from_secs(1_780_000_000);
    let fresh = sample(1_780_000_000 - 60, Some(10.0));
    let older = sample(1_780_000_000 - DAY, Some(9.0));
    let stale = sample(1_780_000_000 - DAY - 1, None);
    let mut file = String::new();
    for s in [&stale, &fresh, &older] {
        file.push_str(&store::line(s).unwrap());
    }
    file.push_str("junk\n");

    let (samples, text) = load(&lines_of(&file), now);
    assert_eq!(samples, vec![older, fresh]);
    let text = text.expect("a stale line is left behind");
    assert_eq!(
        text,
        format!("{}{}", store::line(&older).unwrap(), store::line(&fresh).unwrap())
    );

    // What was rewritten loads unchanged and leaves nothing to remove.
    let (again, rest) = load(&lines_of(&text), now);
    assert_eq!(again, samples);
    assert_eq!(rest, None);
    assert_eq!(compacted(&lines_of(&file), now), text);
    assert_eq!(within_horizon(&lines_of(&file), 0).1, 3);
}

#[test]
fn the_horizon_is_counted_from_the_very_moment() {
    let whole = Duration { secs: 100_000, nanos: 0 };
    let past = Duration { secs: 100_000, nanos: 1 };
    assert_eq!(cutoff(whole), 100_000 - DAY);
    assert_eq!(cutoff(past), 100_000 - DAY + 1);
}

#[test]
fn a_file_is_compacted_past_a_quarter_of_a_megabyte() {
    assert!(!oversized(256 * 1024));
    assert!(oversized(256 * 1024 + 1));
}

use leyden::clock::{moment_of, present_second, read, second_of, wall_time, FromEpoch, Moment};
use leyden::duration::Duration;
use leyden::sleep::{slept, Clocks};

#[test]
fn a_normal_poll_is_not_a_suspend() {
    let mut clocks = Clocks::default();
    assert!(clocks.advance().is_none(), "the first call has no previous");
    // Two calls in quick succession: both clocks moved together.
    assert!(clocks.advance().is_none());
}

#[test]
fn a_reset_swallows_the_next_reading() {
    let mut clocks = Clocks::default();
    clocks.advance();
    clocks.reset();
    assert!(clocks.advance().is_none());
}

#[test]
fn a_sleep_reads_as_its_wall_clock_length() {
    // Wall clock jumped an hour while the monotonic clock barely moved: exactly
    // what a suspend looks like from userspace.
    let mut clocks = Clocks::default();
    clocks.advance();
    let last = clocks.last.unwrap();
    clocks.last = Some(Moment {
        wall: last.wall - 3600 * 1_000_000_000,
        mono: last.mono,
    });
    let slept = clocks
        .advance()
        .expect("an hour of wall clock is a suspend");
    let secs = slept.as_secs() as f64 + f64::from(slept.nanos) / 1e9;
    assert!((secs - 3600.0).abs() < 5.0, "got {slept:?}");
}

const SECOND: i128 = 1_000_000_000;

fn moment(wall: i128, mono: i128) -> Moment {
    Moment {
        wall: wall * SECOND,
        mono: (mono * SECOND) as u128,
    }
}

#[test]
fn only_a_divergence_past_ten_seconds_is_a_suspend() {
    let before = moment(1000, 50);
    assert_eq!(slept(before, moment(1010, 50)), None);
    assert_eq!(
        slept(before, moment(1011, 50)),
        Some(Duration::from_secs(11))
    );
    // Time awake is not counted.
    assert_eq!(
        slept(before, moment(5011, 4050)),
        Some(Duration::from_secs(11))
    );
    assert_eq!(slept(before, moment(5000, 4050)), None);
    // A wall clock that was set back is no suspend.
    assert_eq!(slept(before, moment(10, 60)), None);
}

#[test]
fn a_given_moment_is_remembered() {
    let mut clocks = Clocks::default();
    assert_eq!(clocks.advance_to(moment(1000, 0)), None);
    assert_eq!(
        clocks.advance_to(moment(1100, 10)),
        Some(Duration::from_secs(90))
    );
    clocks.reset();
    assert_eq!(clocks.advance_to(moment(9000, 11)), None);
}

#[test]
fn moments_are_counted_from_the_epoch() {
    let half = Duration {
        secs: 2,
        nanos: 500_000_000,
    };
    assert_eq!(wall_time(FromEpoch::After(half)), 2_500_000_000);
    assert_eq!(wall_time(FromEpoch::Before(half)), -2_500_000_000);
    assert_eq!(second_of(2_500_000_000), 2);
    assert_eq!(second_of(-2_500_000_000), -3);
    assert_eq!(second_of(-3_000_000_000), -3);
}

#[test]
fn a_moment_is_what_both_clocks_read() {
    let wall = Duration {
        secs: 2,
        nanos: 500_000_000,
    };
    let counted = Duration { secs: 7, nanos: 9 };
    assert_eq!(
        moment_of(FromEpoch::Before(wall), counted),
        Moment {
            wall: -2_500_000_000,
            mono: 7_000_000_009,
        }
    );
}

#[test]
fn the_monotonic_clock_counts_from_where_it_was_told() {
    let origin = std::time::Instant::now();
    let first = read(&origin);
    let second = read(&origin);
    assert!(first.mono <= second.mono);
    assert!(second.mono < 15_000_000_000, "{second:?}");
    // The wall clock counts from the epoch, in nanoseconds.
    assert!((second_of(second.wall) - present_second()).abs() <= 1);
}

#[test]
fn the_present_is_after_this_was_written() {
    let told = present_second();
    let since = std::time::SystemTime::now()
        .duration_since(std::time::UNIX_EPOCH)
        .unwrap()
        .as_secs() as i64;
    assert!((since - told).abs() <= 1, "{told} against {since}");
}

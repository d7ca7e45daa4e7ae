use leyden::battery::history::{Follows, History, Sample};
use leyden::battery::types::Status;
use leyden::recordings;
use leyden::recordings::{
    keep, latest, load, merge, parse, runs_in, save, Kind, Run, KEEP_PER_KIND, SERIES_POINTS,
    SHOWN_PER_KIND,
};

fn micro(value: f64) -> i64 {
    (value * 1e6).round() as i64
}

fn units(value: i64) -> f64 {
    value as f64 / 1e6
}

type Entry = (u64, f64, Status, Follows);

fn history_of(entries: &[Entry]) -> History {
    let mut history = History::new(4096);
    for (secs, percent, status, follows) in entries {
        history.push(Sample {
            at: *secs as i64,
            percent: micro(*percent),
            power: Some(micro(10.0)),
            status: *status,
            follows: *follows,
        });
    }
    history
}

/// A run of `count` readings 30s apart, walking `percent` by `step`.
fn walk(from: u64, count: u64, percent: f64, step: f64, status: Status) -> Vec<Entry> {
    (0..count)
        .map(|i| {
            (
                from + i * 30,
                percent + step * i as f64,
                status,
                Follows::Poll,
            )
        })
        .collect()
}

#[test]
fn a_discharge_then_a_charge_are_two_runs() {
    let mut entries = walk(0, 40, 80.0, -0.5, Status::Discharging);
    entries.extend(walk(1200, 40, 60.0, 0.5, Status::Charging));
    let runs = runs_in(&history_of(&entries));

    assert_eq!(runs.len(), 2);
    assert_eq!(runs[0].kind, Kind::Discharge);
    assert_eq!(runs[1].kind, Kind::Charge);
    // The reading that ended the first run is its endpoint.
    assert_eq!(runs[0].to_percent, micro(60.0));
    assert!(runs[1].in_progress, "the newest run is still going");
    assert!(!runs[0].in_progress);
}

#[test]
fn reaching_full_ends_a_charge() {
    let mut entries = walk(0, 40, 80.0, 0.5, Status::Charging);
    entries.push((1200, 100.0, Status::Full, Follows::Poll));
    let runs = runs_in(&history_of(&entries));

    assert_eq!(runs.len(), 1);
    assert_eq!(runs[0].kind, Kind::Charge);
    assert_eq!(runs[0].to_percent, micro(100.0), "it reached full");
    assert!(!runs[0].in_progress, "full closed it");
    // The graph has to agree with the row it sits under.
    assert_eq!(
        runs[0].series.last().map(|(_, percent)| *percent),
        Some(micro(100.0)),
        "the shape reaches full too"
    );
}

#[test]
fn blips_are_not_runs() {
    // Four readings, two minutes, either side of a real discharge.
    let mut entries = walk(0, 4, 100.0, 0.0, Status::Full);
    entries.extend(walk(1000, 40, 90.0, -0.5, Status::Discharging));
    let runs = runs_in(&history_of(&entries));
    assert_eq!(runs.len(), 1, "only the discharge is long enough");
    assert_eq!(runs[0].kind, Kind::Discharge);
}

#[test]
fn a_restart_does_not_split_one_discharge() {
    // A 73-minute discharge came back as three fragments because each app restart
    // broke it.
    let mut entries = walk(0, 40, 80.0, -0.25, Status::Discharging);
    let mut after = walk(1300, 40, 69.0, -0.25, Status::Discharging);
    after[0].3 = Follows::Launch;
    entries.extend(after);

    let runs = runs_in(&history_of(&entries));
    assert_eq!(runs.len(), 1, "one discharge, not two");
    assert_eq!(runs[0].from_percent, micro(80.0));
}

#[test]
fn charging_across_a_gap_splits_the_discharge() {
    // Same trend either side, but the charge went *up* while nobody was watching,
    // so it was plugged in and this is a different discharge.
    let mut entries = walk(0, 40, 80.0, -0.25, Status::Discharging);
    let mut after = walk(1300, 40, 95.0, -0.25, Status::Discharging);
    after[0].3 = Follows::Launch;
    entries.extend(after);

    let runs = runs_in(&history_of(&entries));
    assert_eq!(runs.len(), 2, "the charge rose across the gap");
}

fn run(kind: Kind, started: i64, in_progress: bool) -> Run {
    Run {
        kind,
        started,
        ended: started + 3600,
        from_percent: micro(80.0),
        to_percent: micro(40.0),
        watts: Some(micro(11.25)),
        series: vec![
            (micro(0.0), micro(80.0)),
            (micro(1800.0), micro(60.0)),
            (micro(3600.0), micro(40.0)),
        ],
        in_progress,
    }
}

#[test]
fn a_run_survives_a_round_trip_through_the_file_format() {
    let original = run(Kind::Discharge, 1_780_000_000, false);
    let written = recordings::line(&original).unwrap();
    assert_eq!(parse(written.trim_end()).unwrap(), original);

    // A line with no series still loads; the graph simply has nothing to draw.
    let bare = parse("charge\t100\t200\t10.0\t20.0\t-").unwrap();
    assert_eq!(bare.kind, Kind::Charge);
    assert!(bare.series.is_empty());
    assert_eq!(bare.watts, None);

    // A line in the first format, bare percentages with no offsets, cannot say
    // where its gaps were, so it loads with no series rather than a lie.
    let old = parse("charge\t100\t200\t10.0\t20.0\t-\t80.0,60.0,40.0").unwrap();
    assert!(old.series.is_empty());

    assert!(parse("nonsense\t1\t2\t3\t4\t5").is_none());
}

#[test]
fn merging_replaces_a_run_rather_than_duplicating_it() {
    let mut known = vec![run(Kind::Discharge, 100, true)];
    // The same run, now finished.
    let finished = run(Kind::Discharge, 100, false);

    assert!(merge(&mut known, vec![finished.clone()]));
    assert_eq!(known.len(), 1, "same start time, same run");
    assert!(!known[0].in_progress);

    // Merging it again changes nothing.
    assert!(!merge(&mut known, vec![finished]));
}

#[test]
fn only_the_newest_few_are_listed_newest_first() {
    let runs: Vec<Run> = (0..8)
        .map(|i| run(Kind::Discharge, 1000 + i * 10_000, i < 7))
        .collect();
    let listed = latest(&runs, Kind::Discharge);

    assert_eq!(listed.len(), SHOWN_PER_KIND);
    assert!(listed[0].started > listed[1].started, "newest first");
    assert!(latest(&runs, Kind::Charge).is_empty());
}

#[test]
fn a_run_in_progress_is_listed_at_the_front() {
    let runs = vec![
        run(Kind::Discharge, 1000, true),
        run(Kind::Discharge, 11_000, false),
    ];
    let starts = |runs: &[Run]| -> Vec<i64> {
        latest(runs, Kind::Discharge)
            .iter()
            .map(|run| run.started)
            .collect()
    };
    assert_eq!(starts(&runs), vec![1000, 11_000]);

    // The rest come newest first, and the list is cut behind them.
    let mut many: Vec<Run> = (0..7).map(|i| run(Kind::Discharge, i * 100, false)).collect();
    many.push(run(Kind::Discharge, 50, true));
    many.push(run(Kind::Charge, 900, true));
    assert_eq!(starts(&many), vec![50, 600, 500, 400, 300]);
}

#[test]
fn a_gap_inside_a_run_survives_the_thinning() {
    // A discharge interrupted by a long sleep: the stored shape must still show
    // that nothing was observed in the middle.
    let mut entries = walk(0, 40, 80.0, -0.25, Status::Discharging);
    let mut after = walk(30_000, 40, 60.0, -0.25, Status::Discharging);
    after[0].3 = Follows::Sleep;
    entries.extend(after);

    let runs = runs_in(&history_of(&entries));
    assert_eq!(runs.len(), 1, "one discharge across the sleep");

    let biggest = runs[0]
        .series
        .windows(2)
        .map(|pair| units(pair[1].0) - units(pair[0].0))
        .fold(0.0_f64, f64::max);
    assert!(
        biggest > 20_000.0,
        "the unobserved stretch must survive as a real jump, got {biggest}"
    );
}

#[test]
fn a_run_carries_its_own_shape_and_rate() {
    let runs = runs_in(&history_of(&walk(0, 120, 80.0, -0.25, Status::Discharging)));
    let run = &runs[0];

    assert!(run.series.len() <= SERIES_POINTS);
    assert!(run.series.len() > 2, "enough points to draw");
    assert_eq!(
        run.series.first().map(|(_, percent)| *percent),
        Some(micro(80.0))
    );
    assert_eq!(run.series.first().map(|(at, _)| *at), Some(micro(0.0)));
    assert!((units(run.watts.unwrap()) - 10.0).abs() < 0.001);
    // 29.75% over 59.5 minutes is very close to 30%/h.
    assert!(
        (units(run.rate().unwrap()) - 30.0).abs() < 0.5,
        "{:?}",
        run.rate()
    );
}

#[test]
fn a_rate_is_percent_per_hour_exactly() {
    let run = run(Kind::Discharge, 0, false);
    assert_eq!(run.moved(), micro(40.0));
    assert_eq!(run.elapsed().as_secs(), 3600);
    assert_eq!(run.rate(), Some(micro(40.0)));
    let instant = Run { ended: 0, ..run };
    assert_eq!(instant.rate(), None);
}

#[test]
fn thinning_never_exceeds_its_limit_and_keeps_both_ends() {
    for count in [63u64, 64, 65, 127, 128, 129, 130, 200, 640, 641, 1000] {
        let runs = runs_in(&history_of(&walk(0, count, 90.0, -0.05, Status::Discharging)));
        let series = &runs[0].series;
        assert!(series.len() <= SERIES_POINTS, "{count}");
        assert_eq!(series[0].0, 0, "{count}");
        assert_eq!(
            series[series.len() - 1].0,
            micro((count as f64 - 1.0) * 30.0),
            "{count}"
        );
        for pair in series.windows(2) {
            assert!(pair[0].0 < pair[1].0, "{count}");
            // An observation, not an interpolation.
            assert_eq!(pair[1].0 % micro(30.0), 0, "{count}");
        }
    }
}

#[test]
fn a_run_of_exactly_five_minutes_is_one() {
    let eleven = walk(0, 11, 80.0, -0.5, Status::Discharging);
    assert_eq!(runs_in(&history_of(&eleven)).len(), 1);
    let ten = walk(0, 10, 80.0, -0.5, Status::Discharging);
    assert_eq!(runs_in(&history_of(&ten)).len(), 0);
    assert!(runs_in(&History::new(4)).is_empty());
}

#[test]
fn merging_leaves_the_rest_alone_and_puts_them_in_order() {
    let mut known = vec![run(Kind::Charge, 500, false), run(Kind::Charge, 900, false)];
    let changed = merge(
        &mut known,
        vec![run(Kind::Discharge, 700, true), run(Kind::Charge, 900, false)],
    );
    assert!(changed);
    let starts: Vec<i64> = known.iter().map(|run| run.started).collect();
    assert_eq!(starts, vec![500, 700, 900]);
    assert_eq!(known[0], run(Kind::Charge, 500, false));
    assert!(!merge(&mut known, vec![]));
}

#[test]
fn the_newest_finished_runs_of_each_kind_are_kept() {
    let mut runs: Vec<Run> = (0..25).map(|i| run(Kind::Discharge, i * 100, false)).collect();
    runs.push(run(Kind::Discharge, 9_000, true));
    runs.push(run(Kind::Charge, 50, false));
    let kept = keep(&runs);
    assert_eq!(kept.len(), KEEP_PER_KIND + 1);
    assert!(kept.iter().all(|run| !run.in_progress));
    assert_eq!(kept[0].started, 50);
    assert_eq!(kept[1].started, 500);
    assert_eq!(kept[KEEP_PER_KIND].started, 2400);
}

#[test]
fn what_was_saved_is_what_loads() {
    let runs = vec![
        run(Kind::Charge, 2_000, false),
        run(Kind::Discharge, 1_000, false),
        run(Kind::Discharge, 9_000, true),
        run(Kind::Discharge, -10, false),
    ];
    let text = save(&runs);
    assert_eq!(
        text,
        "discharge\t1000\t4600\t80.0\t40.0\t11.25\t0:80.0,1800:60.0,3600:40.0\n\
         charge\t2000\t5600\t80.0\t40.0\t11.25\t0:80.0,1800:60.0,3600:40.0\n"
    );
    let lines: Vec<String> = text.lines().map(str::to_owned).collect();
    assert_eq!(load(&lines), vec![runs[1].clone(), runs[0].clone()]);
    assert!(load(&vec![]).is_empty());
    assert_eq!(recordings::line(&runs[3]), None);
}

#[test]
fn kinds_have_keys() {
    for kind in [Kind::Discharge, Kind::Charge] {
        assert_eq!(Kind::from_key(kind.as_key()), Some(kind));
    }
    assert_eq!(Kind::from_key("idle"), None);
    assert_eq!(Kind::of(Status::Full), None);
    assert_eq!(Kind::of(Status::Charging), Some(Kind::Charge));
}

#[test]
fn copies_say_the_same() {
    let original = run(Kind::Charge, 7, false);
    assert!(original.same_as(&original.copy()));
    assert!(!original.same_as(&run(Kind::Charge, 8, false)));
}

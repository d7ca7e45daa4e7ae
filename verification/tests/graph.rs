use leyden::battery::history::{Follows, History, Sample};
use leyden::battery::types::Status;
use leyden::graph::{
    Bridge, Command, Palette, Rgba, Series, Trend, DOT_RADIUS, FILL_ALPHA, GRID_ALPHA, IDLE_ALPHA,
    LINE_WIDTH,
};

fn micro(value: f64) -> i64 {
    (value * 1e6).round() as i64
}

fn units(value: i64) -> f64 {
    value as f64 / 1e6
}

const WIDTH: i32 = 240;
const HEIGHT: i32 = 120;

/// Flat, fully opaque colours: the test cares that pixels land, not which shade
/// the accent happens to be today.
fn palette() -> Palette {
    let solid = |red: f64, green: f64, blue: f64| Rgba {
        red: micro(red),
        green: micro(green),
        blue: micro(blue),
        alpha: micro(1.0),
    };
    Palette {
        charging: solid(0.0, 1.0, 0.0),
        discharging: solid(0.0, 0.0, 1.0),
        idle: solid(0.5, 0.5, 0.5),
        grid: solid(1.0, 1.0, 1.0).with_alpha(GRID_ALPHA),
    }
}

/// A canvas that keeps the alpha of each pixel, which is all that these tests
/// look at.
struct Canvas {
    alpha: Vec<f64>,
}

impl Canvas {
    fn blend(&mut self, x: usize, y: usize, alpha: f64) {
        let pixel = &mut self.alpha[y * WIDTH as usize + x];
        *pixel += alpha * (1.0 - *pixel);
    }

    /// Covers every pixel whose centre `inside` holds of.
    fn cover(&mut self, alpha: f64, inside: &dyn Fn(f64, f64) -> bool) {
        for y in 0..HEIGHT as usize {
            for x in 0..WIDTH as usize {
                if inside(x as f64 + 0.5, y as f64 + 0.5) {
                    self.blend(x, y, alpha);
                }
            }
        }
    }
}

fn distance(p: (f64, f64), a: (f64, f64), b: (f64, f64)) -> f64 {
    let (dx, dy) = (b.0 - a.0, b.1 - a.1);
    let length = dx * dx + dy * dy;
    let t = if length == 0.0 {
        0.0
    } else {
        (((p.0 - a.0) * dx + (p.1 - a.1) * dy) / length).clamp(0.0, 1.0)
    };
    let (x, y) = (a.0 + t * dx, a.1 + t * dy);
    ((p.0 - x).powi(2) + (p.1 - y).powi(2)).sqrt()
}

fn within(path: &[(f64, f64)], x: f64, y: f64) -> bool {
    let mut inside = false;
    for i in 0..path.len() {
        let (a, b) = (path[i], path[(i + 1) % path.len()]);
        if (a.1 > y) != (b.1 > y) && x < (b.0 - a.0) * (y - a.1) / (b.1 - a.1) + a.0 {
            inside = !inside;
        }
    }
    inside
}

/// Renders to an array of alphas. Needs no window and no main loop.
fn render(series: &Series) -> Vec<f64> {
    let mut canvas = Canvas {
        alpha: vec![0.0; (WIDTH * HEIGHT) as usize],
    };
    let mut paths: Vec<Vec<(f64, f64)>> = Vec::new();
    let mut circle: Option<(f64, f64, f64)> = None;
    let (mut width, mut alpha) = (1.0, 0.0);
    for command in series.draw(WIDTH, HEIGHT, palette()) {
        match command {
            Command::LineWidth(value) => width = units(value),
            Command::Source(colour) => alpha = units(colour.alpha),
            Command::RoundEnds | Command::Dashed | Command::Solid | Command::ClosePath => {}
            Command::MoveTo(x, y) => paths.push(vec![(units(x), units(y))]),
            Command::LineTo(x, y) => paths.last_mut().unwrap().push((units(x), units(y))),
            Command::Circle(x, y, radius) => circle = Some((units(x), units(y), units(radius))),
            Command::Fill => {
                canvas.cover(alpha, &|x, y| {
                    paths.iter().any(|path| within(path, x, y))
                        || circle.is_some_and(|(cx, cy, r)| {
                            distance((x, y), (cx, cy), (cx, cy)) <= r
                        })
                });
                paths.clear();
                circle = None;
            }
            Command::Stroke => {
                canvas.cover(alpha, &|x, y| {
                    paths.iter().any(|path| {
                        path.windows(2)
                            .any(|ends| distance((x, y), ends[0], ends[1]) <= width / 2.0)
                    })
                });
                paths.clear();
            }
        }
    }
    canvas.alpha
}

/// Any paint at all: grid, fill and line together.
fn painted(pixels: &[f64]) -> usize {
    pixels.iter().filter(|alpha| **alpha > 0.0).count()
}

/// Nearly opaque paint only: the stroke and the trailing dot. The fill goes down
/// at `FILL_ALPHA` and the grid at `GRID_ALPHA`, so neither survives this cut.
/// Without it, deleting every stroke still passes on the strength of the fill
/// alone.
fn stroked(pixels: &[f64]) -> usize {
    pixels.iter().filter(|alpha| **alpha * 255.0 > 200.0).count()
}

fn painted_pixels(series: &Series) -> usize {
    painted(&render(series))
}

fn steady(cadence: u64, count: u64) -> History {
    let rows: Vec<(u64, f64, Status)> = (0..count)
        .map(|step| (step * cadence, 80.0 - step as f64, Status::Discharging))
        .collect();
    history(&rows)
}

fn series(history: &History, gap_secs: f64) -> Series {
    Series::from_history(history, micro(gap_secs))
}

#[test]
fn an_empty_history_paints_only_the_grid() {
    let empty = series(&History::new(4), 90.0);
    let painted = painted_pixels(&empty);
    // Five horizontal rules and nothing else.
    assert!(painted > 0, "the grid should still be drawn");
    assert!(
        painted < 3_000,
        "no data must mean no line and no fill, got {painted} pixels"
    );
}

#[test]
fn a_series_paints_far_more_than_the_grid() {
    let grid = painted_pixels(&series(&History::new(4), 90.0));
    let drawn = painted_pixels(&series(&steady(30, 20), 90.0));
    assert!(
        drawn > grid * 3,
        "a real series should paint a line and a fill: {drawn} vs {grid} for the bare grid"
    );
}

#[test]
fn the_recorded_cadence_actually_reaches_the_canvas() {
    // Caught at the pixels rather than at the geometry: a history recorded every
    // 30s once produced only single-point segments, so every stroke and every
    // fill was skipped and this painted the grid.
    let grid = painted_pixels(&series(&History::new(4), 90.0));
    let recorded = painted_pixels(&series(&steady(30, 20), RECORD_GAP_TEST));
    assert!(
        recorded > grid * 3,
        "a 30s cadence must draw: {recorded} vs {grid} for the bare grid"
    );
}

#[test]
fn the_line_itself_is_stroked_not_just_filled() {
    let pixels = render(&series(&steady(30, 20), RECORD_GAP_TEST));
    let stroke = stroked(&pixels);
    assert!(
        stroke > 100,
        "the trend line must reach the canvas, not only its fill: {stroke} opaque pixels"
    );
}

/// The threshold used for the recorded ring: three times its cadence.
const RECORD_GAP_TEST: f64 = 90.0;

fn history(entries: &[(u64, f64, Status)]) -> History {
    let mut history = History::new(100);
    for (secs, percent, status) in entries {
        history.push(Sample {
            at: *secs as i64,
            percent: micro(*percent),
            power: None,
            status: *status,
            follows: Follows::Poll,
        });
    }
    history
}

#[test]
fn the_recorded_cadence_still_draws_one_line() {
    // History is recorded every 30s. If the gap threshold is smaller than that,
    // every consecutive pair reads as a gap and the graph degenerates into
    // isolated single points that draw nothing at all.
    let series = series(
        &history(&[
            (0, 80.0, Status::Discharging),
            (30, 79.0, Status::Discharging),
            (60, 78.0, Status::Discharging),
            (90, 77.0, Status::Discharging),
        ]),
        90.0,
    );
    assert_eq!(
        series.segments.len(),
        1,
        "a steady 30s cadence must be one segment"
    );
    assert_eq!(series.runs().len(), 1, "and one continuous filled run");
}

#[test]
fn a_steady_discharge_is_one_segment() {
    let series = series(
        &history(&[
            (0, 80.0, Status::Discharging),
            (2, 79.0, Status::Discharging),
            (4, 78.0, Status::Discharging),
        ]),
        15.0,
    );
    assert_eq!(series.segments.len(), 1);
    assert_eq!(series.points(), 3);
}

#[test]
fn a_suspend_breaks_the_line() {
    let series = series(
        &history(&[
            (0, 80.0, Status::Discharging),
            (2, 79.0, Status::Discharging),
            (7200, 40.0, Status::Discharging),
        ]),
        15.0,
    );
    assert_eq!(series.segments.len(), 2);
    assert_eq!(series.segments[1].points.len(), 1);
}

#[test]
fn plugging_in_changes_colour_without_breaking_the_line() {
    let series = series(
        &history(&[
            (0, 80.0, Status::Discharging),
            (2, 79.0, Status::Discharging),
            (4, 79.0, Status::Charging),
        ]),
        15.0,
    );
    assert_eq!(series.segments.len(), 2);
    // The charging segment starts at the last discharging point, so the two meet
    // instead of leaving a hole.
    assert_eq!(series.segments[1].points.len(), 2);
    assert_eq!(series.segments[1].points[0], (micro(2.0), micro(79.0)));
}

#[test]
fn only_a_gap_splits_the_filled_area() {
    let plugged_in = series(
        &history(&[
            (0, 80.0, Status::Discharging),
            (2, 79.0, Status::Discharging),
            (4, 79.0, Status::Charging),
        ]),
        15.0,
    );
    assert_eq!(plugged_in.segments.len(), 2);
    assert_eq!(plugged_in.runs().len(), 1);
    assert_eq!(plugged_in.runs()[0].len(), 3);

    let slept = series(
        &history(&[
            (0, 80.0, Status::Discharging),
            (2, 79.0, Status::Discharging),
            (7200, 40.0, Status::Discharging),
        ]),
        15.0,
    );
    assert_eq!(slept.runs().len(), 2);
}

#[test]
fn every_reading_is_drawn_once() {
    let readings = [
        (0, 80.0, Status::Discharging),
        (30, 79.0, Status::Discharging),
        (60, 79.5, Status::Charging),
        (5000, 85.0, Status::Charging),
        (5030, 85.0, Status::Full),
    ];
    let series = series(&history(&readings), 90.0);
    let drawn: Vec<(i64, i64)> = series.runs().concat();
    let expected: Vec<(i64, i64)> = readings
        .iter()
        .map(|(secs, percent, _)| (micro(*secs as f64), micro(*percent)))
        .collect();
    assert_eq!(drawn, expected);
    assert_eq!(series.bridges.len(), 1);
    assert_eq!(series.runs().len(), 2);
    assert_eq!(series.span, micro(5030.0));
    assert_eq!(
        series.segments.iter().map(|s| s.trend).collect::<Vec<_>>(),
        vec![
            Trend::Discharging,
            Trend::Charging,
            Trend::Charging,
            Trend::Idle
        ]
    );
    // A trend change repeats a point; a gap does not.
    assert_eq!(series.points(), 7);
}

#[test]
fn a_bridged_gap_says_what_it_was() {
    let gap = |follows: Follows, percent: f64| Bridge {
        from: (0, micro(60.0)),
        to: (micro(8.0 * 3600.0), micro(percent)),
        follows,
    };
    assert_eq!(
        gap(Follows::Sleep, 49.0).readout(),
        "Asleep · 8 h · 11% used (1.4%/h)"
    );
    assert_eq!(
        gap(Follows::Launch, 49.0).readout(),
        "App closed · 8 h · 11% used (1.4%/h)"
    );
    assert_eq!(gap(Follows::Sleep, 60.0).readout(), "Asleep · 8 h");
    assert_eq!(gap(Follows::Poll, 70.0).readout(), "No readings · 8 h");
}

#[test]
fn a_gap_is_found_where_it_is_pointed_at() {
    let slept = series(
        &history(&[
            (0, 80.0, Status::Discharging),
            (1000, 79.0, Status::Discharging),
            (3000, 70.0, Status::Discharging),
            (4000, 69.0, Status::Discharging),
        ]),
        1500.0,
    );
    assert_eq!(slept.bridges.len(), 1);
    // Across 200 pixels of plot the gap runs from a quarter to three quarters.
    assert_eq!(slept.bridge_under(228, 120, micro(63.9)), None);
    assert_eq!(
        slept.bridge_under(228, 120, micro(64.0)),
        Some(slept.bridges[0])
    );
    assert!(slept.bridge_under(228, 120, micro(164.0)).is_some());
    assert_eq!(slept.bridge_under(228, 120, micro(164.1)), None);
    assert_eq!(slept.bridge_under(20, 120, micro(10.0)), None);
}

#[test]
fn a_small_canvas_holds_no_plot() {
    let drawn = series(&steady(30, 20), 90.0);
    assert!(drawn.draw(28, 120, palette()).is_empty());
    assert!(drawn.draw(240, 28, palette()).is_empty());
    assert!(!drawn.draw(29, 29, palette()).is_empty());
}

#[test]
fn two_readings_are_drawn_step_by_step() {
    let drawn = series(
        &history(&[
            (0, 100.0, Status::Charging),
            (60, 50.0, Status::Charging),
        ]),
        90.0,
    )
    .draw(228, 128, palette());
    // The grid: a width, a colour, five rules and a stroke.
    assert_eq!(drawn[0], Command::LineWidth(micro(1.0)));
    assert_eq!(drawn[1], Command::Source(palette().grid));
    assert_eq!(drawn[2], Command::MoveTo(micro(14.0), micro(114.0)));
    assert_eq!(drawn[3], Command::LineTo(micro(214.0), micro(114.0)));
    assert_eq!(drawn[10], Command::MoveTo(micro(14.0), micro(14.0)));
    assert_eq!(drawn[12], Command::Stroke);
    let green = palette().charging;
    assert_eq!(
        drawn[13..].to_vec(),
        vec![
            Command::LineWidth(LINE_WIDTH),
            Command::RoundEnds,
            Command::Source(green.with_alpha(FILL_ALPHA)),
            Command::MoveTo(micro(14.0), micro(14.0)),
            Command::LineTo(micro(214.0), micro(64.0)),
            Command::LineTo(micro(214.0), micro(114.0)),
            Command::LineTo(micro(14.0), micro(114.0)),
            Command::ClosePath,
            Command::Fill,
            Command::Dashed,
            Command::Source(palette().idle),
            Command::Solid,
            Command::MoveTo(micro(14.0), micro(14.0)),
            Command::LineTo(micro(214.0), micro(64.0)),
            Command::Source(green),
            Command::Stroke,
            Command::Source(green),
            Command::Circle(micro(214.0), micro(64.0), DOT_RADIUS),
            Command::Fill,
        ]
    );
}

#[test]
fn the_plot_stays_inside_its_margins() {
    let rows: Vec<(u64, f64, Status)> = (0..50)
        .map(|i| (i * 37, (i * 53 % 101) as f64, Status::Discharging))
        .collect();
    for (width, height) in [(29, 29), (240, 120), (1000, 31)] {
        for command in series(&history(&rows), 90.0).draw(width, height, palette()) {
            if let Command::MoveTo(x, y) | Command::LineTo(x, y) | Command::Circle(x, y, _) =
                command
            {
                assert!(micro(14.0) <= x && x <= micro(f64::from(width) - 14.0));
                assert!(micro(14.0) <= y && y <= micro(f64::from(height) - 14.0));
            }
        }
    }
}

#[test]
fn a_stored_run_is_one_line() {
    let points = vec![(0, micro(80.0)), (micro(3600.0), micro(40.0))];
    let series = Series::from_points(&points, false, micro(3600.0));
    assert_eq!(series.segments.len(), 1);
    assert_eq!(series.segments[0].trend, Trend::Discharging);
    assert_eq!(series.segments[0].points, points);
    assert!(series.bridges.is_empty());
    assert_eq!(series.span, micro(3600.0));
    let charged = Series::from_points(&points, true, micro(3600.0));
    assert_eq!(charged.segments[0].trend, Trend::Charging);

    let empty = Series::from_points(&vec![], true, micro(90.0));
    assert_eq!(empty.span, 0);
    assert!(empty.segments.is_empty());
    assert!(empty.bridges.is_empty());
}

#[test]
fn a_pause_inside_a_stored_run_is_bridged() {
    let points = vec![
        (0, micro(80.0)),
        (micro(30.0), micro(79.0)),
        (micro(30.0 + 8.0 * 3600.0), micro(70.0)),
        (micro(60.0 + 8.0 * 3600.0), micro(69.0)),
    ];
    let series = Series::from_points(&points, false, micro(90.0));
    assert_eq!(series.segments.len(), 2);
    assert_eq!(series.segments[0].points, points[..2]);
    assert_eq!(series.segments[1].points, points[2..]);
    assert!(series.segments[1].broke);
    assert_eq!(
        series.bridges,
        vec![Bridge {
            from: points[1],
            to: points[2],
            follows: Follows::Poll,
        }]
    );
    assert!(series.bridges[0].readout().starts_with("No readings · 8 h"));
}

#[test]
fn the_palette_fades_the_foreground() {
    let p = palette();
    let faded = Palette::of(p.charging, p.discharging, p.idle);
    assert_eq!(faded.idle, p.idle.with_alpha(IDLE_ALPHA));
    assert_eq!(faded.grid, p.idle.with_alpha(GRID_ALPHA));
    assert_eq!(faded.trend(Trend::Charging), p.charging);
    assert_eq!(faded.trend(Trend::Discharging), p.discharging);
    assert_eq!(faded.trend(Trend::Idle), faded.idle);
    assert_eq!(Trend::of(Status::NotCharging), Trend::Idle);
}

use densezip::progress::{
    add_total, decompress_units, draw, erase, finish, fmt_dur, println_above, race_units, render,
    set_phase, start, Progress, WIDTH,
};

/// The bar of `done` out of `total`: how much of it is filled, and the per cent.
fn bar(done: u64, total: u64) -> (usize, String) {
    let frac = if total > 0 {
        (done as f64 / total as f64).clamp(0.0, 1.0)
    } else {
        0.0
    };
    ((frac * WIDTH as f64) as usize, format!("{:.1}", frac * 100.0))
}

#[test]
fn duration_formatting() {
    assert_eq!(fmt_dur(0), "0:00");
    assert_eq!(fmt_dur(75), "1:15");
    assert_eq!(fmt_dur(3723), "1:02:03");
}

#[test]
fn render_line() {
    let (filled, percent) = bar(50, 100);
    let line = render("compressing", filled, &percent, 60, None);
    assert!(line.contains("50.0%"));
    assert!(line.contains("elapsed 1:00"));
    assert!(line.contains("ETA --:--"));
    // zero total must not divide by zero or overfill the bar
    let (filled, percent) = bar(5, 0);
    let line = render("planning", filled, &percent, 1, None);
    assert!(line.contains("0.0%"));
}

#[test]
fn render_exact_lines() {
    assert_eq!(
        render("compressing", 14, "50.0", 60, None),
        "compressing  [##############--------------]  50.0%  elapsed 1:00  ETA --:--"
    );
    assert_eq!(
        render("x", 28, "100.0", 3599, Some(3600)),
        "x            [############################] 100.0%  elapsed 59:59  ETA 1:00:00"
    );
    // a phase that is longer than its column is kept whole
    assert!(render("a phase that is long", 0, "0.0", 0, None)
        .starts_with("a phase that is long [----------------------------]   0.0%"));
}

#[test]
fn durations_around_an_hour() {
    assert_eq!(fmt_dur(9), "0:09");
    assert_eq!(fmt_dur(3599), "59:59");
    assert_eq!(fmt_dur(3600), "1:00:00");
    assert_eq!(fmt_dur(360_000), "100:00:00");
}

#[test]
fn counters_and_phases() {
    let mut p = Progress::new();
    assert!(start(&mut p));
    add_total(&mut p, 100);
    densezip::progress::add(&mut p, 40);
    densezip::progress::add(&mut p, 2);
    set_phase(&mut p, "planning");
    assert_eq!((p.done, p.total, p.phase, p.active), (42, 100, "planning", true));
    // a bar that runs is not started again
    assert!(!start(&mut p));
    assert_eq!(p.done, 42);
    assert!(finish(&mut p));
    // to stop it twice does nothing
    assert!(!finish(&mut p));
    assert!(start(&mut p));
    assert_eq!((p.done, p.total, p.phase), (0, 0, "planning"));
}

#[test]
fn counters_wrap_around() {
    let mut p = Progress::new();
    densezip::progress::add(&mut p, u64::MAX);
    densezip::progress::add(&mut p, 3);
    assert_eq!(p.done, 2);
}

#[test]
fn units_of_work() {
    assert_eq!(race_units(10, false), 10 * (48 + 96 + 3 * 128 + 3 * 8));
    assert_eq!(race_units(10, true), 10 * (48 + 96 + 3 * 128 + 3 * 8 + 2 * 1024));
    assert_eq!(decompress_units(true, 3), 3 * 1024);
    assert_eq!(decompress_units(false, 3), 24);
    // the cost of a race is that of its backends
    assert_eq!(race_units(1, true), 48 + 8 + 96 + 8 + 384 + 8 + 1024 + 1024);
}

#[test]
fn lines_above_the_bar() {
    let mut p = Progress::new();
    assert_eq!(println_above(&p, "hello"), "hello\n");
    start(&mut p);
    assert_eq!(println_above(&p, "hello"), format!("\r{:<90}\rhello\n", ""));
    assert_eq!(draw("abc"), format!("\r{:<90}", "abc"));
    assert_eq!(erase(), format!("\r{:<90}\r", ""));
}

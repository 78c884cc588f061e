use track::record::Timestamp;
use track::report::{report_last_day, report_window, ReportEntry};

const T0: u64 = 1_700_000_000;

#[test]
fn report_keeps_only_the_last_day() {
    let now: u64 = 1_800_000_000;
    let db = vec![
        Timestamp(T0, Some(T0 + 60), false),
        Timestamp(now - 3600, Some(now - 1800), false),
        Timestamp(now - 600, None, true),
    ];
    let (entries, total) = report_window(&db, now);
    assert_eq!(
        entries,
        vec![
            ReportEntry { start: now - 3600, end: now - 1800, seconds: 1800 },
            ReportEntry { start: now - 600, end: now, seconds: 600 },
        ]
    );
    assert_eq!(total, 2400);
}

#[test]
fn report_of_an_empty_database_is_empty() {
    let (entries, total) = report_window(&Vec::new(), T0);
    assert!(entries.is_empty());
    assert_eq!(total, 0);
}

#[test]
fn interval_touching_the_window_edge_is_included() {
    let now: u64 = 1_800_000_000;
    // Ends exactly where the window begins.
    let db = vec![Timestamp(now - 90_000, Some(now - 86_400), false)];
    let (entries, total) = report_window(&db, now);
    assert_eq!(entries.len(), 1);
    assert_eq!(entries[0].seconds, 3600);
    assert_eq!(total, 3600);

    // Ends one second before the window begins.
    let db = vec![Timestamp(now - 90_000, Some(now - 86_401), false)];
    let (entries, total) = report_window(&db, now);
    assert!(entries.is_empty());
    assert_eq!(total, 0);
}

#[test]
fn open_interval_ends_at_the_clock_reading() {
    let now: u64 = 1_800_000_000;
    let db = vec![Timestamp(now - 250, None, true)];
    let (entries, total) = report_window(&db, now);
    assert_eq!(
        entries,
        vec![ReportEntry { start: now - 250, end: now, seconds: 250 }]
    );
    assert_eq!(total, 250);
}

#[test]
fn clock_reading_younger_than_a_day_keeps_everything_after_the_epoch() {
    let now: u64 = 3600;
    let db = vec![Timestamp(0, Some(600), false)];
    let (entries, total) = report_window(&db, now);
    assert_eq!(entries.len(), 1);
    assert_eq!(total, 600);
}

#[test]
fn report_last_day_runs_against_the_real_clock() {
    // The wall clock is far past this fixed moment, so the interval falls
    // out of every window the clock can yield today.
    let db = vec![Timestamp(1_000, Some(2_000), false)];
    let (entries, total) = report_last_day(&db);
    assert!(entries.is_empty());
    assert_eq!(total, 0);
}

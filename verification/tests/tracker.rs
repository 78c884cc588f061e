use track::error::FlatFileError;
use track::record::Timestamp;
use track::tracker::{FlatFileTracker, TrackerState};

const T0: u64 = 1_700_000_000;

#[test]
fn start_tracking_with_default_tracker() {
    let mut state = TrackerState::new();
    state.start_at(T0).expect("start on an idle tracker must succeed");
    assert!(state.running);
}

#[test]
fn cannot_start_tracking_while_tracker_is_running() {
    let mut state = TrackerState::new();
    state
        .start_at(T0)
        .expect("failed to run the timer in the first time");

    let error = state.start_at(T0 + 10).unwrap_err();
    assert_eq!(error, FlatFileError::ActiveTimer);

    let display_message = error.message();
    assert!(
        display_message.contains("timer is already running"),
        "expected the error to contain 'timer is already running', but got: {display_message}"
    );
}

#[test]
fn stop_tracking_with_default_tracker() {
    let mut state = TrackerState::new();
    state.start_at(T0).expect("start must succeed");
    state.stop_at(T0 + 2).expect("stop must succeed");
    assert!(!state.running);
}

#[test]
fn cannot_stop_tracking_without_initiation() {
    let mut state = TrackerState::new();
    let result = state.stop_at(T0);

    assert!(result.is_err());

    let error = result.unwrap_err();
    assert_eq!(error, FlatFileError::InactiveTimer);

    let display_message = error.message();
    assert!(
        display_message.contains("timer is not running"),
        "expected the error to contain 'timer is not running', but got: {display_message}"
    );
}

#[test]
fn fresh_start_appends_open_record() {
    let mut state = TrackerState::new();
    state.start_at(T0).unwrap();
    assert_eq!(state.records, vec![Timestamp(T0, None, true)]);
    assert!(state.running);
}

#[test]
fn start_then_stop_closes_record() {
    let mut state = TrackerState::new();
    state.start_at(T0).unwrap();
    state.stop_at(T0 + 120).unwrap();
    assert_eq!(state.records, vec![Timestamp(T0, Some(T0 + 120), false)]);
    assert!(!state.running);
}

#[test]
fn double_start_changes_nothing() {
    let mut state = TrackerState::new();
    state.start_at(T0).unwrap();
    let before = state.records.clone();
    assert!(state.start_at(T0 + 5).is_err());
    assert_eq!(state.records, before);
    assert!(state.running);
}

#[test]
fn stop_without_start_changes_nothing() {
    let mut state = TrackerState::new();
    assert!(state.stop_at(T0).is_err());
    assert!(state.records.is_empty());
    assert!(!state.running);
}

#[test]
fn two_intervals() {
    let mut state = TrackerState::new();
    state.start_at(T0).unwrap();
    state.stop_at(T0 + 60).unwrap();
    state.start_at(T0 + 100).unwrap();
    state.stop_at(T0 + 130).unwrap();
    assert_eq!(
        state.records,
        vec![
            Timestamp(T0, Some(T0 + 60), false),
            Timestamp(T0 + 100, Some(T0 + 130), false),
        ]
    );
    assert!(!state.running);
}

#[test]
fn start_heals_dangling_open_record() {
    // A predecessor crashed after `start`: the record is open but the
    // lockfile is gone. The next `start` closes it and appends a fresh one.
    let records = vec![Timestamp(T0, None, true)];
    let mut state = TrackerState::from_parts(records, false);
    state.start_at(T0 + 50).unwrap();
    assert_eq!(
        state.records,
        vec![
            Timestamp(T0, Some(T0 + 50), false),
            Timestamp(T0 + 50, None, true),
        ]
    );
}

#[test]
fn stop_with_backwards_clock_clamps_end() {
    let mut state = TrackerState::new();
    state.start_at(T0).unwrap();
    state.stop_at(T0 - 100).unwrap();
    assert_eq!(state.records, vec![Timestamp(T0, Some(T0), false)]);
}

#[test]
fn stop_on_closed_database_is_a_no_op_mutation() {
    // The lockfile existed but the last record was already closed: `stop`
    // leaves the database alone and still reports success.
    let records = vec![Timestamp(T0, Some(T0 + 10), false)];
    let mut state = TrackerState::from_parts(records.clone(), true);
    state.stop_at(T0 + 99).unwrap();
    assert_eq!(state.records, records);
    assert!(!state.running);
}

#[test]
fn tracker_handle_keeps_paths_and_sees_no_lockfile() {
    let tracker = FlatFileTracker::new(
        String::from("some_db.json"),
        String::from("no_such_lockfile_for_these_tests"),
    );
    assert_eq!(tracker.db_dir, "some_db.json");
    assert_eq!(tracker.lockfile, "no_such_lockfile_for_these_tests");
    assert!(!tracker.is_running());
}

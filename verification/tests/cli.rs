use track::cli::{resolve_db_path, resolve_lockfile_path, resolve_verbosity};

#[test]
fn db_path_defaults_to_db_json() {
    assert_eq!(resolve_db_path(None), "db.json");
}

#[test]
fn db_path_gets_the_json_suffix_when_missing() {
    assert_eq!(resolve_db_path(Some(String::from("mydb"))), "mydb.json");
    assert_eq!(resolve_db_path(Some(String::from(""))), ".json");
    assert_eq!(
        resolve_db_path(Some(String::from("db.json.bak"))),
        "db.json.bak.json"
    );
}

#[test]
fn db_path_ending_in_json_is_kept() {
    assert_eq!(resolve_db_path(Some(String::from("a.json"))), "a.json");
    assert_eq!(resolve_db_path(Some(String::from(".json"))), ".json");
}

#[test]
fn lockfile_path_defaults_to_lockfile() {
    assert_eq!(resolve_lockfile_path(None), "lockfile");
    assert_eq!(
        resolve_lockfile_path(Some(String::from("/tmp/my.lock"))),
        "/tmp/my.lock"
    );
}

#[test]
fn quiet_clamps_verbosity() {
    assert_eq!(resolve_verbosity(0, 0), 0);
    assert_eq!(resolve_verbosity(3, 0), 3);
    assert_eq!(resolve_verbosity(3, 1), -1);
    assert_eq!(resolve_verbosity(0, 7), -1);
    assert_eq!(resolve_verbosity(255, 0), 127);
    assert_eq!(resolve_verbosity(127, 0), 127);
}

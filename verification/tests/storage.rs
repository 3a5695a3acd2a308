use std::path::PathBuf;

use workspace::error::WorkspaceError;
use workspace::model::SNAPSHOT_VERSION;
use workspace::storage::{check_can_save, check_snapshot_version, snapshot_file_name, validate_name, SnapshotStore};

#[test]
fn validates_safe_snapshot_names() {
    assert!(validate_name("coding").is_ok());
    assert!(validate_name("frontend.v2").is_ok());
    assert!(validate_name("../oops").is_err());
    assert!(validate_name("bad/name").is_err());
    assert!(validate_name(".hidden").is_err());
}

#[test]
fn names_have_a_length_and_charset_limit() {
    assert!(validate_name("").is_err());
    assert!(validate_name("trailing.").is_err());
    assert!(validate_name("with space").is_err());
    assert!(validate_name("caf\u{e9}").is_err());
    assert!(validate_name(&"a".repeat(128)).is_ok());
    assert!(validate_name(&"a".repeat(129)).is_err());
    assert!(validate_name("A-b_c.9").is_ok());
}

#[test]
fn invalid_names_report_the_name() {
    match validate_name("bad/name") {
        Err(WorkspaceError::InvalidName(name)) => assert_eq!(name, "bad/name"),
        other => panic!("expected InvalidName, got {other:?}"),
    }
    let err = validate_name("bad/name").unwrap_err();
    assert_eq!(err.exit_code(), 2);
    assert_eq!(
        err.message(),
        "invalid workspace name 'bad/name'; use letters, numbers, dots, dashes, and underscores"
    );
}

#[test]
fn snapshot_files_are_json_named_after_the_snapshot() {
    assert_eq!(snapshot_file_name("coding").unwrap(), "coding.json");
    assert!(snapshot_file_name("../x").is_err());
    let store = SnapshotStore::at(PathBuf::from("/tmp/snapshots"));
    assert_eq!(store.root(), &PathBuf::from("/tmp/snapshots"));
    assert_eq!(store.snapshot_path("coding").unwrap(), PathBuf::from("/tmp/snapshots/coding.json"));
    assert!(matches!(store.snapshot_path(".hidden"), Err(WorkspaceError::InvalidName(_))));
}

#[test]
fn snapshot_store_rejects_future_schema_versions() {
    assert!(check_snapshot_version("coding", SNAPSHOT_VERSION).is_ok());
    assert!(check_snapshot_version("coding", 0).is_ok());
    match check_snapshot_version("coding", SNAPSHOT_VERSION + 1) {
        Err(WorkspaceError::UnsupportedSnapshotVersion { name, found, supported }) => {
            assert_eq!(name, "coding");
            assert_eq!(found, SNAPSHOT_VERSION + 1);
            assert_eq!(supported, SNAPSHOT_VERSION);
        }
        other => panic!("expected UnsupportedSnapshotVersion, got {other:?}"),
    }
    let err = check_snapshot_version("coding", 99).unwrap_err();
    assert_eq!(err.exit_code(), 7);
    assert_eq!(
        err.message(),
        "workspace 'coding' uses snapshot schema version 99, but this build reads versions up to 1"
    );
}

#[test]
fn existing_snapshots_are_replaced_only_when_forced() {
    assert!(check_can_save("coding", false, false).is_ok());
    assert!(check_can_save("coding", false, true).is_ok());
    assert!(check_can_save("coding", true, true).is_ok());
    match check_can_save("coding", true, false) {
        Err(WorkspaceError::AlreadyExists(name)) => assert_eq!(name, "coding"),
        other => panic!("expected AlreadyExists, got {other:?}"),
    }
}

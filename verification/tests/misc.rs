use workspace::cli::{converge_iterations, keep_converging, plan_is_actionable, resolve_mode, ModeArg};
use workspace::error::WorkspaceError;
use workspace::filter::{is_skipped_owner, should_capture};
use workspace::model::{default_window_enabled, is_true};
use workspace::plan::{OperationKind, PlannedOperation, RestoreMode, RestorePlan};
use workspace::script::{applescript_string, new_window_script};
use workspace::selftest::{first_reposition, selftest_outcome, SelftestReport};
use workspace::style::{bold, paint, tag_fail, tag_ok, tag_part, tag_plan, tag_skip, tag_warn, TextStyle};

#[test]
fn tags_are_six_wide_and_colored_only_when_asked() {
    for tag in [tag_ok(false), tag_warn(false), tag_fail(false), tag_skip(false), tag_part(false), tag_plan(false)] {
        assert_eq!(tag.chars().count(), 6);
    }
    assert_eq!(tag_ok(false), "[ ok ]");
    assert_eq!(tag_ok(true), "\x1b[32m[ ok ]\x1b[0m");
    assert_eq!(tag_fail(true), "\x1b[31m[fail]\x1b[0m");
    assert_eq!(tag_skip(true), "\x1b[2m[skip]\x1b[0m");
    assert_eq!(tag_plan(true), "\x1b[36m[plan]\x1b[0m");
    assert_eq!(bold("x", true), "\x1b[1mx\x1b[0m");
    assert_eq!(paint(TextStyle::Yellow, "w", true), "\x1b[33mw\x1b[0m");
}

#[test]
fn destructive_flag_overrides_mode() {
    assert_eq!(resolve_mode(ModeArg::Safe, true), RestoreMode::Destructive);
    assert_eq!(resolve_mode(ModeArg::Reconcile, false), RestoreMode::Reconcile);
    assert_eq!(resolve_mode(ModeArg::Safe, false), RestoreMode::Safe);
    assert_eq!(RestoreMode::from(ModeArg::Destructive), RestoreMode::Destructive);
}

fn op(kind: OperationKind, saved: Option<usize>) -> PlannedOperation {
    PlannedOperation {
        kind,
        saved_window_index: saved,
        app_name: "A".to_string(),
        bundle_id: None,
        rationale: String::new(),
        match_score: None,
    }
}

fn plan(ops: Vec<PlannedOperation>) -> RestorePlan {
    RestorePlan { mode: RestoreMode::Safe, operations: ops, unmatched_saved: Vec::new(), destructive_ops: 0, left_alone_conflicts: 0 }
}

#[test]
fn convergence_stops_when_nothing_is_left_to_do() {
    assert_eq!(converge_iterations(0), 1);
    assert_eq!(converge_iterations(3), 3);
    assert!(keep_converging(true, false, 0, 3));
    assert!(!keep_converging(true, false, 2, 3));
    assert!(!keep_converging(true, true, 0, 3));
    assert!(!keep_converging(false, false, 0, 3));
    let skips = plan(vec![op(OperationKind::Skip { reason: "x".to_string() }, Some(0))]);
    assert!(!plan_is_actionable(&skips));
    let work = plan(vec![
        op(OperationKind::Skip { reason: "x".to_string() }, Some(0)),
        op(OperationKind::Reposition { live_pid: 1, live_window_id: 2 }, Some(1)),
    ]);
    assert!(plan_is_actionable(&work));
    assert_eq!(first_reposition(&work), Some((1, 1, 1, 2)));
    assert_eq!(first_reposition(&skips), None);
}

#[test]
fn selftest_fails_when_a_check_fails() {
    let mut report = SelftestReport::default();
    report.check("one", true, "fine".to_string());
    assert_eq!(report.failed(), 0);
    assert!(selftest_outcome(&report).is_ok());
    report.check("two", false, "broken".to_string());
    report.check("three", false, "broken".to_string());
    assert_eq!(report.failed(), 2);
    match selftest_outcome(&report) {
        Err(WorkspaceError::SelftestFailed { failed, total }) => assert_eq!((failed, total), (2, 3)),
        other => panic!("unexpected {other:?}"),
    }
    assert_eq!(selftest_outcome(&report).unwrap_err().message(), "2 of 3 self-checks failed");
}

#[test]
fn applescript_strings_are_escaped() {
    assert_eq!(applescript_string("plain"), "\"plain\"");
    assert_eq!(applescript_string("a\"b\\c"), "\"a\\\"b\\\\c\"");
    let script = new_window_script("com.apple.Terminal", "Terminal");
    assert_eq!(
        script,
        "tell application id \"com.apple.Terminal\" to activate\ndelay 0.2\ntell application \"System Events\"\nif exists process \"Terminal\" then\ntell process \"Terminal\" to keystroke \"n\" using command down\nend if\nend tell"
    );
}

#[test]
fn skips_system_utility_windows() {
    assert!(!should_capture(true, 0, true, true, "Dock"));
    assert!(is_skipped_owner("dock"));
    assert!(is_skipped_owner("WINDOW SERVER"));
    assert!(!is_skipped_owner("Code"));
}

#[test]
fn skips_tiny_windows() {
    assert!(!should_capture(true, 0, true, false, "Code"));
    assert!(should_capture(true, 0, true, true, "Code"));
    assert!(!should_capture(false, 0, true, true, "Code"));
    assert!(!should_capture(true, 3, true, true, "Code"));
}

#[test]
fn error_exit_codes_and_messages() {
    assert_eq!(WorkspaceError::NotFound("x".to_string()).exit_code(), 3);
    assert_eq!(WorkspaceError::AlreadyExists("x".to_string()).exit_code(), 4);
    assert_eq!(WorkspaceError::AccessibilityPermissionRequired.exit_code(), 5);
    assert_eq!(WorkspaceError::UnsupportedPlatform.exit_code(), 6);
    assert_eq!(WorkspaceError::MacOs("m".to_string()).exit_code(), 1);
    assert_eq!(WorkspaceError::NotFound("x".to_string()).message(), "workspace 'x' was not found");
    assert_eq!(
        WorkspaceError::AlreadyExists("x".to_string()).message(),
        "workspace 'x' already exists; pass --force to overwrite"
    );
    let io = WorkspaceError::ReadFile {
        path: std::path::PathBuf::from("/tmp/x.json"),
        source: std::io::Error::new(std::io::ErrorKind::NotFound, "gone"),
    };
    assert_eq!(io.message(), "could not read /tmp/x.json: gone");
    assert_eq!(io.exit_code(), 1);
}

#[test]
fn old_snapshots_default_windows_to_enabled() {
    assert!(default_window_enabled());
    assert!(is_true(&true));
    assert!(!is_true(&false));
}

use std::time::Duration;

use workspace::error::WorkspaceError;
use workspace::execute::{call_outcome, describe, duration_ms, execute_plan, run_op, saved_for_op, ExecuteOptions,
    Executor, JournalStatus, OpOutcome};
use workspace::model::{HostInfo, WindowSnapshot, WorkspaceSnapshot, SNAPSHOT_VERSION};
use workspace::plan::{OperationKind, PlannedOperation, RestoreMode, RestorePlan, WorldState};

#[derive(Default)]
struct Recorder {
    calls: Vec<String>,
    fail_launch: bool,
}

impl Executor for Recorder {
    fn launch_app(&mut self, bundle_id: &str) -> Result<OpOutcome, WorkspaceError> {
        self.calls.push(format!("launch {bundle_id}"));
        if self.fail_launch {
            Err(WorkspaceError::MacOs("no such app".to_string()))
        } else {
            Ok(OpOutcome::success(format!("launched {bundle_id}")))
        }
    }

    fn create_window(&mut self, bundle_id: &str, _saved: &WindowSnapshot, index: usize) -> Result<OpOutcome, WorkspaceError> {
        self.calls.push(format!("create {bundle_id} {index}"));
        Ok(OpOutcome::partial("created".to_string()).with_attempts(3))
    }

    fn reposition(&mut self, pid: i32, window_id: u32, _saved: &WindowSnapshot, index: usize) -> Result<OpOutcome, WorkspaceError> {
        self.calls.push(format!("reposition {pid} {window_id} {index}"));
        Ok(OpOutcome::success("repositioned".to_string()))
    }

    fn restore_chrome_tabs(&mut self, bundle_id: &str, _saved: &WindowSnapshot, index: usize) -> Result<OpOutcome, WorkspaceError> {
        self.calls.push(format!("tabs {bundle_id} {index}"));
        Ok(OpOutcome::success("restored".to_string()))
    }

    fn minimize_window(&mut self, pid: i32, window_id: u32) -> Result<OpOutcome, WorkspaceError> {
        self.calls.push(format!("minimize {pid} {window_id}"));
        Ok(OpOutcome::success("minimized".to_string()))
    }

    fn close_window(&mut self, pid: i32, window_id: u32) -> Result<OpOutcome, WorkspaceError> {
        self.calls.push(format!("close {pid} {window_id}"));
        Ok(OpOutcome::failed("no such window".to_string()))
    }

    fn target_label(&self, index: usize) -> String {
        format!("(frame {index})")
    }
}

fn window(bundle: &str) -> WindowSnapshot {
    WindowSnapshot {
        window_id: 1,
        app_name: "Terminal".to_string(),
        process_name: "Terminal".to_string(),
        bundle_id: Some(bundle.to_string()),
        pid: 1,
        title: Some("main".to_string()),
        display_id: None,
        z_order: Some(0),
        fullscreen: false,
        minimized: false,
        enabled: true,
        browser_tabs: Vec::new(),
    }
}

fn snapshot() -> WorkspaceSnapshot {
    WorkspaceSnapshot {
        version: SNAPSHOT_VERSION,
        name: "exec".to_string(),
        host: HostInfo { hostname: "h".to_string(), os: "macos".to_string(), arch: "aarch64".to_string() },
        windows: vec![window("com.apple.Terminal")],
    }
}

fn op(kind: OperationKind, saved: Option<usize>) -> PlannedOperation {
    PlannedOperation {
        kind,
        saved_window_index: saved,
        app_name: "Terminal".to_string(),
        bundle_id: Some("com.apple.Terminal".to_string()),
        rationale: "because".to_string(),
        match_score: None,
    }
}

fn plan() -> RestorePlan {
    RestorePlan {
        mode: RestoreMode::Destructive,
        operations: vec![
            op(OperationKind::LaunchApp { bundle_id: "com.apple.Terminal".to_string() }, None),
            op(OperationKind::Reposition { live_pid: 200, live_window_id: 7 }, Some(0)),
            op(OperationKind::CreateWindow { bundle_id: "com.apple.Terminal".to_string() }, Some(0)),
            op(OperationKind::CloseConflict { live_pid: 200, live_window_id: 8 }, None),
            op(OperationKind::Skip { reason: "disabled in workspace configuration".to_string() }, Some(0)),
        ],
        unmatched_saved: Vec::new(),
        destructive_ops: 1,
        left_alone_conflicts: 0,
    }
}

#[test]
fn dry_run_does_not_mutate_world() {
    let mut exec = Recorder::default();
    let journal = execute_plan(&snapshot(), &plan(), &mut exec, ExecuteOptions { dry_run: true });
    assert!(exec.calls.is_empty(), "dry-run must not mutate world");
    assert!(journal.entries.iter().all(|e| e.status == JournalStatus::Skipped), "all dry-run entries must be Skipped");
    assert_eq!(journal.entries[0].message, "dry-run: would launch com.apple.Terminal");
    assert_eq!(journal.entries[1].message, "dry-run: would reposition Terminal to (frame 0)");
    assert_eq!(journal.entries[4].message, "dry-run: would skip: disabled in workspace configuration");
    assert!(journal.entries.iter().all(|e| e.attempts == 0));
}

#[test]
fn destructive_mode_executes_close_through_executor() {
    let mut exec = Recorder::default();
    let journal = execute_plan(&snapshot(), &plan(), &mut exec, ExecuteOptions::default());
    assert_eq!(
        exec.calls,
        vec!["launch com.apple.Terminal", "reposition 200 7 0", "create com.apple.Terminal 0", "close 200 8"]
    );
    assert_eq!(journal.snapshot, "exec");
    assert_eq!(journal.entries.len(), 5);
    for (i, e) in journal.entries.iter().enumerate() {
        assert_eq!(e.op_index, i);
    }
    assert_eq!(journal.entries[0].op, "launch");
    assert_eq!(journal.entries[3].op, "close");
    assert_eq!(journal.entries[3].status, JournalStatus::Failed);
    assert_eq!(journal.entries[2].status, JournalStatus::PartialSuccess);
    assert_eq!(journal.entries[2].attempts, 3);
    assert_eq!(journal.entries[4].status, JournalStatus::Skipped);
    assert_eq!(journal.entries[4].message, "disabled in workspace configuration");
    let counts = journal.counts();
    assert_eq!((counts.success, counts.partial, counts.skipped, counts.failed), (2, 1, 1, 1));
}

#[test]
fn executor_errors_become_failed_outcomes() {
    let mut exec = Recorder { fail_launch: true, ..Recorder::default() };
    let o = run_op(&mut exec, &snapshot(), &plan().operations[0]);
    assert_eq!(o.status, JournalStatus::Failed);
    assert_eq!(o.message, "launch failed: macOS API call failed: no such app");
    assert_eq!(o.attempts, 1);
}

#[test]
fn window_operations_need_a_saved_window() {
    let mut exec = Recorder::default();
    let missing = op(OperationKind::CreateWindow { bundle_id: "com.apple.Terminal".to_string() }, None);
    let o = run_op(&mut exec, &snapshot(), &missing);
    assert_eq!(o.status, JournalStatus::Failed);
    assert_eq!(o.message, "create op missing saved index");
    let invalid = op(OperationKind::Reposition { live_pid: 1, live_window_id: 2 }, Some(5));
    let o = run_op(&mut exec, &snapshot(), &invalid);
    assert_eq!(o.message, "reposition op references invalid saved index 5");
    assert!(exec.calls.is_empty());
    assert!(saved_for_op(&snapshot(), &plan().operations[1]).is_ok());
}

#[test]
fn outcome_constructors_set_status_and_attempts() {
    let s = OpOutcome::success("a".to_string());
    assert_eq!((s.status, s.attempts), (JournalStatus::Success, 1));
    let p = OpOutcome::partial("b".to_string());
    assert_eq!((p.status, p.attempts), (JournalStatus::PartialSuccess, 1));
    let k = OpOutcome::skipped("c".to_string());
    assert_eq!((k.status, k.attempts), (JournalStatus::Skipped, 0));
    let f = OpOutcome::failed("d".to_string()).with_attempts(9);
    assert_eq!((f.status, f.attempts, f.message.as_str()), (JournalStatus::Failed, 9, "d"));
    let ok = call_outcome("minimize", Ok(OpOutcome::success("done".to_string())));
    assert_eq!(ok.message, "done");
}

#[test]
fn descriptions_name_the_action() {
    let p = plan();
    assert_eq!(describe(&p.operations[0], ""), "launch com.apple.Terminal");
    assert_eq!(describe(&p.operations[1], "(1,2 3x4)"), "reposition Terminal to (1,2 3x4)");
    assert_eq!(describe(&p.operations[2], ""), "create window for com.apple.Terminal");
    assert_eq!(describe(&p.operations[3], ""), "close conflicting window");
}

#[test]
fn durations_saturate_at_u64_max() {
    assert_eq!(duration_ms(Duration::from_millis(1234)), 1234);
    assert_eq!(duration_ms(Duration::from_micros(999)), 0);
    assert_eq!(duration_ms(Duration::MAX), u64::MAX);
}

#[test]
fn default_observation_is_nothing() {
    let mut exec = Recorder::default();
    let world: Option<WorldState> = exec.observe().unwrap();
    assert!(world.is_none());
}

#[test]
fn journal_records_a_failure_for_a_missing_saved_window() {
    let mut exec = Recorder::default();
    let mut bad = plan();
    bad.operations = vec![
        op(OperationKind::Reposition { live_pid: 200, live_window_id: 7 }, Some(5)),
        op(OperationKind::CreateWindow { bundle_id: "com.apple.Terminal".to_string() }, None),
    ];
    let journal = execute_plan(&snapshot(), &bad, &mut exec, ExecuteOptions::default());
    assert!(exec.calls.is_empty());
    assert_eq!(journal.entries[0].status, JournalStatus::Failed);
    assert_eq!(journal.entries[0].message, "reposition op references invalid saved index 5");
    assert_eq!(journal.entries[0].attempts, 1);
    assert_eq!(journal.entries[1].status, JournalStatus::Failed);
    assert_eq!(journal.entries[1].message, "create op missing saved index");
}

use workspace::error::WorkspaceError;
use workspace::plan::is_dev_mode_protected_bundle;
use workspace::restore::{
    retry_step, set_frame_with_window_ready_retry, window_ready_retry_attempts, ClosurePlacement, RetryStep,
    WINDOW_READY_WAIT_ATTEMPTS,
};

#[test]
fn launched_apps_get_window_ready_retry_budget() {
    assert_eq!(window_ready_retry_attempts(false), 0);
    assert_eq!(window_ready_retry_attempts(true), WINDOW_READY_WAIT_ATTEMPTS);
}

#[test]
fn closed_launched_app_retries_until_window_is_ready() {
    let mut attempts = 0;
    let mut waits = 0;

    let restored = set_frame_with_window_ready_retry(
        &[101],
        true,
        &mut ClosurePlacement::new(
            || vec![202],
            |_| {
                attempts += 1;
                Ok(attempts == 4)
            },
            || waits += 1,
        ),
    )
    .unwrap();

    assert!(restored);
    assert_eq!(attempts, 4);
    assert_eq!(waits, 3);
}

#[test]
fn already_running_app_does_not_retry_after_no_match() {
    let mut attempts = 0;
    let mut waits = 0;

    let restored = set_frame_with_window_ready_retry(
        &[101],
        false,
        &mut ClosurePlacement::new(
            || vec![202],
            |_| {
                attempts += 1;
                Ok(false)
            },
            || waits += 1,
        ),
    )
    .unwrap();

    assert!(!restored);
    assert_eq!(attempts, 1);
    assert_eq!(waits, 0);
}

#[test]
fn dev_mode_protects_editor_bundles() {
    assert!(is_dev_mode_protected_bundle("com.microsoft.VSCode"));
    assert!(is_dev_mode_protected_bundle("com.todesktop.230313mzl4w4u92"));
    assert!(!is_dev_mode_protected_bundle("com.apple.Notes"));
}

#[test]
fn launched_app_gives_up_after_the_retry_budget() {
    let mut attempts = 0;
    let mut waits = 0;
    let mut lookups = 0;
    let restored = set_frame_with_window_ready_retry(
        &[101],
        true,
        &mut ClosurePlacement::new(
            || {
                lookups += 1;
                vec![202]
            },
            |_| {
                attempts += 1;
                Ok(false)
            },
            || waits += 1,
        ),
    )
    .unwrap();
    assert!(!restored);
    assert_eq!(attempts, 1 + WINDOW_READY_WAIT_ATTEMPTS);
    assert_eq!(waits, WINDOW_READY_WAIT_ATTEMPTS);
    assert_eq!(lookups, WINDOW_READY_WAIT_ATTEMPTS);
}

#[test]
fn retries_use_the_freshly_looked_up_processes() {
    let mut seen: Vec<Vec<i32>> = Vec::new();
    let restored = set_frame_with_window_ready_retry(
        &[101],
        true,
        &mut ClosurePlacement::new(
            || vec![202, 303],
            |pids| {
                seen.push(pids.to_vec());
                Ok(seen.len() == 2)
            },
            || {},
        ),
    )
    .unwrap();
    assert!(restored);
    assert_eq!(seen, vec![vec![101], vec![202, 303]]);
}

#[test]
fn placement_errors_stop_the_retries() {
    let mut attempts = 0;
    let result = set_frame_with_window_ready_retry(
        &[101],
        true,
        &mut ClosurePlacement::new(
            || vec![202],
            |_| {
                attempts += 1;
                if attempts == 2 {
                    Err(WorkspaceError::MacOs("boom".to_string()))
                } else {
                    Ok(false)
                }
            },
            || {},
        ),
    );
    assert!(matches!(result, Err(WorkspaceError::MacOs(_))));
    assert_eq!(attempts, 2);
}

#[test]
fn retry_step_follows_the_budget() {
    assert_eq!(retry_step(true, 0, &Ok(false)), RetryStep::Retry);
    assert_eq!(retry_step(true, WINDOW_READY_WAIT_ATTEMPTS - 1, &Ok(false)), RetryStep::Retry);
    assert_eq!(retry_step(true, WINDOW_READY_WAIT_ATTEMPTS, &Ok(false)), RetryStep::Stop);
    assert_eq!(retry_step(false, 0, &Ok(false)), RetryStep::Stop);
    assert_eq!(retry_step(true, 0, &Ok(true)), RetryStep::Stop);
    assert_eq!(retry_step(true, 0, &Err(WorkspaceError::MacOs("boom".to_string()))), RetryStep::Stop);
}

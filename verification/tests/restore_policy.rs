use workspace::app_support::known_apps;
use workspace::model::{HostInfo, WindowSnapshot, WorkspaceSnapshot, SNAPSHOT_VERSION};
use workspace::plan::RestoreMode;
use workspace::restore::{chrome_results, group_results, group_route, launch_blocked, restore_jobs, restore_workspace,
    GroupPlacement, GroupRoute, RestoreOptions, RestoreStatus};

fn window(bundle_id: Option<&str>, app_name: &str, z_order: u32) -> WindowSnapshot {
    WindowSnapshot {
        window_id: z_order + 100,
        app_name: app_name.to_string(),
        process_name: app_name.to_string(),
        bundle_id: bundle_id.map(str::to_string),
        pid: z_order as i32 + 1000,
        title: Some(format!("{app_name} window")),
        display_id: Some("cgdisplay-1".to_string()),
        z_order: Some(z_order),
        fullscreen: false,
        minimized: false,
        enabled: true,
        browser_tabs: Vec::new(),
    }
}

fn snapshot(windows: Vec<WindowSnapshot>) -> WorkspaceSnapshot {
    WorkspaceSnapshot {
        version: SNAPSHOT_VERSION,
        name: "policy".to_string(),
        host: HostInfo {
            hostname: "macbook-pro".to_string(),
            os: "macos".to_string(),
            arch: "aarch64".to_string(),
        },
        windows,
    }
}

fn dry_run() -> RestoreOptions {
    RestoreOptions { mode: Default::default(), dry_run: true, dev_mode: false }
}

#[test]
fn dry_run_plans_supported_windows_and_skips_unknown_windows() {
    let report = restore_workspace(
        &snapshot(vec![
            window(Some("com.microsoft.VSCode"), "Code", 0),
            window(Some("com.google.Chrome"), "Google Chrome", 1),
            window(Some("com.apple.Terminal"), "Terminal", 2),
            window(None, "Unknown", 3),
        ]),
        dry_run(),
        &Vec::new(),
    );

    assert_eq!(report.restored, 0);
    assert_eq!(report.skipped, 1);
    assert_eq!(report.failed, 0);
    assert_eq!(report.actions.len(), 4);
    assert_eq!(report.actions[0].status, RestoreStatus::Planned);
    assert_eq!(report.actions[0].bundle_id.as_deref(), Some("com.microsoft.VSCode"));
    assert_eq!(report.actions[1].status, RestoreStatus::Planned);
    assert_eq!(report.actions[2].status, RestoreStatus::Planned);
    assert_eq!(report.actions[3].status, RestoreStatus::Skipped);
    assert!(report.actions[3].message.as_deref().unwrap_or_default().contains("without bundle identifiers"));
}

#[test]
fn dry_run_plans_every_known_app() {
    let apps = known_apps();
    let windows = apps.iter().enumerate().map(|(index, app)| window(Some(app.bundle_id), app.name, index as u32)).collect();

    let report = restore_workspace(&snapshot(windows), dry_run(), &Vec::new());

    assert_eq!(report.restored, 0);
    assert_eq!(report.skipped, 0);
    assert_eq!(report.failed, 0);
    assert_eq!(report.actions.len(), apps.len());
    for (action, app) in report.actions.iter().zip(&apps) {
        assert_eq!(action.status, RestoreStatus::Planned, "{}", app.bundle_id);
        assert_eq!(action.bundle_id.as_deref(), Some(app.bundle_id));
    }
}

#[test]
fn dry_run_plans_multiple_windows_for_every_known_app() {
    let windows = known_apps()
        .iter()
        .enumerate()
        .flat_map(|(index, app)| {
            [
                window(Some(app.bundle_id), app.name, (index * 2) as u32),
                window(Some(app.bundle_id), app.name, (index * 2 + 1) as u32),
            ]
        })
        .collect::<Vec<_>>();
    let expected_count = windows.len();

    let report = restore_workspace(&snapshot(windows), dry_run(), &Vec::new());

    assert_eq!(report.restored, 0);
    assert_eq!(report.skipped, 0);
    assert_eq!(report.failed, 0);
    assert_eq!(report.actions.len(), expected_count);
    assert!(report.actions.iter().all(|action| action.status == RestoreStatus::Planned));
}

#[test]
fn fullscreen_supported_windows_are_still_skipped() {
    let mut vscode = window(Some("com.microsoft.VSCode"), "Code", 0);
    vscode.fullscreen = true;

    let report = restore_workspace(&snapshot(vec![vscode]), dry_run(), &Vec::new());

    assert_eq!(report.actions[0].status, RestoreStatus::Skipped);
    assert!(report.actions[0].message.as_deref().unwrap_or_default().contains("fullscreen"));
}

#[test]
fn disabled_windows_are_skipped_before_restore() {
    let mut vscode = window(Some("com.microsoft.VSCode"), "Code", 0);
    vscode.enabled = false;

    let report = restore_workspace(&snapshot(vec![vscode]), dry_run(), &Vec::new());

    assert_eq!(report.actions[0].status, RestoreStatus::Skipped);
    assert!(report.actions[0].message.as_deref().unwrap_or_default().contains("disabled"));
}

#[test]
fn unknown_apps_are_skipped_before_restore() {
    let mut unknown = window(Some("dev.example.Unknown"), "Unknown", 0);
    unknown.app_name = "Unknown".to_string();
    let options = RestoreOptions { dry_run: true, dev_mode: false, mode: RestoreMode::Safe };

    let report = restore_workspace(&snapshot(vec![unknown]), options, &Vec::new());

    assert_eq!(report.restored, 0);
    assert_eq!(report.skipped, 1);
    assert_eq!(report.actions[0].status, RestoreStatus::Skipped);
    assert!(report.actions[0]
        .message
        .as_deref()
        .unwrap_or_default()
        .contains("not in the supported restore allowlist"));
}

#[test]
fn placement_outcomes_are_reported_for_their_windows() {
    let snap = snapshot(vec![
        window(Some("com.microsoft.VSCode"), "Code", 0),
        window(None, "Unknown", 1),
        window(Some("com.apple.Terminal"), "Terminal", 2),
        window(Some("com.apple.finder"), "Finder", 3),
    ]);
    let options = RestoreOptions::default();
    assert_eq!(restore_jobs(&snap, options), vec![0, 2, 3]);
    assert!(restore_jobs(&snap, dry_run()).is_empty());

    let results = vec![Ok(()), Err("could not find a matching live window for Terminal".to_string())];
    let report = restore_workspace(&snap, options, &results);

    assert!(!report.dry_run);
    assert_eq!(report.snapshot, "policy");
    assert_eq!((report.restored, report.skipped, report.failed), (1, 1, 2));
    assert_eq!(report.actions[0].status, RestoreStatus::Restored);
    assert_eq!(report.actions[0].message, None);
    assert_eq!(report.actions[1].status, RestoreStatus::Skipped);
    assert_eq!(report.actions[2].status, RestoreStatus::Failed);
    assert_eq!(
        report.actions[2].message.as_deref(),
        Some("could not find a matching live window for Terminal")
    );
    assert_eq!(report.actions[3].status, RestoreStatus::Failed);
    assert_eq!(report.actions[3].message.as_deref(), Some("restore did not produce a result"));
    assert_eq!(report.actions[3].title.as_deref(), Some("Finder window"));
    assert_eq!(report.actions[3].display_id.as_deref(), Some("cgdisplay-1"));
}

#[test]
fn groups_are_routed_by_application_and_size() {
    assert_eq!(group_route(Some("com.google.Chrome"), 0), GroupRoute::Nothing);
    assert_eq!(group_route(Some("com.google.Chrome"), 1), GroupRoute::Browser);
    assert_eq!(group_route(Some("com.google.Chrome"), 3), GroupRoute::Browser);
    assert_eq!(group_route(Some("com.brave.Browser"), 2), GroupRoute::Browser);
    assert_eq!(group_route(Some("com.apple.Terminal"), 1), GroupRoute::Single);
    assert_eq!(group_route(None, 1), GroupRoute::Single);
    assert_eq!(group_route(Some("com.apple.Terminal"), 2), GroupRoute::Group);
}

#[test]
fn dev_mode_blocks_launching_protected_editors_only() {
    assert!(launch_blocked(true, Some("com.microsoft.VSCode"), false));
    assert!(launch_blocked(true, Some("com.todesktop.230313mzl4w4u92"), false));
    assert!(!launch_blocked(true, Some("com.microsoft.VSCode"), true));
    assert!(!launch_blocked(false, Some("com.microsoft.VSCode"), false));
    assert!(!launch_blocked(true, Some("com.google.Chrome"), false));
    assert!(!launch_blocked(true, None, false));
}

#[test]
fn group_placements_map_to_window_outcomes() {
    let placed = group_results("Terminal", 2, &GroupPlacement::Placed(vec![true, false]));
    assert_eq!(placed, vec![Ok(()), Err("could not find a distinct matching live window for Terminal".to_string())]);
    let missing = group_results("Terminal", 2, &GroupPlacement::NotFound);
    assert_eq!(missing, vec![Err("could not find matching live windows for Terminal".to_string()); 2]);
    let failed = group_results("Terminal", 3, &GroupPlacement::Failed("AX error".to_string()));
    assert_eq!(failed, vec![Err("AX error".to_string()); 3]);
}

#[test]
fn chrome_script_outcomes_apply_to_every_window() {
    assert_eq!(chrome_results(2, false, &Ok(true)), vec![Ok(()), Ok(())]);
    assert_eq!(chrome_results(1, false, &Ok(false)), vec![Err("Chrome restore script did not run".to_string())]);
    assert_eq!(chrome_results(1, false, &Err("osascript failed".to_string())), vec![Err("osascript failed".to_string())]);
    assert_eq!(
        chrome_results(2, true, &Ok(true)),
        vec![Err("Chrome is not running and --dev-mode is set; skipping launch".to_string()); 2]
    );
}

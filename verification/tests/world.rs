use workspace::model::{HostInfo, WindowSnapshot, WorkspaceSnapshot, SNAPSHOT_VERSION};
use workspace::plan::{LiveWindow, RunningApp};
use workspace::world::{build_world, doctor, register_pid, world_from_observation, z_order_replay_order,
    AppProcesses, AxWindowState, EnvironmentFacts, ListedWindow, ProcessWindows};

fn window(app_name: &str, bundle: &str, z: Option<u32>) -> WindowSnapshot {
    WindowSnapshot {
        window_id: 1,
        app_name: app_name.to_string(),
        process_name: app_name.to_string(),
        bundle_id: Some(bundle.to_string()),
        pid: 42,
        title: Some("main.rs".to_string()),
        display_id: Some("a".to_string()),
        z_order: z,
        fullscreen: false,
        minimized: false,
        enabled: true,
        browser_tabs: Vec::new(),
    }
}

fn snapshot(windows: Vec<WindowSnapshot>) -> WorkspaceSnapshot {
    WorkspaceSnapshot {
        version: SNAPSHOT_VERSION,
        name: "w".to_string(),
        host: HostInfo { hostname: "h".to_string(), os: "macos".to_string(), arch: "aarch64".to_string() },
        windows,
    }
}

#[test]
fn world_z_order_replay_sorts_back_to_front() {
    let front = window("front", "com.microsoft.VSCode", Some(0));
    let back = window("back", "com.microsoft.VSCode", Some(10));
    let snap = snapshot(vec![front, back]);

    let order = z_order_replay_order(&snap);

    assert_eq!(snap.windows[order[0]].app_name, "back");
    assert_eq!(snap.windows[order[1]].app_name, "front");
}

#[test]
fn replay_skips_windows_restore_never_touches_and_puts_unknown_order_first() {
    let mut disabled = window("disabled", "com.apple.Terminal", Some(20));
    disabled.enabled = false;
    let unknown = window("unknown", "dev.example.Unknown", Some(30));
    let no_order = window("no-order", "com.apple.Notes", None);
    let front = window("front", "com.apple.Notes", Some(1));
    let also_front = window("also-front", "com.apple.Notes", Some(1));
    let snap = snapshot(vec![disabled, unknown, front, no_order, also_front]);
    let order = z_order_replay_order(&snap);
    let names: Vec<_> = order.iter().map(|&i| snap.windows[i].app_name.as_str()).collect();
    assert_eq!(names, vec!["no-order", "front", "also-front"]);
}

#[test]
fn doctor_warns_about_each_failed_check() {
    let facts = EnvironmentFacts {
        data_dir: "/data".to_string(),
        data_dir_writable: false,
        accessibility_trusted: false,
        display_count: 0,
        visible_windows: 3,
        titled_windows: 0,
    };
    let report = doctor(&facts);
    assert_eq!(report.warnings.len(), 4);
    assert_eq!(report.warnings[0], "data dir /data is not writable");
    assert!(report.warnings[1].starts_with("Accessibility permission is not granted"));
    assert_eq!(report.warnings[2], "no displays detected");
    assert!(report.warnings[3].contains("Screen Recording"));
    assert_eq!(report.supported_bundles.len(), 16);
    assert_eq!(report.supported_bundles[0], "com.microsoft.VSCode");

    let healthy = EnvironmentFacts {
        data_dir: "/data".to_string(),
        data_dir_writable: true,
        accessibility_trusted: true,
        display_count: 2,
        visible_windows: 3,
        titled_windows: 1,
    };
    let report = doctor(&healthy);
    assert!(report.warnings.is_empty());
    assert_eq!(report.display_count, 2);
    assert!(report.data_dir_writable && report.accessibility_trusted);
}

#[test]
fn processes_are_registered_once_per_bundle() {
    let mut running: Vec<RunningApp> = Vec::new();
    register_pid(&mut running, "a", 1);
    register_pid(&mut running, "b", 2);
    register_pid(&mut running, "a", 3);
    register_pid(&mut running, "a", 1);
    assert_eq!(running.len(), 2);
    assert_eq!(running[0].pids, vec![1, 3]);
    assert_eq!(running[1].pids, vec![2]);
}

fn live(bundle: Option<&str>, pid: i32, id: u32) -> LiveWindow {
    LiveWindow {
        bundle_id: bundle.map(str::to_string),
        app_name: "App".to_string(),
        pid,
        window_id: id,
        title: None,
        minimized: false,
    }
}

#[test]
fn observed_world_adds_minimized_windows_with_synthetic_ids() {
    let captured = vec![live(Some("com.apple.Notes"), 10, 5), live(None, 11, 6), live(Some("com.apple.Notes"), 10, 7)];
    let apps = vec![AppProcesses {
        bundle_id: "com.apple.Notes".to_string(),
        name: "Notes".to_string(),
        processes: vec![
            ProcessWindows {
                pid: 12,
                windows: vec![
                    AxWindowState { title: Some("hidden".to_string()), minimized: true },
                    AxWindowState { title: Some("shown".to_string()), minimized: false },
                    AxWindowState { title: None, minimized: true },
                ],
            },
            ProcessWindows { pid: 10, windows: Vec::new() },
        ],
    }];
    let world = build_world(&captured, &apps);
    assert_eq!(world.windows.len(), 5);
    assert_eq!(world.windows[..3], captured[..]);
    assert_eq!(world.windows[3].window_id, u32::MAX);
    assert_eq!(world.windows[3].title.as_deref(), Some("hidden"));
    assert!(world.windows[3].minimized);
    assert_eq!(world.windows[3].app_name, "Notes");
    assert_eq!(world.windows[4].window_id, u32::MAX - 1);
    assert_eq!(world.windows[4].pid, 12);
    assert_eq!(world.pids_for("com.apple.Notes"), vec![10, 12]);
    assert!(world.pids_for("pid:11").is_empty());
    for window in &world.windows {
        if let Some(bundle) = &window.bundle_id {
            assert!(world.pids_for(bundle).contains(&window.pid));
        }
    }
}

fn listed(window_id: u32, owner: &str, bundle: Option<&str>, name: Option<&str>) -> ListedWindow {
    ListedWindow {
        window_id,
        pid: 10,
        owner_name: owner.to_string(),
        title: Some(format!("window {window_id}")),
        bundle_id: bundle.map(str::to_string),
        localized_name: name.map(str::to_string),
        is_onscreen: true,
        layer: 0,
        visible: true,
        reasonable_size: true,
    }
}

#[test]
fn observed_world_keeps_only_captured_listed_windows() {
    let mut small = listed(3, "Notes", Some("com.apple.Notes"), Some("Notes"));
    small.reasonable_size = false;
    let mut menu = listed(4, "Notes", Some("com.apple.Notes"), Some("Notes"));
    menu.layer = 25;
    let mut hidden = listed(5, "Notes", Some("com.apple.Notes"), Some("Notes"));
    hidden.visible = false;
    let mut offscreen = listed(6, "Notes", Some("com.apple.Notes"), Some("Notes"));
    offscreen.is_onscreen = false;
    let windows = vec![
        listed(1, "Notes", Some("com.apple.Notes"), Some("Notes")),
        listed(2, "dock", None, None),
        small,
        menu,
        hidden,
        offscreen,
        listed(7, "helper", None, None),
    ];
    let apps = vec![AppProcesses {
        bundle_id: "com.apple.Notes".to_string(),
        name: "Notes".to_string(),
        processes: vec![ProcessWindows {
            pid: 10,
            windows: vec![AxWindowState { title: Some("gone".to_string()), minimized: true }],
        }],
    }];
    let (world, kept) = world_from_observation(&windows, &apps);
    assert_eq!(kept, vec![0, 6]);
    assert_eq!(world.windows.len(), 3);
    assert_eq!(world.windows[0].window_id, 1);
    assert_eq!(world.windows[0].app_name, "Notes");
    assert!(!world.windows[0].minimized);
    assert_eq!(world.windows[1].window_id, 7);
    assert_eq!(world.windows[1].app_name, "helper");
    assert_eq!(world.windows[1].bundle_id, None);
    assert_eq!(world.windows[2].window_id, u32::MAX);
    assert!(world.windows[2].minimized);
    assert_eq!(world.pids_for("com.apple.Notes"), vec![10]);
}

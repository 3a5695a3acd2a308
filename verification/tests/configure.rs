use workspace::configure::{apply_index_changes, apply_selection, configure_snapshot, report, tab_suffix,
    ConfigureOutcome, ConfigureRequest};
use workspace::error::WorkspaceError;
use workspace::model::{BrowserTab, HostInfo, WindowSnapshot, WorkspaceSnapshot, SNAPSHOT_VERSION};

fn window(app_name: &str) -> WindowSnapshot {
    WindowSnapshot {
        window_id: 1,
        app_name: app_name.to_string(),
        process_name: app_name.to_string(),
        bundle_id: Some(format!("dev.example.{app_name}")),
        pid: 42,
        title: Some("main".to_string()),
        display_id: None,
        z_order: Some(0),
        fullscreen: false,
        minimized: false,
        enabled: true,
        browser_tabs: Vec::new(),
    }
}

fn snapshot() -> WorkspaceSnapshot {
    WorkspaceSnapshot {
        version: SNAPSHOT_VERSION,
        name: "test".to_string(),
        host: HostInfo { hostname: "host".to_string(), os: "macos".to_string(), arch: "aarch64".to_string() },
        windows: vec![window("Code"), window("Chrome"), window("Notes")],
    }
}

#[test]
fn apply_selection_disables_unselected_windows() {
    let mut snapshot = snapshot();

    apply_selection(&mut snapshot, &[0, 2]);

    assert!(snapshot.windows[0].enabled);
    assert!(!snapshot.windows[1].enabled);
    assert!(snapshot.windows[2].enabled);
    let report = report(&snapshot);
    assert_eq!(report.enabled, 2);
    assert_eq!(report.disabled, 1);
}

#[test]
fn apply_index_changes_enables_and_disables_requested_windows() {
    let mut snapshot = snapshot();
    snapshot.windows[0].enabled = false;

    apply_index_changes(&mut snapshot, &[0], &[1]).unwrap();

    assert!(snapshot.windows[0].enabled);
    assert!(!snapshot.windows[1].enabled);
    assert!(snapshot.windows[2].enabled);
}

#[test]
fn apply_index_changes_rejects_out_of_range_indexes() {
    let mut snapshot = snapshot();

    let error = apply_index_changes(&mut snapshot, &[], &[99]).unwrap_err();

    assert!(error.message().contains("out of range"));
}

#[test]
fn out_of_range_index_names_the_first_bad_index_and_changes_nothing() {
    let mut snapshot = snapshot();
    let before = snapshot.clone();
    let error = apply_index_changes(&mut snapshot, &[7, 0], &[9]).unwrap_err();
    match &error {
        WorkspaceError::Interaction(message) => assert_eq!(
            message,
            "window index 7 is out of range; run 'workspace configure test --list'"
        ),
        other => panic!("unexpected error {other:?}"),
    }
    assert_eq!(snapshot, before);
}

#[test]
fn disabling_wins_over_enabling_the_same_window() {
    let mut snapshot = snapshot();
    apply_index_changes(&mut snapshot, &[1], &[1]).unwrap();
    assert!(!snapshot.windows[1].enabled);
}

#[test]
fn configure_request_without_indices_asks_for_a_selection() {
    let mut snapshot = snapshot();
    let list = ConfigureRequest { list: true, enable: vec![0], disable: vec![] };
    assert_eq!(configure_snapshot(&mut snapshot, &list).unwrap(), ConfigureOutcome::Unchanged);
    assert!(snapshot.windows.iter().all(|w| w.enabled));

    let explicit = ConfigureRequest { list: false, enable: vec![], disable: vec![2] };
    assert!(explicit.has_explicit_changes());
    assert_eq!(configure_snapshot(&mut snapshot, &explicit).unwrap(), ConfigureOutcome::Changed);
    assert!(!snapshot.windows[2].enabled);

    let interactive = ConfigureRequest::default();
    assert!(!interactive.has_explicit_changes());
    assert_eq!(configure_snapshot(&mut snapshot, &interactive).unwrap(), ConfigureOutcome::NeedsSelection);

    let mut empty = snapshot.clone();
    empty.windows.clear();
    assert_eq!(configure_snapshot(&mut empty, &interactive).unwrap(), ConfigureOutcome::Unchanged);
}

#[test]
fn report_lists_every_window_with_its_flag() {
    let mut snapshot = snapshot();
    snapshot.windows[1].enabled = false;
    let report = report(&snapshot);
    assert_eq!(report.snapshot, "test");
    assert_eq!(report.windows.len(), 3);
    assert_eq!(report.windows[1].index, 1);
    assert!(!report.windows[1].enabled);
    assert_eq!(report.windows[1].app_name, "Chrome");
    assert_eq!(report.windows[1].title.as_deref(), Some("main"));
    assert_eq!(report.windows[1].bundle_id.as_deref(), Some("dev.example.Chrome"));
    assert_eq!((report.enabled, report.disabled), (2, 1));
}

#[test]
fn tab_suffix_counts_tabs() {
    assert_eq!(tab_suffix(0), "");
    assert_eq!(tab_suffix(1), "  1 tab");
    assert_eq!(tab_suffix(12), "  12 tabs");
    let tab = BrowserTab { title: None, url: "https://example.com".to_string(), active: true };
    assert_eq!(tab_suffix(vec![tab.clone(), tab].len()), "  2 tabs");
}

use workspace::model::{HostInfo, WindowSnapshot, WorkspaceSnapshot, SNAPSHOT_VERSION};
use workspace::plan::{LiveWindow, MatchScore, WorldState, MIN_ACCEPT_BITS};
use workspace::verify::verify;

fn snapshot(windows: Vec<WindowSnapshot>) -> WorkspaceSnapshot {
    WorkspaceSnapshot {
        version: SNAPSHOT_VERSION,
        name: "verify".to_string(),
        host: HostInfo { hostname: "host".to_string(), os: "macos".to_string(), arch: "aarch64".to_string() },
        windows,
    }
}

fn saved_window(title: &str, bundle: &str) -> WindowSnapshot {
    WindowSnapshot {
        window_id: 1,
        app_name: bundle.to_string(),
        process_name: bundle.to_string(),
        bundle_id: Some(bundle.to_string()),
        pid: 1,
        title: Some(title.to_string()),
        display_id: None,
        z_order: Some(0),
        fullscreen: false,
        minimized: false,
        enabled: true,
        browser_tabs: Vec::new(),
    }
}

fn live_window(title: &str, bundle: &str, id: u32) -> LiveWindow {
    LiveWindow {
        bundle_id: Some(bundle.to_string()),
        app_name: bundle.to_string(),
        pid: 200,
        window_id: id,
        title: Some(title.to_string()),
        minimized: false,
    }
}

fn world(windows: Vec<LiveWindow>) -> WorldState {
    WorldState { windows, running_pids: Vec::new() }
}

fn score(final_score: f32) -> MatchScore {
    MatchScore {
        title_similarity: 1.0f32.to_bits(),
        geometry_similarity: 1.0f32.to_bits(),
        bundle_match: true,
        title_evidence: true,
        final_score: final_score.to_bits(),
    }
}

#[test]
fn fully_matched_workspace_reports_100_percent_accuracy() {
    let bundle = "com.microsoft.VSCode";
    let snap = snapshot(vec![saved_window("main", bundle)]);
    let world = world(vec![live_window("main", bundle, 1)]);
    let report = verify(&snap, &world, &vec![vec![score(1.0)]]);

    assert_eq!(report.matched, 1);
    assert_eq!(report.unmatched, 0);
    assert_eq!(report.windows[0].live_index, Some(0));
}

#[test]
fn unmatched_window_lowers_accuracy() {
    let bundle = "com.microsoft.VSCode";
    let snap = snapshot(vec![saved_window("main", bundle)]);
    let report = verify(&snap, &world(Vec::new()), &vec![Vec::new()]);

    assert_eq!(report.matched, 0);
    assert_eq!(report.unmatched, 1);
}

#[test]
fn unsupported_and_disabled_windows_do_not_count_against_accuracy() {
    let mut windows = vec![saved_window("main", "com.microsoft.VSCode"), saved_window("dash", "dev.example.Unknown")];
    let mut disabled = saved_window("off", "com.apple.Terminal");
    disabled.enabled = false;
    windows.push(disabled);
    let snap = snapshot(windows);

    let report = verify(
        &snap,
        &world(vec![live_window("main", "com.microsoft.VSCode", 1)]),
        &vec![vec![score(1.0)], vec![score(0.05)], vec![score(0.05)]],
    );

    assert_eq!(report.total, 3);
    assert_eq!(report.skipped, 2);
    assert_eq!(report.matched, 1);
    assert_eq!(report.unmatched, 0);
    assert!(report.windows[1].skipped_reason.is_some());
    assert!(report.windows[2].skipped_reason.is_some());
}

#[test]
fn each_live_window_is_attributed_once() {
    let bundle = "com.microsoft.VSCode";
    let snap = snapshot(vec![saved_window("a", bundle), saved_window("b", bundle)]);
    let report = verify(&snap, &world(vec![live_window("a", bundle, 1)]), &vec![vec![score(0.9)], vec![score(0.95)]]);
    assert_eq!(report.matched, 1);
    assert_eq!(report.unmatched, 1);
    assert_eq!(report.windows[0].live_index, Some(0));
    assert_eq!(report.windows[1].live_index, None);
}

#[test]
fn best_scoring_live_window_wins_and_low_scores_never_match() {
    let bundle = "com.microsoft.VSCode";
    let snap = snapshot(vec![saved_window("a", bundle)]);
    let live = vec![live_window("x", bundle, 1), live_window("y", bundle, 2), live_window("z", bundle, 3)];
    let report = verify(&snap, &world(live.clone()), &vec![vec![score(0.4), score(0.8), score(0.8)]]);
    assert_eq!(report.windows[0].live_index, Some(1));
    assert_eq!(report.windows[0].match_score.unwrap().final_score, 0.8f32.to_bits());

    let below = f32::from_bits(MIN_ACCEPT_BITS - 1);
    let report = verify(&snap, &world(live), &vec![vec![score(below), score(0.1), score(0.0)]]);
    assert_eq!(report.matched, 0);
}

#[test]
fn other_bundles_are_never_attributed() {
    let snap = snapshot(vec![saved_window("a", "com.microsoft.VSCode")]);
    let report = verify(&snap, &world(vec![live_window("a", "com.apple.Terminal", 1)]), &vec![vec![score(1.0)]]);
    assert_eq!(report.matched, 0);
    assert_eq!(report.unmatched, 1);
}

#[test]
fn verify_rejects_matches_the_planner_rejects() {
    let bundle = "com.google.Chrome";
    let mut saved = saved_window("ignored", bundle);
    saved.title = None;
    let mut live = live_window("ignored", bundle, 9);
    live.title = None;
    // No titles to compare and geometry far from near-exact: above the
    // floor, but not acceptable to the planner.
    let weak = MatchScore {
        title_similarity: 0.5f32.to_bits(),
        geometry_similarity: 0.5f32.to_bits(),
        bundle_match: true,
        title_evidence: false,
        final_score: 0.64f32.to_bits(),
    };
    assert!(weak.final_score >= MIN_ACCEPT_BITS && !weak.is_acceptable());
    let report = verify(&snapshot(vec![saved]), &world(vec![live]), &vec![vec![weak]]);
    assert_eq!(report.matched, 0);
    assert_eq!(report.unmatched, 1);
}

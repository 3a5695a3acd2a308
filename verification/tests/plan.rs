use workspace::model::{BrowserTab, HostInfo, WindowSnapshot, WorkspaceSnapshot, SNAPSHOT_VERSION};
use workspace::plan::{plan_restore, LiveWindow, MatchScore, OperationKind, PlanOptions, RestoreMode, RunningApp,
    WorldState};
use workspace::title::{compare_titles, TitleComparison};

#[derive(Debug, Clone, Copy)]
struct Frame {
    x: f64,
    y: f64,
    width: f64,
    height: f64,
}

fn frame(x: f64, y: f64, width: f64, height: f64) -> Frame {
    Frame { x, y, width, height }
}

fn title_similarity(left: Option<&str>, right: Option<&str>) -> f32 {
    match compare_titles(left, right) {
        TitleComparison::Identical => 1.0,
        TitleComparison::SameWhenNormalized => 0.95,
        TitleComparison::NormalizedBlank => 0.3,
        TitleComparison::Contained => 0.7,
        TitleComparison::WordOverlap { shared, total } => shared as f32 / total as f32,
        TitleComparison::BothMissing => 0.5,
        TitleComparison::OneMissing => 0.3,
    }
}

fn geometry_similarity(left: Frame, right: Frame) -> f32 {
    let center_left = (left.x + left.width / 2.0, left.y + left.height / 2.0);
    let center_right = (right.x + right.width / 2.0, right.y + right.height / 2.0);
    let dx = (center_left.0 - center_right.0).abs();
    let dy = (center_left.1 - center_right.1).abs();
    let distance = (dx * dx + dy * dy).sqrt();
    let position_score = (1.0 - (distance / 2000.0)).clamp(0.0, 1.0) as f32;
    let size_left = (left.width.max(1.0), left.height.max(1.0));
    let size_right = (right.width.max(1.0), right.height.max(1.0));
    let width_ratio = (size_left.0.min(size_right.0) / size_left.0.max(size_right.0)) as f32;
    let height_ratio = (size_left.1.min(size_right.1) / size_left.1.max(size_right.1)) as f32;
    let size_score = (width_ratio + height_ratio) / 2.0;
    0.5 * position_score + 0.5 * size_score
}

struct Saved {
    window: WindowSnapshot,
    frame: Frame,
}

struct Live {
    window: LiveWindow,
    frame: Frame,
}

fn score(saved: &Saved, live: &Live) -> MatchScore {
    let bundle_match = match (&live.window.bundle_id, &saved.window.bundle_id) {
        (Some(l), Some(r)) => l == r,
        _ => false,
    };
    let title_evidence = saved.window.title.is_some() && live.window.title.is_some();
    let title = title_similarity(saved.window.title.as_deref(), live.window.title.as_deref());
    let geometry = geometry_similarity(saved.frame, live.frame);
    let factor = if bundle_match { 1.0 } else { 0.10 };
    let final_score: f32 = (0.55 * title + 0.45 * geometry) * factor;
    MatchScore {
        title_similarity: title.to_bits(),
        geometry_similarity: geometry.to_bits(),
        bundle_match,
        title_evidence,
        final_score: final_score.to_bits(),
    }
}

fn saved(title: &str, frame: Frame, bundle: &str) -> Saved {
    Saved {
        window: WindowSnapshot {
            window_id: 1,
            app_name: bundle.to_string(),
            process_name: bundle.to_string(),
            bundle_id: Some(bundle.to_string()),
            pid: 100,
            title: Some(title.to_string()),
            display_id: None,
            z_order: Some(0),
            fullscreen: false,
            minimized: false,
            enabled: true,
            browser_tabs: Vec::new(),
        },
        frame,
    }
}

fn live(title: &str, frame: Frame, bundle: &str, window_id: u32) -> Live {
    Live {
        window: LiveWindow {
            bundle_id: Some(bundle.to_string()),
            app_name: bundle.to_string(),
            pid: 200,
            window_id,
            title: Some(title.to_string()),
            minimized: false,
        },
        frame,
    }
}

struct Case {
    snapshot: WorkspaceSnapshot,
    world: WorldState,
    scores: Vec<Vec<MatchScore>>,
}

fn case(saved: Vec<Saved>, live: Vec<Live>, running: &[&str]) -> Case {
    let scores = saved.iter().map(|s| live.iter().map(|l| score(s, l)).collect()).collect();
    let snapshot = WorkspaceSnapshot {
        version: SNAPSHOT_VERSION,
        name: "test".to_string(),
        host: HostInfo { hostname: "host".to_string(), os: "macos".to_string(), arch: "aarch64".to_string() },
        windows: saved.into_iter().map(|s| s.window).collect(),
    };
    let world = WorldState {
        windows: live.into_iter().map(|l| l.window).collect(),
        running_pids: running
            .iter()
            .map(|bundle| RunningApp { bundle_id: bundle.to_string(), pids: vec![200] })
            .collect(),
    };
    Case { snapshot, world, scores }
}

fn plan(c: &Case, options: PlanOptions) -> workspace::plan::RestorePlan {
    plan_restore(&c.snapshot, &c.world, options, &c.scores)
}

#[test]
fn launches_missing_app_once_per_bundle() {
    let bundle = "com.microsoft.VSCode";
    let f = frame(0.0, 0.0, 800.0, 600.0);
    let c = case(vec![saved("a", f, bundle), saved("b", f, bundle)], Vec::new(), &[]);

    let plan = plan(&c, PlanOptions::default());

    let launches = plan.operations.iter().filter(|op| matches!(op.kind, OperationKind::LaunchApp { .. })).count();
    assert_eq!(launches, 1);
    let creates = plan.operations.iter().filter(|op| matches!(op.kind, OperationKind::CreateWindow { .. })).count();
    assert_eq!(creates, 2);
}

#[test]
fn already_open_window_is_reused_instead_of_created() {
    let bundle = "com.microsoft.VSCode";
    let f = frame(0.0, 0.0, 800.0, 600.0);
    let c = case(vec![saved("main.rs", f, bundle)], vec![live("main.rs", f, bundle, 42)], &[bundle]);

    let plan = plan(&c, PlanOptions::default());

    assert_eq!(plan.operations.len(), 1);
    match &plan.operations[0].kind {
        OperationKind::Reposition { live_window_id, .. } => assert_eq!(*live_window_id, 42),
        other => panic!("expected reposition, got {other:?}"),
    }
    let score = plan.operations[0].match_score.unwrap();
    assert!(score.bundle_match);
    assert!(f32::from_bits(score.final_score) >= 0.9);
}

#[test]
fn duplicate_titles_get_distinct_live_windows() {
    let bundle = "com.microsoft.VSCode";
    let left = frame(0.0, 0.0, 800.0, 600.0);
    let right = frame(900.0, 0.0, 800.0, 600.0);
    let c = case(
        vec![saved("Docs", left, bundle), saved("Docs", right, bundle)],
        vec![live("Docs", right, bundle, 1), live("Docs", left, bundle, 2)],
        &[bundle],
    );

    let plan = plan(&c, PlanOptions::default());

    let repositioned: Vec<u32> = plan
        .operations
        .iter()
        .filter_map(|op| match &op.kind {
            OperationKind::Reposition { live_window_id, .. } => Some(*live_window_id),
            _ => None,
        })
        .collect();
    assert_eq!(repositioned.len(), 2);
    assert_ne!(repositioned[0], repositioned[1]);
}

#[test]
fn unsupported_app_is_skipped_with_reason() {
    let f = frame(0.0, 0.0, 500.0, 400.0);
    let c = case(vec![saved("x", f, "dev.example.Unknown")], Vec::new(), &[]);

    let plan = plan(&c, PlanOptions::default());

    assert_eq!(plan.operations.len(), 1);
    assert!(matches!(plan.operations[0].kind, OperationKind::Skip { .. }));
}

#[test]
fn fullscreen_windows_are_skipped_even_when_supported() {
    let f = frame(0.0, 0.0, 500.0, 400.0);
    let mut window = saved("x", f, "com.microsoft.VSCode");
    window.window.fullscreen = true;
    let c = case(vec![window], Vec::new(), &[]);

    let plan = plan(&c, PlanOptions::default());
    assert!(matches!(plan.operations[0].kind, OperationKind::Skip { .. }));
}

#[test]
fn safe_mode_never_emits_destructive_ops() {
    let bundle = "com.microsoft.VSCode";
    let f = frame(0.0, 0.0, 500.0, 400.0);
    let c = case(
        vec![saved("main", f, bundle)],
        vec![live("main", f, bundle, 1), live("extra", f, bundle, 2)],
        &[bundle],
    );

    let plan = plan(&c, PlanOptions::default());

    assert_eq!(plan.destructive_ops, 0);
    assert_eq!(plan.left_alone_conflicts, 1);
    assert!(!plan.operations.iter().any(|op| op.kind.is_destructive()));
}

#[test]
fn reconcile_mode_minimizes_conflicts_for_owned_bundles_only() {
    let bundle = "com.microsoft.VSCode";
    let f = frame(0.0, 0.0, 500.0, 400.0);
    let c = case(
        vec![saved("main", f, bundle)],
        vec![live("main", f, bundle, 1), live("extra", f, bundle, 2), live("untouchable", f, "com.unrelated.App", 3)],
        &[bundle, "com.unrelated.App"],
    );

    let plan = plan(&c, PlanOptions { mode: RestoreMode::Reconcile, dev_mode: false });

    let minimizes: Vec<_> = plan
        .operations
        .iter()
        .filter_map(|op| match &op.kind {
            OperationKind::MinimizeConflict { live_window_id, .. } => Some(*live_window_id),
            _ => None,
        })
        .collect();
    assert_eq!(minimizes, vec![2]);
    assert_eq!(plan.destructive_ops, 1);
}

#[test]
fn destructive_mode_closes_conflicts_for_owned_bundles_only() {
    let bundle = "com.microsoft.VSCode";
    let f = frame(0.0, 0.0, 500.0, 400.0);
    let c = case(
        vec![saved("main", f, bundle)],
        vec![live("main", f, bundle, 1), live("extra", f, bundle, 2), live("untouchable", f, "com.unrelated.App", 3)],
        &[bundle, "com.unrelated.App"],
    );

    let plan = plan(&c, PlanOptions { mode: RestoreMode::Destructive, dev_mode: false });

    let closes: Vec<_> = plan
        .operations
        .iter()
        .filter_map(|op| match &op.kind {
            OperationKind::CloseConflict { live_window_id, .. } => Some(*live_window_id),
            _ => None,
        })
        .collect();
    assert_eq!(closes, vec![2]);
    assert_eq!(plan.destructive_ops, 1);
}

#[test]
fn dev_mode_skips_protected_app_when_not_running() {
    let bundle = "com.microsoft.VSCode";
    let f = frame(0.0, 0.0, 500.0, 400.0);
    let c = case(vec![saved("x", f, bundle)], Vec::new(), &[]);

    let plan = plan(&c, PlanOptions { mode: RestoreMode::Safe, dev_mode: true });

    assert!(plan.operations.iter().all(|op| matches!(op.kind, OperationKind::Skip { .. })));
    assert!(plan.operations[0].rationale.contains("dev-mode"));
}

#[test]
fn chrome_window_without_live_match_restores_via_tabs() {
    let bundle = "com.google.Chrome";
    let f = frame(0.0, 0.0, 800.0, 600.0);
    let mut window = saved("Search", f, bundle);
    window.window.browser_tabs.push(BrowserTab {
        title: Some("Rust".to_string()),
        url: "https://www.rust-lang.org/".to_string(),
        active: true,
    });
    let c = case(vec![window], Vec::new(), &[]);

    let plan = plan(&c, PlanOptions::default());

    assert!(plan.operations.iter().any(|op| matches!(op.kind, OperationKind::RestoreChromeTabs { .. })));
}

#[test]
fn titleless_windows_do_not_match_on_weak_geometry() {
    let bundle = "com.google.Chrome";
    let mut saved_window = saved("ignored", frame(200.0, 120.0, 900.0, 600.0), bundle);
    saved_window.window.title = None;
    let mut live_window = live("ignored", frame(0.0, 33.0, 1470.0, 833.0), bundle, 9);
    live_window.window.title = None;
    let c = case(vec![saved_window], vec![live_window], &[bundle]);

    let plan = plan(&c, PlanOptions::default());

    assert!(
        !plan.operations.iter().any(|op| matches!(op.kind, OperationKind::Reposition { .. })),
        "titleless weak-geometry match must be rejected: {plan:?}"
    );
    assert!(plan.operations.iter().any(|op| matches!(op.kind, OperationKind::CreateWindow { .. })));
}

#[test]
fn titleless_windows_match_on_near_exact_geometry() {
    let bundle = "com.google.Chrome";
    let mut saved_window = saved("ignored", frame(200.0, 120.0, 900.0, 600.0), bundle);
    saved_window.window.title = None;
    let mut live_window = live("ignored", frame(204.0, 124.0, 900.0, 600.0), bundle, 9);
    live_window.window.title = None;
    let c = case(vec![saved_window], vec![live_window], &[bundle]);

    let plan = plan(&c, PlanOptions::default());

    assert!(
        plan.operations.iter().any(|op| matches!(op.kind, OperationKind::Reposition { .. })),
        "near-exact geometry should still match without titles: {plan:?}"
    );
}

#[test]
fn disabled_windows_skip_without_launching_apps() {
    let bundle = "com.microsoft.VSCode";
    let f = frame(0.0, 0.0, 500.0, 400.0);
    let mut window = saved("x", f, bundle);
    window.window.enabled = false;
    let c = case(vec![window], Vec::new(), &[]);

    let plan = plan(&c, PlanOptions::default());

    assert!(plan.operations.iter().all(|op| matches!(op.kind, OperationKind::Skip { .. })));
    assert!(!plan.operations.iter().any(|op| matches!(op.kind, OperationKind::LaunchApp { .. })));
}

#[test]
fn plan_summary_counts_each_kind() {
    let bundle = "com.microsoft.VSCode";
    let f = frame(0.0, 0.0, 800.0, 600.0);
    let mut skipped = saved("off", f, bundle);
    skipped.window.enabled = false;
    let c = case(vec![saved("a", f, bundle), saved("b", f, bundle), skipped], Vec::new(), &[]);
    let plan = plan(&c, PlanOptions::default());
    let summary = plan.summary();
    assert_eq!(summary.launch, 1);
    assert_eq!(summary.create, 2);
    assert_eq!(summary.skip, 1);
    assert_eq!(summary.reposition + summary.chrome + summary.minimize + summary.close, 0);
    assert_eq!(plan.operations.iter().filter(|op| op.kind.short_name() == "create").count(), 2);
}

#[test]
fn windows_without_bundle_are_skipped() {
    let f = frame(0.0, 0.0, 800.0, 600.0);
    let mut window = saved("x", f, "com.microsoft.VSCode");
    window.window.bundle_id = None;
    let c = case(vec![window], Vec::new(), &[]);
    let plan = plan(&c, PlanOptions::default());
    assert_eq!(plan.operations.len(), 1);
    assert!(matches!(plan.operations[0].kind, OperationKind::Skip { .. }));
}

#[test]
fn running_app_is_not_launched_again() {
    let bundle = "com.apple.Terminal";
    let f = frame(0.0, 0.0, 800.0, 600.0);
    let c = case(vec![saved("shell", f, bundle)], Vec::new(), &[bundle]);
    let plan = plan(&c, PlanOptions::default());
    assert!(!plan.operations.iter().any(|op| matches!(op.kind, OperationKind::LaunchApp { .. })));
    assert!(matches!(plan.operations[0].kind, OperationKind::CreateWindow { .. }));
    assert!(c.world.is_running(bundle));
    assert_eq!(c.world.pids_for(bundle), vec![200]);
    assert!(c.world.pids_for("dev.example.None").is_empty());
}

#[test]
fn restore_modes_allow_what_they_say() {
    assert!(!RestoreMode::Safe.allows_minimize() && !RestoreMode::Safe.allows_close());
    assert!(RestoreMode::Reconcile.allows_minimize() && !RestoreMode::Reconcile.allows_close());
    assert!(RestoreMode::Destructive.allows_minimize() && RestoreMode::Destructive.allows_close());
    assert_eq!(RestoreMode::default(), RestoreMode::Safe);
}

#[test]
fn planning_twice_gives_the_same_plan() {
    let bundle = "com.apple.Terminal";
    let f = frame(10.0, 10.0, 800.0, 600.0);
    let c = case(
        vec![saved("shell", f, bundle), saved("logs", f, bundle), saved("code", f, "com.microsoft.VSCode")],
        vec![live("shell", f, bundle, 3), live("other", frame(500.0, 300.0, 400.0, 300.0), bundle, 4)],
        &[bundle],
    );
    let options = PlanOptions { mode: RestoreMode::Reconcile, dev_mode: false };
    assert_eq!(plan(&c, options), plan(&c, options));
}

#[test]
fn repositions_carry_the_acceptable_score_of_their_pair() {
    let bundle = "com.apple.Terminal";
    let f = frame(10.0, 10.0, 800.0, 600.0);
    let c = case(
        vec![saved("shell", f, bundle), saved("unrelated title", f, bundle)],
        vec![live("shell", f, bundle, 3), live("different words", frame(900.0, 700.0, 200.0, 100.0), bundle, 4)],
        &[bundle],
    );
    let plan = plan(&c, PlanOptions::default());
    let mut repositions = 0;
    for op in &plan.operations {
        if let OperationKind::Reposition { live_window_id, .. } = op.kind {
            repositions += 1;
            let saved = op.saved_window_index.unwrap();
            let live = c.world.windows.iter().position(|w| w.window_id == live_window_id).unwrap();
            let score = c.scores[saved][live];
            assert_eq!(op.match_score, Some(score));
            assert!(score.is_acceptable());
            assert_eq!(op.bundle_id, c.world.windows[live].bundle_id);
        }
    }
    assert_eq!(repositions, 1, "{plan:?}");
    assert!(plan.operations.iter().any(|op| matches!(op.kind, OperationKind::CreateWindow { .. })));
}

#[test]
fn safe_mode_never_emits_close_operations_for_user_apps() {
    let bundle = "com.apple.Terminal";
    let c = case(
        vec![saved("main", frame(0.0, 0.0, 800.0, 600.0), bundle)],
        vec![
            live("main", frame(50.0, 50.0, 800.0, 600.0), bundle, 10),
            live("scratch", frame(100.0, 100.0, 800.0, 600.0), bundle, 11),
            // unrelated app — must never be touched
            live("inbox", frame(200.0, 200.0, 800.0, 600.0), "com.apple.Notes", 12),
        ],
        &[bundle],
    );

    let plan = plan(&c, PlanOptions { mode: RestoreMode::Safe, dev_mode: false });

    for op in &plan.operations {
        assert!(
            !matches!(op.kind, OperationKind::CloseConflict { .. } | OperationKind::MinimizeConflict { .. }),
            "safe mode emitted destructive op: {op:?}"
        );
        assert_ne!(op.bundle_id.as_deref(), Some("com.apple.Notes"));
    }
}

#[test]
fn destructive_mode_only_closes_owned_bundles() {
    let bundle = "com.apple.Terminal";
    let c = case(
        vec![saved("main", frame(0.0, 0.0, 800.0, 600.0), bundle)],
        vec![
            live("main", frame(50.0, 50.0, 800.0, 600.0), bundle, 10),
            live("scratch", frame(100.0, 100.0, 800.0, 600.0), bundle, 11),
            live("inbox", frame(200.0, 200.0, 800.0, 600.0), "com.apple.Notes", 12),
        ],
        &[bundle, "com.apple.Notes"],
    );

    let plan = plan(&c, PlanOptions { mode: RestoreMode::Destructive, dev_mode: false });

    let close_ops: Vec<_> =
        plan.operations.iter().filter(|op| matches!(op.kind, OperationKind::CloseConflict { .. })).collect();
    assert_eq!(close_ops.len(), 1, "should close one conflicting Terminal window");
    assert_eq!(close_ops[0].bundle_id.as_deref(), Some(bundle));
    for op in &plan.operations {
        assert_ne!(op.bundle_id.as_deref(), Some("com.apple.Notes"));
    }
}

#[test]
fn apps_not_being_restored_are_not_reconciled() {
    let bundle = "com.microsoft.VSCode";
    let mut fullscreen = saved("main", frame(0.0, 0.0, 800.0, 600.0), bundle);
    fullscreen.window.fullscreen = true;
    let c = case(vec![fullscreen], vec![live("other", frame(300.0, 300.0, 400.0, 300.0), bundle, 10)], &[bundle]);

    let plan = plan(&c, PlanOptions { mode: RestoreMode::Reconcile, dev_mode: false });

    assert!(!plan.operations.iter().any(|op| op.kind.is_destructive()), "{plan:?}");
    assert_eq!(plan.destructive_ops, 0);
    assert_eq!(plan.left_alone_conflicts, 1);
}

#[test]
fn dev_mode_protects_editors_from_reconciliation() {
    let bundle = "com.microsoft.VSCode";
    let f = frame(0.0, 0.0, 800.0, 600.0);
    let c = case(
        vec![saved("main", f, bundle)],
        vec![live("main", f, bundle, 10), live("scratch", frame(300.0, 300.0, 400.0, 300.0), bundle, 11)],
        &[bundle],
    );

    let protected = plan(&c, PlanOptions { mode: RestoreMode::Destructive, dev_mode: true });
    assert!(!protected.operations.iter().any(|op| op.kind.is_destructive()), "{protected:?}");
    assert_eq!(protected.left_alone_conflicts, 1);

    let unprotected = plan(&c, PlanOptions { mode: RestoreMode::Destructive, dev_mode: false });
    assert_eq!(unprotected.operations.iter().filter(|op| op.kind.is_destructive()).count(), 1);
}

#[test]
fn reconciliation_spares_the_windows_the_plan_reuses() {
    let bundle = "com.apple.Terminal";
    let f = frame(0.0, 0.0, 800.0, 600.0);
    let c = case(
        vec![saved("main", f, bundle)],
        vec![live("main", f, bundle, 10), live("scratch", frame(300.0, 300.0, 400.0, 300.0), bundle, 11)],
        &[bundle],
    );
    let plan = plan(&c, PlanOptions { mode: RestoreMode::Reconcile, dev_mode: false });
    let moved: Vec<u32> = plan
        .operations
        .iter()
        .filter_map(|op| match op.kind {
            OperationKind::Reposition { live_window_id, .. } => Some(live_window_id),
            _ => None,
        })
        .collect();
    let minimized: Vec<u32> = plan
        .operations
        .iter()
        .filter_map(|op| match op.kind {
            OperationKind::MinimizeConflict { live_window_id, .. } => Some(live_window_id),
            _ => None,
        })
        .collect();
    assert_eq!(moved, vec![10]);
    assert_eq!(minimized, vec![11]);
}

#[test]
fn reposition_rationale_quotes_the_live_title() {
    let bundle = "com.apple.Terminal";
    let f = frame(0.0, 0.0, 800.0, 600.0);
    let c = case(vec![saved("say \"hi\"", f, bundle)], vec![live("say \"hi\"", f, bundle, 3)], &[bundle]);
    let quoted = plan(&c, PlanOptions::default());
    assert!(matches!(quoted.operations[0].kind, OperationKind::Reposition { .. }));
    assert_eq!(quoted.operations[0].rationale, "reusing existing window (live title=\"say \\\"hi\\\"\")");

    let mut saved_untitled = saved("x", f, bundle);
    saved_untitled.window.title = None;
    let mut live_untitled = live("x", f, bundle, 4);
    live_untitled.window.title = None;
    let c = case(vec![saved_untitled], vec![live_untitled], &[bundle]);
    let untitled = plan(&c, PlanOptions::default());
    assert!(matches!(untitled.operations[0].kind, OperationKind::Reposition { .. }));
    assert_eq!(untitled.operations[0].rationale, format!("reusing existing window (live title={:?})", "?"));
}

#[test]
fn nan_and_negative_scores_are_never_acceptable() {
    let base = MatchScore {
        title_similarity: 1.0f32.to_bits(),
        geometry_similarity: 1.0f32.to_bits(),
        bundle_match: true,
        title_evidence: true,
        final_score: 0.9f32.to_bits(),
    };
    assert!(base.is_acceptable());
    assert!(MatchScore { final_score: f32::INFINITY.to_bits(), ..base }.is_acceptable());
    assert!(!MatchScore { final_score: f32::NAN.to_bits(), ..base }.is_acceptable());
    assert!(!MatchScore { final_score: (-0.9f32).to_bits(), ..base }.is_acceptable());
    let geometry_only = MatchScore { title_evidence: false, ..base };
    assert!(geometry_only.is_acceptable());
    assert!(!MatchScore { geometry_similarity: f32::NAN.to_bits(), ..geometry_only }.is_acceptable());
    assert!(!MatchScore { geometry_similarity: (-1.0f32).to_bits(), ..geometry_only }.is_acceptable());
}

use std::collections::HashSet;

use workspace::app_support::{full_restore_apps, is_tab_capable, known_apps, support_for_bundle_id,
    support_for_window, KnownApp, SupportLevel};
use workspace::model::{HostInfo, WindowSnapshot};

fn window(bundle_id: Option<&str>) -> WindowSnapshot {
    WindowSnapshot {
        window_id: 1,
        app_name: "App".to_string(),
        process_name: "App".to_string(),
        bundle_id: bundle_id.map(str::to_string),
        pid: 42,
        title: Some("main".to_string()),
        display_id: None,
        z_order: Some(0),
        fullscreen: false,
        minimized: false,
        enabled: true,
        browser_tabs: Vec::new(),
    }
}

#[test]
fn all_known_apps_are_supported() {
    for app in known_apps() {
        assert_eq!(
            support_for_window(&window(Some(app.bundle_id))).level,
            SupportLevel::FullRestore,
            "{} should be supported",
            app.bundle_id
        );
    }
    assert_eq!(support_for_window(&window(None)).level, SupportLevel::Unsupported);
}

#[test]
fn common_apps_are_explicitly_classified() {
    let apps = known_apps();
    for bundle_id in [
        "com.google.Chrome",
        "com.apple.Safari",
        "com.apple.Terminal",
        "com.googlecode.iterm2",
        "dev.warp.Warp-Stable",
        "com.todesktop.230313mzl4w4u92",
        "com.apple.dt.Xcode",
        "com.apple.finder",
        "com.apple.Notes",
        "com.apple.Music",
        "com.apple.MobileSMS",
    ] {
        assert!(
            apps.iter().any(|app| app.bundle_id == bundle_id),
            "{bundle_id} should be explicitly tracked"
        );
    }
}

#[test]
fn known_app_registry_has_unique_bundle_ids() {
    let mut seen = HashSet::new();

    for app in known_apps() {
        assert!(seen.insert(app.bundle_id), "duplicate bundle id: {}", app.bundle_id);
        assert!(!app.name.trim().is_empty(), "{} has no display name", app.bundle_id);
        assert!(!app.support.reason.trim().is_empty(), "{} has no support reason", app.bundle_id);
    }
}

#[test]
fn all_known_apps_are_enabled_for_full_restore() {
    let enabled: Vec<KnownApp> = full_restore_apps();

    assert_eq!(enabled.len(), known_apps().len());
    for app in known_apps() {
        assert_eq!(
            support_for_bundle_id(Some(app.bundle_id)).level,
            SupportLevel::FullRestore,
            "{} should be enabled",
            app.bundle_id
        );
    }
}

#[test]
fn common_dev_apps_are_supported() {
    for bundle_id in [
        "com.apple.Terminal",
        "com.googlecode.iterm2",
        "dev.warp.Warp-Stable",
        "com.todesktop.230313mzl4w4u92",
        "com.apple.dt.Xcode",
    ] {
        let support = support_for_bundle_id(Some(bundle_id));
        assert_eq!(support.level, SupportLevel::FullRestore, "{bundle_id}");
        assert!(support.reason.contains("enabled"));
    }
}

#[test]
fn browsers_and_special_apps_are_supported() {
    for bundle_id in [
        "com.google.Chrome",
        "com.apple.Safari",
        "com.apple.finder",
        "com.apple.Notes",
        "com.apple.Music",
        "com.apple.MobileSMS",
    ] {
        let support = support_for_bundle_id(Some(bundle_id));
        assert_eq!(support.level, SupportLevel::FullRestore, "{bundle_id}");
        assert!(support.reason.contains("enabled"));
    }
}

#[test]
fn unknown_and_missing_bundle_ids_are_never_restored() {
    assert_eq!(support_for_bundle_id(Some("dev.example.Unknown")).level, SupportLevel::Unsupported);
    assert_eq!(support_for_bundle_id(None).level, SupportLevel::Unsupported);
}

#[test]
fn unknown_bundle_reason_names_the_allowlist() {
    assert!(support_for_bundle_id(Some("dev.example.Unknown"))
        .reason
        .contains("not in the supported restore allowlist"));
}

#[test]
fn chromium_family_browsers_are_tab_capable() {
    for bundle_id in [
        "com.google.Chrome",
        "com.google.Chrome.canary",
        "com.brave.Browser",
        "com.microsoft.edgemac",
        "org.chromium.Chromium",
    ] {
        assert!(is_tab_capable(Some(bundle_id)), "{bundle_id}");
        assert_eq!(support_for_bundle_id(Some(bundle_id)).level, SupportLevel::FullRestore);
    }
    assert!(!is_tab_capable(Some("com.apple.Safari")));
    assert!(!is_tab_capable(None));
}

#[test]
fn host_info_is_plain_data() {
    let host = HostInfo { hostname: "host".to_string(), os: "macos".to_string(), arch: "aarch64".to_string() };
    assert_eq!(host.clone(), host);
}

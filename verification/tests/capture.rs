use workspace::capture::{active_tab_number, arrange_captured_windows, assign_browser_tabs, assign_chrome_tabs,
    chrome_tab_match_score,
    clean_windows, order_front_to_back, ChromeWindowTabs, RawChromeTab, RawChromeWindow};
use workspace::model::{BrowserTab, WindowSnapshot};

fn chrome_snapshot_window(title: Option<&str>) -> WindowSnapshot {
    WindowSnapshot {
        window_id: 1,
        app_name: "Google Chrome".to_string(),
        process_name: "Google Chrome".to_string(),
        bundle_id: Some("com.google.Chrome".to_string()),
        pid: 42,
        title: title.map(str::to_string),
        display_id: None,
        z_order: Some(0),
        fullscreen: false,
        minimized: false,
        enabled: true,
        browser_tabs: Vec::new(),
    }
}

fn tabs(url: &str) -> Vec<BrowserTab> {
    vec![BrowserTab { title: None, url: url.to_string(), active: true }]
}

#[test]
fn chrome_tabs_attach_by_title_when_titles_match() {
    let mut windows = vec![chrome_snapshot_window(Some("Docs")), chrome_snapshot_window(Some("Search"))];
    // Reverse order relative to the snapshot windows.
    let chrome_windows = vec![
        ChromeWindowTabs { title: Some("Search".to_string()), tabs: tabs("https://example.com/search") },
        ChromeWindowTabs { title: Some("Docs".to_string()), tabs: tabs("https://example.com/docs") },
    ];

    assign_chrome_tabs(&mut windows, &chrome_windows);

    assert_eq!(windows[0].browser_tabs[0].url, "https://example.com/docs");
    assert_eq!(windows[1].browser_tabs[0].url, "https://example.com/search");
}

#[test]
fn chrome_tabs_fall_back_to_front_to_back_order_when_titles_are_missing() {
    let mut windows = vec![chrome_snapshot_window(None), chrome_snapshot_window(None)];
    let chrome_windows = vec![
        ChromeWindowTabs { title: Some("Front".to_string()), tabs: tabs("https://example.com/front") },
        ChromeWindowTabs { title: Some("Back".to_string()), tabs: tabs("https://example.com/back") },
    ];

    assign_chrome_tabs(&mut windows, &chrome_windows);

    assert_eq!(windows[0].browser_tabs[0].url, "https://example.com/front");
    assert_eq!(windows[1].browser_tabs[0].url, "https://example.com/back");
}

#[test]
fn partial_title_matches_do_not_steal_other_windows_tabs() {
    let mut windows = vec![chrome_snapshot_window(Some("Unrelated")), chrome_snapshot_window(Some("Docs"))];
    let chrome_windows =
        vec![ChromeWindowTabs { title: Some("Docs".to_string()), tabs: tabs("https://example.com/docs") }];

    assign_chrome_tabs(&mut windows, &chrome_windows);

    assert!(windows[0].browser_tabs.is_empty());
    assert_eq!(windows[1].browser_tabs[0].url, "https://example.com/docs");
}

#[test]
fn tab_match_score_prefers_exact_titles() {
    let w = chrome_snapshot_window(Some("Docs - Project"));
    assert_eq!(chrome_tab_match_score(&w, Some("Docs - Project")), 100);
    assert_eq!(chrome_tab_match_score(&w, Some("Docs")), 50);
    assert_eq!(chrome_tab_match_score(&w, Some("Mail")), 0);
    assert_eq!(chrome_tab_match_score(&w, None), 0);
    assert_eq!(chrome_tab_match_score(&chrome_snapshot_window(None), Some("Docs")), 0);
}

#[test]
fn ties_go_to_the_later_reported_window() {
    let mut windows = vec![chrome_snapshot_window(Some("Docs"))];
    let chrome_windows = vec![
        ChromeWindowTabs { title: Some("Docs".to_string()), tabs: tabs("https://example.com/first") },
        ChromeWindowTabs { title: Some("Docs".to_string()), tabs: tabs("https://example.com/second") },
    ];
    assign_chrome_tabs(&mut windows, &chrome_windows);
    assert_eq!(windows[0].browser_tabs[0].url, "https://example.com/second");
}

#[test]
fn non_browser_windows_never_get_tabs() {
    let mut other = chrome_snapshot_window(Some("Docs"));
    other.bundle_id = Some("com.apple.Safari".to_string());
    let mut windows = vec![other, chrome_snapshot_window(None)];
    let chrome_windows =
        vec![ChromeWindowTabs { title: Some("Docs".to_string()), tabs: tabs("https://example.com/docs") }];
    assign_chrome_tabs(&mut windows, &chrome_windows);
    assert!(windows[0].browser_tabs.is_empty());
    assert_eq!(windows[1].browser_tabs[0].url, "https://example.com/docs");
}

#[test]
fn reported_windows_are_cleaned() {
    let raw = vec![RawChromeWindow {
        title: Some(String::new()),
        tabs: vec![
            RawChromeTab { title: Some("Rust".to_string()), url: Some("  https://www.rust-lang.org/ ".to_string()), active: true },
            RawChromeTab { title: Some(String::new()), url: Some("   ".to_string()), active: false },
            RawChromeTab { title: None, url: None, active: false },
            RawChromeTab { title: Some(String::new()), url: Some("https://example.com/2".to_string()), active: false },
        ],
    }];
    let windows = clean_windows(&raw);
    assert_eq!(windows.len(), 1);
    assert_eq!(windows[0].title, None);
    assert_eq!(windows[0].tabs.len(), 2);
    assert_eq!(windows[0].tabs[0].url, "https://www.rust-lang.org/");
    assert_eq!(windows[0].tabs[0].title.as_deref(), Some("Rust"));
    assert!(windows[0].tabs[0].active);
    assert_eq!(windows[0].tabs[1].title, None);
    assert_eq!(windows[0].tabs[1].url, "https://example.com/2");
}

#[test]
fn active_tab_number_is_one_based() {
    let mut t = tabs("https://example.com/1");
    t[0].active = false;
    t.push(BrowserTab { title: None, url: "https://example.com/2".to_string(), active: true });
    assert_eq!(active_tab_number(&t), 2);
    t[1].active = false;
    assert_eq!(active_tab_number(&t), 1);
    assert_eq!(active_tab_number(&Vec::new()), 1);
}

#[test]
fn captured_windows_are_ordered_front_to_back() {
    let mut back = chrome_snapshot_window(Some("Back"));
    back.z_order = Some(10);
    let mut none = chrome_snapshot_window(Some("None"));
    none.z_order = None;
    let mut front = chrome_snapshot_window(Some("Front"));
    front.z_order = Some(0);
    let mut also_front = chrome_snapshot_window(Some("AlsoFront"));
    also_front.z_order = Some(0);
    let ordered = order_front_to_back(&vec![back, none, front, also_front]);
    let titles: Vec<_> = ordered.iter().map(|w| w.title.clone().unwrap()).collect();
    assert_eq!(titles, vec!["Front", "AlsoFront", "Back", "None"]);
}

#[test]
fn arranged_capture_attaches_tabs_in_stacking_order() {
    let mut back = chrome_snapshot_window(None);
    back.z_order = Some(5);
    back.window_id = 2;
    let mut front = chrome_snapshot_window(None);
    front.z_order = Some(1);
    front.window_id = 1;
    let chrome_windows = vec![
        ChromeWindowTabs { title: None, tabs: tabs("https://example.com/front") },
        ChromeWindowTabs { title: None, tabs: tabs("https://example.com/back") },
    ];
    let arranged = arrange_captured_windows(&vec![back, front], &chrome_windows);
    assert_eq!(arranged[0].window_id, 1);
    assert_eq!(arranged[0].browser_tabs[0].url, "https://example.com/front");
    assert_eq!(arranged[1].browser_tabs[0].url, "https://example.com/back");
}

#[test]
fn each_browser_gets_only_its_own_reported_windows() {
    let mut brave = chrome_snapshot_window(Some("Docs"));
    brave.bundle_id = Some("com.brave.Browser".to_string());
    brave.app_name = "Brave Browser".to_string();
    let mut windows = vec![chrome_snapshot_window(Some("Docs")), brave];
    let brave_windows =
        vec![ChromeWindowTabs { title: Some("Docs".to_string()), tabs: tabs("https://example.com/brave") }];

    assign_browser_tabs(&mut windows, "com.brave.Browser", &brave_windows);

    assert!(windows[0].browser_tabs.is_empty());
    assert_eq!(windows[1].browser_tabs[0].url, "https://example.com/brave");

    let chrome_windows =
        vec![ChromeWindowTabs { title: Some("Docs".to_string()), tabs: tabs("https://example.com/chrome") }];
    assign_chrome_tabs(&mut windows, &chrome_windows);

    assert_eq!(windows[0].browser_tabs[0].url, "https://example.com/chrome");
    assert_eq!(windows[1].browser_tabs[0].url, "https://example.com/brave");
}

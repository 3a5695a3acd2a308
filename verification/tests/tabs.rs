use workspace::execute::JournalStatus;
use workspace::model::BrowserTab;
use workspace::tabs::{missing_tab_urls, reconcile_outcome, sole_candidate};

fn tab(url: &str) -> BrowserTab {
    BrowserTab { title: None, url: url.to_string(), active: false }
}

#[test]
fn only_saved_tabs_that_are_not_open_are_reopened() {
    let saved = vec![tab("https://a.example"), tab("https://b.example"), tab("https://c.example")];
    let live = vec!["https://b.example".to_string(), "https://z.example".to_string()];
    assert_eq!(missing_tab_urls(&saved, &live), vec!["https://a.example".to_string(), "https://c.example".to_string()]);
    let all_open = vec!["https://c.example".to_string(), "https://a.example".to_string(), "https://b.example".to_string()];
    assert!(missing_tab_urls(&saved, &all_open).is_empty());
    assert_eq!(missing_tab_urls(&saved, &Vec::new()).len(), 3);
}

#[test]
fn tabs_go_only_to_the_single_window_at_the_target() {
    assert_eq!(sole_candidate(&vec![false, true, false]), Some(1));
    assert_eq!(sole_candidate(&vec![true, false, true]), None);
    assert_eq!(sole_candidate(&vec![false, false]), None);
    assert_eq!(sole_candidate(&Vec::new()), None);
}

#[test]
fn reconcile_outcomes_report_what_was_reopened() {
    let none = reconcile_outcome(&Ok(Some(0)));
    assert_eq!(none.status, JournalStatus::Success);
    assert_eq!(none.message, "repositioned");
    let three = reconcile_outcome(&Ok(Some(3)));
    assert_eq!(three.status, JournalStatus::Success);
    assert_eq!(three.message, "repositioned; reopened 3 missing tab(s)");
    let lost = reconcile_outcome(&Ok(None));
    assert_eq!(lost.status, JournalStatus::PartialSuccess);
    assert_eq!(lost.message, "repositioned; could not locate window to reconcile tabs");
    let failed = reconcile_outcome(&Err("boom".to_string()));
    assert_eq!(failed.status, JournalStatus::PartialSuccess);
    assert_eq!(failed.message, "repositioned; tab reconcile failed: boom");
    assert_eq!(failed.attempts, 1);
}

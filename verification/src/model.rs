//! The saved-workspace data model, reduced to what the planning logic reads.
//!
//! Window and display geometry is floating point and is kept by the
//! application layer next to these records; the records here carry the
//! identities, titles, flags and tabs that every restore decision is made on.

use vstd::prelude::*;

use crate::text::{clone_opt, opt_view};

verus! {

/// Schema version written into new snapshots; newer files are refused.
pub const SNAPSHOT_VERSION: u32 = 1;

/// Where a snapshot was taken.
#[derive(Debug, Clone, PartialEq, Eq)]
pub struct HostInfo {
    pub hostname: String,
    pub os: String,
    pub arch: String,
}

/// One browser tab captured with its window.
#[derive(Debug, Clone, PartialEq, Eq)]
pub struct BrowserTab {
    pub title: Option<String>,
    pub url: String,
    pub active: bool,
}

/// A saved window.
#[derive(Debug, Clone, PartialEq, Eq)]
pub struct WindowSnapshot {
    pub window_id: u32,
    pub app_name: String,
    pub process_name: String,
    pub bundle_id: Option<String>,
    pub pid: i32,
    pub title: Option<String>,
    pub display_id: Option<String>,
    pub z_order: Option<u32>,
    pub fullscreen: bool,
    pub minimized: bool,
    pub enabled: bool,
    pub browser_tabs: Vec<BrowserTab>,
}

/// A saved workspace.
#[derive(Debug, Clone, PartialEq, Eq)]
pub struct WorkspaceSnapshot {
    pub version: u32,
    pub name: String,
    pub host: HostInfo,
    pub windows: Vec<WindowSnapshot>,
}

/// Windows of snapshots written before the `enabled` flag existed are
/// enabled.
pub fn default_window_enabled() -> (r: bool)
    ensures
        r,
{
    true
}

/// The `enabled` flag is left out of the file when it holds its default.
pub fn is_true(value: &bool) -> (r: bool)
    ensures
        r == *value,
{
    *value
}

/// The bundle identifier of a saved window, as characters.
pub open spec fn bundle_of(w: WindowSnapshot) -> Option<Seq<char>> {
    opt_view(w.bundle_id)
}

/// A copy of a browser tab.
pub fn copy_tab(t: &BrowserTab) -> (r: BrowserTab)
    ensures
        r == *t,
{
    BrowserTab { title: clone_opt(&t.title), url: t.url.clone(), active: t.active }
}

/// A copy of a list of browser tabs.
pub fn copy_tabs(tabs: &Vec<BrowserTab>) -> (r: Vec<BrowserTab>)
    ensures
        r@ == tabs@,
{
    let mut out: Vec<BrowserTab> = Vec::new();
    let mut i: usize = 0;
    while i < tabs.len()
        invariant
            i <= tabs.len(),
            out@ == tabs@.subrange(0, i as int),
        decreases tabs.len() - i,
    {
        out.push(copy_tab(&tabs[i]));
        assert(out@ =~= tabs@.subrange(0, i + 1));
        i = i + 1;
    }
    assert(out@ =~= tabs@);
    out
}

/// A copy of a saved window.
pub fn copy_window(w: &WindowSnapshot) -> (r: WindowSnapshot)
    ensures
        r == (WindowSnapshot { browser_tabs: r.browser_tabs, ..*w }),
        r.browser_tabs@ == w.browser_tabs@,
{
    WindowSnapshot {
        window_id: w.window_id,
        app_name: w.app_name.clone(),
        process_name: w.process_name.clone(),
        bundle_id: clone_opt(&w.bundle_id),
        pid: w.pid,
        title: clone_opt(&w.title),
        display_id: clone_opt(&w.display_id),
        z_order: w.z_order,
        fullscreen: w.fullscreen,
        minimized: w.minimized,
        enabled: w.enabled,
        browser_tabs: copy_tabs(&w.browser_tabs),
    }
}

/// The stacking key of a saved window: its z-order, windows without one
/// last.
pub open spec fn z_key(w: WindowSnapshot) -> u32 {
    match w.z_order {
        Some(z) => z,
        None => u32::MAX,
    }
}

} // verus!

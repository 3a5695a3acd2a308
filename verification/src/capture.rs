//! Turning an observation of the desktop into saved windows: ordering them
//! front to back and attaching browser tabs to browser windows.

use vstd::prelude::*;

use crate::model::{copy_tabs, copy_window, z_key, BrowserTab, WindowSnapshot};
use crate::order::{is_permutation, stable_order_by_key, stably_sorted};
use crate::text::{chars_of, is_substring, opt_str_eq, opt_view, str_contains, str_eq,
    string_from_chars, trim, trim_chars};

verus! {

/// Bundle identifier of Google Chrome.
pub open spec fn chrome_bundle() -> Seq<char> {
    "com.google.Chrome"@
}

/// The tabs of one browser window, as the browser reports them.
#[derive(Debug, Clone, PartialEq, Eq)]
pub struct ChromeWindowTabs {
    pub title: Option<String>,
    pub tabs: Vec<BrowserTab>,
}

/// A tab as the browser's scripting interface returns it.
#[derive(Debug, Clone, PartialEq, Eq)]
pub struct RawChromeTab {
    pub title: Option<String>,
    pub url: Option<String>,
    pub active: bool,
}

/// A window as the browser's scripting interface returns it.
#[derive(Debug, Clone, PartialEq, Eq)]
pub struct RawChromeWindow {
    pub title: Option<String>,
    pub tabs: Vec<RawChromeTab>,
}

// ---------------------------------------------------------------------------
// Cleaning what the browser reports
// ---------------------------------------------------------------------------

/// An empty title counts as no title.
pub open spec fn clean_title(t: Option<Seq<char>>) -> Option<Seq<char>> {
    match t {
        Some(s) => if s.len() == 0 { None } else { Some(s) },
        None => None,
    }
}

/// The kept tabs of a window: those with a URL that is not blank once
/// trimmed, with the trimmed URL and a cleaned title.
pub open spec fn clean_tabs(raw: Seq<RawChromeTab>) -> Seq<(Option<Seq<char>>, Seq<char>, bool)>
    decreases raw.len(),
{
    if raw.len() == 0 {
        seq![]
    } else {
        let prev = clean_tabs(raw.drop_last());
        let t = raw.last();
        match t.url {
            Some(u) => if trim(u@).len() == 0 {
                prev
            } else {
                prev.push((clean_title(opt_view(t.title)), trim(u@), t.active))
            },
            None => prev,
        }
    }
}

/// The characters of a tab.
pub open spec fn tab_view(t: BrowserTab) -> (Option<Seq<char>>, Seq<char>, bool) {
    (opt_view(t.title), t.url@, t.active)
}

/// The characters of a list of tabs.
pub open spec fn tabs_view(ts: Seq<BrowserTab>) -> Seq<(Option<Seq<char>>, Seq<char>, bool)> {
    ts.map_values(|t: BrowserTab| tab_view(t))
}

fn clean_title_exec(t: &Option<String>) -> (r: Option<String>)
    ensures
        opt_view(r) == clean_title(opt_view(*t)),
{
    match t {
        Some(s) => if s.unicode_len() == 0 {
            None
        } else {
            Some(s.clone())
        },
        None => None,
    }
}

/// The tabs of one reported window: blank URLs dropped, URLs trimmed, empty
/// titles cleared.
pub fn clean_window(raw: &RawChromeWindow) -> (r: ChromeWindowTabs)
    ensures
        opt_view(r.title) == clean_title(opt_view(raw.title)),
        tabs_view(r.tabs@) == clean_tabs(raw.tabs@),
{
    let mut tabs: Vec<BrowserTab> = Vec::new();
    let mut i: usize = 0;
    while i < raw.tabs.len()
        invariant
            i <= raw.tabs.len(),
            tabs_view(tabs@) == clean_tabs(raw.tabs@.subrange(0, i as int)),
        decreases raw.tabs.len() - i,
    {
        let ghost pre = raw.tabs@.subrange(0, i as int);
        assert(raw.tabs@.subrange(0, i + 1).drop_last() =~= pre);
        let t = &raw.tabs[i];
        match &t.url {
            Some(u) => {
                let trimmed = trim_chars(&chars_of(u.as_str()));
                if trimmed.len() > 0 {
                    let tab = BrowserTab {
                        title: clean_title_exec(&t.title),
                        url: string_from_chars(&trimmed),
                        active: t.active,
                    };
                    let ghost before = tabs@;
                    tabs.push(tab);
                    assert(tabs_view(tabs@) =~= tabs_view(before).push(tab_view(tab)));
                }
            },
            None => {},
        }
        i = i + 1;
    }
    assert(raw.tabs@.subrange(0, raw.tabs.len() as int) =~= raw.tabs@);
    ChromeWindowTabs { title: clean_title_exec(&raw.title), tabs }
}

/// Every reported window, cleaned, in order.
pub fn clean_windows(raw: &Vec<RawChromeWindow>) -> (r: Vec<ChromeWindowTabs>)
    ensures
        r.len() == raw.len(),
        forall|k: int| 0 <= k < raw.len() ==> opt_view((#[trigger] r@[k]).title) == clean_title(
            opt_view(raw@[k].title),
        ) && tabs_view(r@[k].tabs@) == clean_tabs(raw@[k].tabs@),
{
    let mut out: Vec<ChromeWindowTabs> = Vec::new();
    let mut i: usize = 0;
    while i < raw.len()
        invariant
            i <= raw.len(),
            out.len() == i,
            forall|k: int| 0 <= k < i ==> opt_view((#[trigger] out@[k]).title) == clean_title(
                opt_view(raw@[k].title),
            ) && tabs_view(out@[k].tabs@) == clean_tabs(raw@[k].tabs@),
        decreases raw.len() - i,
    {
        out.push(clean_window(&raw[i]));
        i = i + 1;
    }
    out
}

/// The 1-based position of the first active tab, or 1 when none is active.
pub open spec fn spec_active_tab_number(tabs: Seq<BrowserTab>) -> int {
    if exists|k: int| 0 <= k < tabs.len() && tabs[k].active {
        (choose|k: int| 0 <= k < tabs.len() && tabs[k].active && forall|j: int| 0 <= j < k ==> !tabs[j].active) + 1
    } else {
        1
    }
}

/// The 1-based position of the first active tab, or 1 when none is.
pub fn active_tab_number(tabs: &Vec<BrowserTab>) -> (r: usize)
    ensures
        r == spec_active_tab_number(tabs@),
{
    let mut i: usize = 0;
    while i < tabs.len()
        invariant
            i <= tabs.len(),
            forall|j: int| 0 <= j < i ==> !tabs@[j].active,
        decreases tabs.len() - i,
    {
        if tabs[i].active {
            proof {
                let k = choose|k: int| 0 <= k < tabs@.len() && tabs@[k].active && forall|j: int| 0 <= j < k ==> !tabs@[j].active;
                if k < i {
                    assert(!tabs@[k].active);
                }
                if i < k {
                    assert(!tabs@[i as int].active);
                }
            }
            return i + 1;
        }
        i = i + 1;
    }
    1
}

// ---------------------------------------------------------------------------
// Attaching tabs to saved windows
// ---------------------------------------------------------------------------

/// How well a reported browser window title fits a saved window title: the
/// same title, one containing the other, or no evidence.
pub open spec fn spec_tab_match_score(saved: Option<Seq<char>>, candidate: Option<Seq<char>>) -> i32 {
    match (saved, candidate) {
        (Some(s), Some(c)) => if s == c {
            100
        } else if is_substring(c, s) || is_substring(s, c) {
            50
        } else {
            0
        },
        _ => 0,
    }
}

/// How well a reported browser window fits a saved window.
pub fn chrome_tab_match_score(window: &WindowSnapshot, chrome_title: Option<&str>) -> (r: i32)
    ensures
        r == spec_tab_match_score(opt_view(window.title), match chrome_title {
            Some(c) => Some(c@),
            None => None,
        }),
{
    match (&window.title, chrome_title) {
        (Some(saved), Some(candidate)) => {
            if str_eq(saved.as_str(), candidate) {
                100
            } else if str_contains(saved.as_str(), candidate) || str_contains(candidate, saved.as_str()) {
                50
            } else {
                0
            }
        },
        _ => 0,
    }
}

/// Positions of the saved windows of the browser `browser`, in order.
pub open spec fn chrome_slots(ws: Seq<WindowSnapshot>, browser: Seq<char>, n: int) -> Seq<int>
    decreases n,
{
    if n <= 0 {
        seq![]
    } else if opt_view(ws[n - 1].bundle_id) == Some(browser) {
        chrome_slots(ws, browser, n - 1).push(n - 1)
    } else {
        chrome_slots(ws, browser, n - 1)
    }
}

/// The score of reported window `c` for saved window `w`.
pub open spec fn tab_score(ws: Seq<WindowSnapshot>, cw: Seq<ChromeWindowTabs>, w: int, c: int) -> i32 {
    spec_tab_match_score(opt_view(ws[w].title), opt_view(cw[c].title))
}

/// Among the first `n` reported windows not yet used, the one with the
/// highest positive score for saved window `w`; the last one on a tie.
pub open spec fn best_chrome(ws: Seq<WindowSnapshot>, cw: Seq<ChromeWindowTabs>, used: Seq<bool>, w: int, n: int) -> Option<int>
    decreases n,
{
    if n <= 0 {
        None
    } else {
        let prev = best_chrome(ws, cw, used, w, n - 1);
        let c = n - 1;
        if !used[c] && tab_score(ws, cw, w, c) > 0 && (prev is None || tab_score(ws, cw, w, prev->0)
            <= tab_score(ws, cw, w, c)) {
            Some(c)
        } else {
            prev
        }
    }
}

/// The title pass over the first `k` saved browser windows: which reported
/// windows are used, and the pick of each saved browser window.
pub struct TitlePass {
    pub used: Seq<bool>,
    pub pick: Seq<Option<int>>,
}

pub open spec fn title_pass(ws: Seq<WindowSnapshot>, browser: Seq<char>, cw: Seq<ChromeWindowTabs>, k: int) -> TitlePass
    decreases k,
{
    if k <= 0 {
        TitlePass { used: Seq::new(cw.len(), |c: int| false), pick: seq![] }
    } else {
        let prev = title_pass(ws, browser, cw, k - 1);
        let slots = chrome_slots(ws, browser, ws.len() as int);
        match best_chrome(ws, cw, prev.used, slots[k - 1], cw.len() as int) {
            Some(c) => TitlePass { used: prev.used.update(c, true), pick: prev.pick.push(Some(c)) },
            None => TitlePass { used: prev.used, pick: prev.pick.push(None) },
        }
    }
}

/// The reported windows among the first `n` that no title matched, in order.
pub open spec fn free_chrome(used: Seq<bool>, n: int) -> Seq<int>
    decreases n,
{
    if n <= 0 {
        seq![]
    } else if !used[n - 1] {
        free_chrome(used, n - 1).push(n - 1)
    } else {
        free_chrome(used, n - 1)
    }
}

/// The order pass over the first `k` saved browser windows: unmatched ones
/// take the free reported windows front to back. Returns the final picks
/// and how many free windows were taken.
pub open spec fn order_pass(pick: Seq<Option<int>>, free: Seq<int>, k: int) -> (Seq<Option<int>>, int)
    decreases k,
{
    if k <= 0 {
        (seq![], 0)
    } else {
        let (prev, taken) = order_pass(pick, free, k - 1);
        if pick[k - 1] is Some {
            (prev.push(pick[k - 1]), taken)
        } else if taken < free.len() {
            (prev.push(Some(free[taken])), taken + 1)
        } else {
            (prev.push(None), taken)
        }
    }
}

/// The reported window whose tabs each saved browser window gets, in the
/// order of `chrome_slots`.
pub open spec fn tab_assignment(ws: Seq<WindowSnapshot>, browser: Seq<char>, cw: Seq<ChromeWindowTabs>) -> Seq<Option<int>> {
    let slots = chrome_slots(ws, browser, ws.len() as int);
    let tp = title_pass(ws, browser, cw, slots.len() as int);
    order_pass(tp.pick, free_chrome(tp.used, cw.len() as int), slots.len() as int).0
}

/// An optional position is below `n`.
pub open spec fn opt_in_range(o: Option<int>, n: int) -> bool {
    match o {
        Some(c) => 0 <= c < n,
        None => true,
    }
}

/// The windows are the same but for their tabs.
pub open spec fn same_but_tabs(a: Seq<WindowSnapshot>, b: Seq<WindowSnapshot>) -> bool {
    a.len() == b.len() && forall|i: int| 0 <= i < a.len() ==> (#[trigger] b[i]) == (WindowSnapshot {
        browser_tabs: b[i].browser_tabs,
        ..a[i]
    })
}

proof fn lemma_slots_props(ws: Seq<WindowSnapshot>, browser: Seq<char>, n: int)
    requires
        0 <= n <= ws.len(),
    ensures
        forall|s: int| 0 <= s < chrome_slots(ws, browser, n).len() ==> 0 <= #[trigger] chrome_slots(ws, browser, n)[s] < n
            && opt_view(ws[chrome_slots(ws, browser, n)[s]].bundle_id) == Some(browser),
        forall|s: int, t: int| 0 <= s < t < chrome_slots(ws, browser, n).len() ==> #[trigger] chrome_slots(ws, browser, n)[s]
            < #[trigger] chrome_slots(ws, browser, n)[t],
        forall|i: int| 0 <= i < n && opt_view(ws[i].bundle_id) == Some(browser) ==> #[trigger] chrome_slots(
            ws, browser,
            n,
        ).contains(i),
        chrome_slots(ws, browser, n).len() <= n,
    decreases n,
{
    if n > 0 {
        lemma_slots_props(ws, browser, n - 1);
        let prev = chrome_slots(ws, browser, n - 1);
        let cur = chrome_slots(ws, browser, n);
        if opt_view(ws[n - 1].bundle_id) == Some(browser) {
            assert(cur == prev.push(n - 1));
            assert forall|i: int| 0 <= i < n && opt_view(ws[i].bundle_id) == Some(browser) implies #[trigger] cur.contains(i) by {
                if i < n - 1 {
                    assert(prev.contains(i));
                    let s = choose|s: int| 0 <= s < prev.len() && prev[s] == i;
                    assert(cur[s] == i);
                } else {
                    assert(cur[prev.len() as int] == i);
                }
            }
        } else {
            assert forall|i: int| 0 <= i < n && opt_view(ws[i].bundle_id) == Some(browser) implies #[trigger] cur.contains(i) by {
                assert(i < n - 1);
            }
        }
    }
}

proof fn lemma_best_chrome_bounds(ws: Seq<WindowSnapshot>, cw: Seq<ChromeWindowTabs>, used: Seq<bool>, w: int, n: int)
    ensures
        best_chrome(ws, cw, used, w, n) matches Some(c) ==> 0 <= c < n && !used[c],
    decreases n,
{
    if n > 0 {
        lemma_best_chrome_bounds(ws, cw, used, w, n - 1);
    }
}

proof fn lemma_title_pass_shape(ws: Seq<WindowSnapshot>, browser: Seq<char>, cw: Seq<ChromeWindowTabs>, k: int)
    requires
        0 <= k,
    ensures
        title_pass(ws, browser, cw, k).used.len() == cw.len(),
        title_pass(ws, browser, cw, k).pick.len() == k,
        forall|s: int| 0 <= s < k ==> opt_in_range(#[trigger] title_pass(ws, browser, cw, k).pick[s], cw.len() as int),
    decreases k,
{
    if k > 0 {
        lemma_title_pass_shape(ws, browser, cw, k - 1);
        let prev = title_pass(ws, browser, cw, k - 1);
        let slots = chrome_slots(ws, browser, ws.len() as int);
        lemma_best_chrome_bounds(ws, cw, prev.used, slots[k - 1], cw.len() as int);
        let cur = title_pass(ws, browser, cw, k);
        assert forall|s: int| 0 <= s < k implies opt_in_range(#[trigger] cur.pick[s], cw.len() as int) by {
            if s < k - 1 {
                assert(cur.pick[s] == prev.pick[s]);
            }
        }
    }
}

proof fn lemma_free_props(used: Seq<bool>, n: int)
    requires
        0 <= n <= used.len(),
    ensures
        forall|j: int| 0 <= j < free_chrome(used, n).len() ==> 0 <= #[trigger] free_chrome(used, n)[j] < n,
        free_chrome(used, n).len() <= n,
    decreases n,
{
    if n > 0 {
        lemma_free_props(used, n - 1);
    }
}

proof fn lemma_order_pass_shape(pick: Seq<Option<int>>, free: Seq<int>, k: int, bound: int)
    requires
        0 <= k <= pick.len(),
        forall|s: int| 0 <= s < pick.len() ==> opt_in_range(#[trigger] pick[s], bound),
        forall|j: int| 0 <= j < free.len() ==> 0 <= #[trigger] free[j] < bound,
    ensures
        order_pass(pick, free, k).0.len() == k,
        0 <= order_pass(pick, free, k).1 <= free.len(),
        forall|s: int| 0 <= s < k ==> opt_in_range(#[trigger] order_pass(pick, free, k).0[s], bound),
    decreases k,
{
    if k > 0 {
        lemma_order_pass_shape(pick, free, k - 1, bound);
        let (prev, taken) = order_pass(pick, free, k - 1);
        let cur = order_pass(pick, free, k).0;
        assert forall|s: int| 0 <= s < k implies opt_in_range(#[trigger] cur[s], bound) by {
            if s < k - 1 {
                assert(cur[s] == prev[s]);
            }
        }
    }
}

fn chrome_title_ref(c: &ChromeWindowTabs) -> (r: Option<&str>)
    ensures
        match r {
            Some(t) => opt_view(c.title) == Some(t@),
            None => c.title is None,
        },
{
    match &c.title {
        Some(t) => Some(t.as_str()),
        None => None,
    }
}

/// Attaches the windows that the browser `bundle_id` reports, with their
/// tabs, to the saved windows of that browser: first by
/// title (only on a real title match, best score first, the later reported
/// window on a tie), then the remaining saved windows take the remaining
/// reported windows front to back. Both lists are ordered front to back.
pub fn assign_browser_tabs(windows: &mut Vec<WindowSnapshot>, bundle_id: &str, chrome_windows: &Vec<ChromeWindowTabs>)
    ensures
        same_but_tabs(old(windows)@, final(windows)@),
        forall|i: int| 0 <= i < old(windows).len() && !chrome_slots(
            old(windows)@, bundle_id@,
            old(windows)@.len() as int,
        ).contains(i) ==> (#[trigger] final(windows)@[i]).browser_tabs@ == old(windows)@[i].browser_tabs@,
        forall|s: int| 0 <= s < chrome_slots(old(windows)@, bundle_id@, old(windows)@.len() as int).len() ==> ({
            let i = #[trigger] chrome_slots(old(windows)@, bundle_id@, old(windows)@.len() as int)[s];
            match tab_assignment(old(windows)@, bundle_id@, chrome_windows@)[s] {
                Some(c) => final(windows)@[i].browser_tabs@ == chrome_windows@[c].tabs@,
                None => final(windows)@[i].browser_tabs@ == old(windows)@[i].browser_tabs@,
            }
        }),
{
    let ghost ws0 = windows@;
    let ghost cw = chrome_windows@;
    // Saved browser windows, in order.
    let mut slots: Vec<usize> = Vec::new();
    let mut i: usize = 0;
    while i < windows.len()
        invariant
            i <= windows.len(),
            windows@ == ws0,
            slots@.map_values(|x: usize| x as int) == chrome_slots(ws0, bundle_id@, i as int),
        decreases windows.len() - i,
    {
        let ghost before = slots@;
        if opt_str_eq(&windows[i].bundle_id, bundle_id) {
            slots.push(i);
            assert(slots@.map_values(|x: usize| x as int) =~= before.map_values(|x: usize| x as int).push(i as int));
        }
        i = i + 1;
    }
    let ghost sl = chrome_slots(ws0, bundle_id@, ws0.len() as int);
    proof {
        lemma_slots_props(ws0, bundle_id@, ws0.len() as int);
    }
    assert forall|s: int| 0 <= s < slots.len() implies #[trigger] slots@[s] as int == sl[s] by {
        assert(slots@.map_values(|x: usize| x as int)[s] == slots@[s] as int);
    }
    // Title pass.
    let mut used: Vec<bool> = Vec::new();
    let mut c0: usize = 0;
    while c0 < chrome_windows.len()
        invariant
            c0 <= chrome_windows.len(),
            used@ == Seq::new(c0 as nat, |c: int| false),
        decreases chrome_windows.len() - c0,
    {
        used.push(false);
        assert(used@ =~= Seq::new((c0 + 1) as nat, |c: int| false));
        c0 = c0 + 1;
    }
    let mut pick: Vec<Option<usize>> = Vec::new();
    let mut k: usize = 0;
    while k < slots.len()
        invariant
            k <= slots.len(),
            windows@ == ws0,
            cw == chrome_windows@,
            sl == chrome_slots(ws0, bundle_id@, ws0.len() as int),
            slots.len() == sl.len(),
            forall|s: int| 0 <= s < slots.len() ==> #[trigger] slots@[s] as int == sl[s],
            forall|s: int| 0 <= s < sl.len() ==> 0 <= #[trigger] sl[s] < ws0.len(),
            used@ == title_pass(ws0, bundle_id@, cw, k as int).used,
            pick@.map_values(|o: Option<usize>| match o { Some(x) => Some(x as int), None => None })
                == title_pass(ws0, bundle_id@, cw, k as int).pick,
        decreases slots.len() - k,
    {
        proof {
            lemma_title_pass_shape(ws0, bundle_id@, cw, k as int);
        }
        let w = slots[k];
        let mut best: Option<usize> = None;
        let mut best_score: i32 = 0;
        let mut c: usize = 0;
        while c < chrome_windows.len()
            invariant
                c <= chrome_windows.len(),
                w < windows.len(),
                windows@ == ws0,
                cw == chrome_windows@,
                used@.len() == cw.len(),
                match best {
                    Some(b) => best_chrome(ws0, cw, used@, w as int, c as int) == Some(b as int)
                        && best_score == tab_score(ws0, cw, w as int, b as int),
                    None => best_chrome(ws0, cw, used@, w as int, c as int) is None,
                },
            decreases chrome_windows.len() - c,
        {
            if !used[c] {
                let score = chrome_tab_match_score(&windows[w], chrome_title_ref(&chrome_windows[c]));
                if score > 0 {
                    match best {
                        Some(_) => {
                            if best_score <= score {
                                best = Some(c);
                                best_score = score;
                            }
                        },
                        None => {
                            best = Some(c);
                            best_score = score;
                        },
                    }
                }
            }
            c = c + 1;
        }
        proof {
            lemma_best_chrome_bounds(ws0, cw, used@, w as int, cw.len() as int);
        }
        let ghost pk = pick@;
        match best {
            Some(b) => {
                used.set(b, true);
                pick.push(Some(b));
            },
            None => {
                pick.push(None);
            },
        }
        assert(pick@.map_values(|o: Option<usize>| match o { Some(x) => Some(x as int), None => None })
            =~= pk.map_values(|o: Option<usize>| match o { Some(x) => Some(x as int), None => None }).push(
            match best { Some(b) => Some(b as int), None => None },
        ));
        k = k + 1;
    }
    proof {
        lemma_title_pass_shape(ws0, bundle_id@, cw, sl.len() as int);
    }
    let ghost tp = title_pass(ws0, bundle_id@, cw, sl.len() as int);
    // Free reported windows, front to back.
    let mut free: Vec<usize> = Vec::new();
    let mut c1: usize = 0;
    while c1 < chrome_windows.len()
        invariant
            c1 <= chrome_windows.len(),
            used@ == tp.used,
            tp.used.len() == cw.len(),
            cw == chrome_windows@,
            free@.map_values(|x: usize| x as int) == free_chrome(tp.used, c1 as int),
        decreases chrome_windows.len() - c1,
    {
        let ghost before = free@;
        if !used[c1] {
            free.push(c1);
            assert(free@.map_values(|x: usize| x as int) =~= before.map_values(|x: usize| x as int).push(c1 as int));
        }
        c1 = c1 + 1;
    }
    let ghost fr = free_chrome(tp.used, cw.len() as int);
    proof {
        lemma_free_props(tp.used, cw.len() as int);
        lemma_order_pass_shape(tp.pick, fr, sl.len() as int, cw.len() as int);
    }
    assert forall|j: int| 0 <= j < free.len() implies #[trigger] free@[j] as int == fr[j] by {
        assert(free@.map_values(|x: usize| x as int)[j] == free@[j] as int);
    }
    assert forall|s: int| 0 <= s < pick.len() implies (match #[trigger] pick@[s] {
        Some(x) => tp.pick[s] == Some(x as int),
        None => tp.pick[s] is None,
    }) by {
        assert(pick@.map_values(|o: Option<usize>| match o { Some(x) => Some(x as int), None => None })[s]
            == tp.pick[s]);
    }
    // Attach: title picks, then the free windows in order.
    let ghost fin = order_pass(tp.pick, fr, sl.len() as int).0;
    let mut taken: usize = 0;
    let mut s: usize = 0;
    while s < slots.len()
        invariant
            s <= slots.len(),
            cw == chrome_windows@,
            sl == chrome_slots(ws0, bundle_id@, ws0.len() as int),
            slots.len() == sl.len(),
            pick.len() == sl.len(),
            tp.pick.len() == sl.len(),
            forall|q: int| 0 <= q < slots.len() ==> #[trigger] slots@[q] as int == sl[q],
            forall|q: int| 0 <= q < sl.len() ==> 0 <= #[trigger] sl[q] < ws0.len(),
            forall|q: int, t: int| 0 <= q < t < sl.len() ==> #[trigger] sl[q] < #[trigger] sl[t],
            forall|q: int| 0 <= q < pick.len() ==> (match #[trigger] pick@[q] {
                Some(x) => tp.pick[q] == Some(x as int),
                None => tp.pick[q] is None,
            }),
            forall|j: int| 0 <= j < free.len() ==> #[trigger] free@[j] as int == fr[j],
            forall|j: int| 0 <= j < fr.len() ==> 0 <= #[trigger] fr[j] < cw.len(),
            forall|q: int| 0 <= q < tp.pick.len() ==> opt_in_range(#[trigger] tp.pick[q], cw.len() as int),
            free.len() == fr.len(),
            taken as int == order_pass(tp.pick, fr, s as int).1,
            fin == order_pass(tp.pick, fr, sl.len() as int).0,
            same_but_tabs(ws0, windows@),
            forall|i: int| 0 <= i < ws0.len() && !(exists|q: int| 0 <= q < s && sl[q] == i) ==> (
            #[trigger] windows@[i]).browser_tabs@ == ws0[i].browser_tabs@,
            forall|q: int| 0 <= q < s ==> match #[trigger] order_pass(tp.pick, fr, s as int).0[q] {
                Some(c) => windows@[sl[q]].browser_tabs@ == cw[c].tabs@,
                None => windows@[sl[q]].browser_tabs@ == ws0[sl[q]].browser_tabs@,
            },
        decreases slots.len() - s,
    {
        proof {
            lemma_order_pass_shape(tp.pick, fr, s as int, cw.len() as int);
            lemma_order_pass_shape(tp.pick, fr, s + 1, cw.len() as int);
        }
        let ghost prev_pass = order_pass(tp.pick, fr, s as int).0;
        let ghost next_pass = order_pass(tp.pick, fr, s + 1).0;
        assert(next_pass.drop_last() =~= prev_pass);
        let w = slots[s];
        let ghost before = windows@;
        let choice: Option<usize> = match pick[s] {
            Some(c) => Some(c),
            None => {
                if taken < free.len() {
                    let c = free[taken];
                    taken = taken + 1;
                    Some(c)
                } else {
                    None
                }
            },
        };
        match choice {
            Some(c) => {
                let tabs = copy_tabs(&chrome_windows[c].tabs);
                windows[w].browser_tabs = tabs;
            },
            None => {},
        }
        proof {
            assert forall|q: int| 0 <= q < s + 1 implies match #[trigger] next_pass[q] {
                Some(c) => windows@[sl[q]].browser_tabs@ == cw[c].tabs@,
                None => windows@[sl[q]].browser_tabs@ == ws0[sl[q]].browser_tabs@,
            } by {
                if q < s {
                    assert(next_pass[q] == prev_pass[q]);
                    assert(sl[q] < sl[s as int]);
                    assert(windows@[sl[q]] == before[sl[q]]);
                }
            }
            assert forall|i: int| 0 <= i < ws0.len() && !(exists|q: int| 0 <= q < s + 1 && sl[q] == i) implies (
            #[trigger] windows@[i]).browser_tabs@ == ws0[i].browser_tabs@ by {
                assert(sl[s as int] != i);
                assert(!(exists|q: int| 0 <= q < s && sl[q] == i));
            }
        }
        s = s + 1;
    }
    proof {
        assert forall|i: int| 0 <= i < ws0.len() && !sl.contains(i) implies (#[trigger] windows@[i]).browser_tabs@
            == ws0[i].browser_tabs@ by {
            if exists|q: int| 0 <= q < sl.len() && sl[q] == i {
                let q = choose|q: int| 0 <= q < sl.len() && sl[q] == i;
                assert(sl.contains(i));
            }
        }
    }
}


/// Attaches the tabs of the windows that Google Chrome reports to its saved
/// windows, as `assign_browser_tabs` does.
pub fn assign_chrome_tabs(windows: &mut Vec<WindowSnapshot>, chrome_windows: &Vec<ChromeWindowTabs>)
    ensures
        same_but_tabs(old(windows)@, final(windows)@),
        forall|i: int| 0 <= i < old(windows).len() && !chrome_slots(
            old(windows)@,
            chrome_bundle(),
            old(windows)@.len() as int,
        ).contains(i) ==> (#[trigger] final(windows)@[i]).browser_tabs@ == old(windows)@[i].browser_tabs@,
        forall|s: int| 0 <= s < chrome_slots(old(windows)@, chrome_bundle(), old(windows)@.len() as int).len() ==> ({
            let i = #[trigger] chrome_slots(old(windows)@, chrome_bundle(), old(windows)@.len() as int)[s];
            match tab_assignment(old(windows)@, chrome_bundle(), chrome_windows@)[s] {
                Some(c) => final(windows)@[i].browser_tabs@ == chrome_windows@[c].tabs@,
                None => final(windows)@[i].browser_tabs@ == old(windows)@[i].browser_tabs@,
            }
        }),
{
    assign_browser_tabs(windows, "com.google.Chrome", chrome_windows);
}

/// The stacking keys of a list of windows.
pub open spec fn z_keys(ws: Seq<WindowSnapshot>) -> Seq<u32> {
    ws.map_values(|w: WindowSnapshot| z_key(w))
}

/// `r` holds the windows of `ws` in the order `p` gives, each with the same
/// fields (tabs compared by their contents).
pub open spec fn reordered(ws: Seq<WindowSnapshot>, p: Seq<usize>, r: Seq<WindowSnapshot>) -> bool {
    r.len() == p.len() && forall|k: int| 0 <= k < r.len() ==> (#[trigger] r[k]) == (WindowSnapshot {
        browser_tabs: r[k].browser_tabs,
        ..ws[p[k] as int]
    }) && r[k].browser_tabs@ == ws[p[k] as int].browser_tabs@
}

/// The positions of captured windows front to back: ascending z-order,
/// windows without one last, equal z-orders kept in capture order.
pub fn front_to_back_order(windows: &Vec<WindowSnapshot>) -> (p: Vec<usize>)
    ensures
        is_permutation(p@, windows.len() as nat),
        stably_sorted(z_keys(windows@), p@),
{
    let mut keys: Vec<u32> = Vec::new();
    let mut i: usize = 0;
    while i < windows.len()
        invariant
            i <= windows.len(),
            keys@ == z_keys(windows@).subrange(0, i as int),
        decreases windows.len() - i,
    {
        let key = match windows[i].z_order {
            Some(z) => z,
            None => u32::MAX,
        };
        keys.push(key);
        assert(keys@ =~= z_keys(windows@).subrange(0, i + 1));
        i = i + 1;
    }
    assert(keys@ =~= z_keys(windows@));
    stable_order_by_key(&keys)
}

/// Captured windows front to back: ascending z-order, windows without one
/// last, equal z-orders kept in capture order.
pub fn order_front_to_back(windows: &Vec<WindowSnapshot>) -> (r: Vec<WindowSnapshot>)
    ensures
        exists|p: Seq<usize>| is_permutation(p, windows.len() as nat) && stably_sorted(z_keys(windows@), p)
            && reordered(windows@, p, r@),
{
    let order = front_to_back_order(windows);
    let mut out: Vec<WindowSnapshot> = Vec::new();
    let mut k: usize = 0;
    while k < order.len()
        invariant
            k <= order.len(),
            is_permutation(order@, windows.len() as nat),
            out.len() == k,
            forall|q: int| 0 <= q < k ==> (#[trigger] out@[q]) == (WindowSnapshot {
                browser_tabs: out@[q].browser_tabs,
                ..windows@[order@[q] as int]
            }) && out@[q].browser_tabs@ == windows@[order@[q] as int].browser_tabs@,
        decreases order.len() - k,
    {
        let w = copy_window(&windows[order[k]]);
        out.push(w);
        k = k + 1;
    }
    proof {
        assert(reordered(windows@, order@, out@));
    }
    out
}

/// The captured windows front to back, with browser tabs attached.
pub fn arrange_captured_windows(windows: &Vec<WindowSnapshot>, chrome_windows: &Vec<ChromeWindowTabs>) -> (r: Vec<
    WindowSnapshot,
>)
    ensures
        exists|ordered: Seq<WindowSnapshot>, p: Seq<usize>| #![trigger reordered(windows@, p, ordered)]
            is_permutation(p, windows.len() as nat) && stably_sorted(z_keys(windows@), p) && reordered(
            windows@,
            p,
            ordered,
        ) && same_but_tabs(ordered, r@) && forall|s: int| 0 <= s < chrome_slots(ordered, chrome_bundle(), ordered.len() as int).len()
            ==> ({
            let i = #[trigger] chrome_slots(ordered, chrome_bundle(), ordered.len() as int)[s];
            match tab_assignment(ordered, chrome_bundle(), chrome_windows@)[s] {
                Some(c) => r@[i].browser_tabs@ == chrome_windows@[c].tabs@,
                None => r@[i].browser_tabs@ == ordered[i].browser_tabs@,
            }
        }),
{
    let mut ordered = order_front_to_back(windows);
    let ghost before = ordered@;
    assign_chrome_tabs(&mut ordered, chrome_windows);
    ordered
}

} // verus!

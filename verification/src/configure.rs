//! Choosing which saved windows a restore brings back.
//!
//! Windows are enabled or disabled by index from the command line, or by an
//! interactive selection that the caller runs when no index is given.

use vstd::prelude::*;

use crate::error::WorkspaceError;
use crate::model::{WindowSnapshot, WorkspaceSnapshot};
use crate::text::{clone_opt, concat_str, decimal, push_decimal, string_of};

verus! {

/// One window of a configuration report.
#[derive(Debug, Clone, PartialEq, Eq)]
pub struct ConfiguredWindow {
    pub index: usize,
    pub enabled: bool,
    pub app_name: String,
    pub title: Option<String>,
    pub bundle_id: Option<String>,
}

/// Which windows of a snapshot are enabled.
#[derive(Debug, Clone, PartialEq, Eq)]
pub struct ConfigureReport {
    pub snapshot: String,
    pub enabled: usize,
    pub disabled: usize,
    pub windows: Vec<ConfiguredWindow>,
}

/// What `configure` was asked to do.
#[derive(Debug, Clone, Default, PartialEq, Eq)]
pub struct ConfigureRequest {
    /// Only list the windows.
    pub list: bool,
    pub enable: Vec<usize>,
    pub disable: Vec<usize>,
}

impl ConfigureRequest {
    /// Indices to enable or disable were given.
    pub fn has_explicit_changes(&self) -> (r: bool)
        ensures
            r == (self.enable.len() > 0 || self.disable.len() > 0),
    {
        self.enable.len() > 0 || self.disable.len() > 0
    }
}

/// What came of a configuration request.
#[derive(Debug, Clone, Copy, PartialEq, Eq, Structural)]
pub enum ConfigureOutcome {
    /// Nothing was changed.
    Unchanged,
    /// The requested windows were enabled and disabled.
    Changed,
    /// No index was given and there are windows: the user picks the enabled
    /// windows interactively, and the pick is applied with `apply_selection`.
    NeedsSelection,
}

/// The windows are the same but for their enabled flags.
pub open spec fn same_but_enabled(a: Seq<WindowSnapshot>, b: Seq<WindowSnapshot>) -> bool {
    a.len() == b.len() && forall|i: int| 0 <= i < a.len() ==> (#[trigger] b[i]) == (WindowSnapshot {
        enabled: b[i].enabled,
        ..a[i]
    })
}

/// The first index of `enable` then `disable` that is out of range.
pub open spec fn first_out_of_range(enable: Seq<usize>, disable: Seq<usize>, n: nat) -> Option<usize> {
    let all = enable + disable;
    if exists|k: int| 0 <= k < all.len() && all[k] >= n {
        let k = choose|k: int| 0 <= k < all.len() && all[k] >= n && forall|j: int| 0 <= j < k ==> all[j] < n;
        Some(all[k])
    } else {
        None
    }
}

/// The message for an index that names no window.
pub open spec fn out_of_range_message(index: usize, name: Seq<char>) -> Seq<char> {
    "window index "@ + decimal(index as nat) + " is out of range; run 'workspace configure "@ + name
        + " --list'"@
}

/// The enabled flag of window `i` after enabling `enable` and then
/// disabling `disable`.
pub open spec fn flag_after(old: bool, i: int, enable: Seq<usize>, disable: Seq<usize>) -> bool {
    if disable.contains(i as usize) {
        false
    } else if enable.contains(i as usize) {
        true
    } else {
        old
    }
}

proof fn lemma_first_index(all: Seq<usize>, n: nat, k0: int)
    requires
        0 <= k0 < all.len(),
        all[k0] >= n,
        forall|j: int| 0 <= j < k0 ==> all[j] < n,
    ensures
        (choose|k: int| 0 <= k < all.len() && all[k] >= n && forall|j: int| 0 <= j < k ==> all[j] < n) == k0,
{
    let k = choose|k: int| 0 <= k < all.len() && all[k] >= n && forall|j: int| 0 <= j < k ==> all[j] < n;
    assert(0 <= k < all.len() && all[k] >= n && forall|j: int| 0 <= j < k ==> all[j] < n);
    if k < k0 {
        assert(all[k] < n);
    }
    if k0 < k {
        assert(all[k0] < n);
    }
}

fn out_of_range_error(index: usize, name: &str) -> (e: WorkspaceError)
    ensures
        e matches WorkspaceError::Interaction(m) && m@ == out_of_range_message(index, name@),
{
    let mut m = string_of("window index ");
    push_decimal(&mut m, index as u64);
    let m = concat_str(m.as_str(), " is out of range; run 'workspace configure ");
    let m = concat_str(m.as_str(), name);
    let m = concat_str(m.as_str(), " --list'");
    WorkspaceError::Interaction(m)
}

/// Enables the windows in `enable`, then disables those in `disable`; when
/// an index names no window nothing is changed and the first such index, in
/// `enable` then `disable` order, is reported.
pub fn apply_index_changes(snapshot: &mut WorkspaceSnapshot, enable: &[usize], disable: &[usize]) -> (r: Result<
    (),
    WorkspaceError,
>)
    ensures
        match first_out_of_range(enable@, disable@, old(snapshot).windows.len() as nat) {
            Some(index) => r matches Err(WorkspaceError::Interaction(m)) && m@ == out_of_range_message(
                index,
                old(snapshot).name@,
            ) && *final(snapshot) == *old(snapshot),
            None => r is Ok && final(snapshot).name == old(snapshot).name && final(snapshot).version
                == old(snapshot).version && final(snapshot).host == old(snapshot).host
                && same_but_enabled(old(snapshot).windows@, final(snapshot).windows@) && forall|i: int|
                0 <= i < old(snapshot).windows.len() ==> (#[trigger] final(snapshot).windows@[i]).enabled
                == flag_after(old(snapshot).windows@[i].enabled, i, enable@, disable@),
        },
{
    let n = snapshot.windows.len();
    let ghost all = enable@ + disable@;
    let mut k: usize = 0;
    while k < enable.len()
        invariant
            n == snapshot.windows.len(),
            *snapshot == *old(snapshot),
            all == enable@ + disable@,
            k <= enable.len(),
            forall|j: int| 0 <= j < k ==> all[j] < n,
        decreases enable.len() - k,
    {
        let index = enable[k];
        assert(index == all[k as int]);
        if index >= n {
            proof {
                lemma_first_index(all, n as nat, k as int);
            }
            return Err(out_of_range_error(index, snapshot.name.as_str()));
        }
        k = k + 1;
    }
    let mut k2: usize = 0;
    while k2 < disable.len()
        invariant
            n == snapshot.windows.len(),
            *snapshot == *old(snapshot),
            all == enable@ + disable@,
            k2 <= disable.len(),
            forall|j: int| 0 <= j < enable.len() + k2 ==> all[j] < n,
        decreases disable.len() - k2,
    {
        let index = disable[k2];
        assert(index == all[enable.len() + k2]);
        if index >= n {
            proof {
                lemma_first_index(all, n as nat, enable.len() + k2);
            }
            return Err(out_of_range_error(index, snapshot.name.as_str()));
        }
        k2 = k2 + 1;
    }
    let ghost w0 = snapshot.windows@;
    let mut i: usize = 0;
    while i < enable.len()
        invariant
            i <= enable.len(),
            n == snapshot.windows.len(),
            n == w0.len(),
            w0 == old(snapshot).windows@,
            snapshot.name == old(snapshot).name,
            snapshot.version == old(snapshot).version,
            snapshot.host == old(snapshot).host,
            all == enable@ + disable@,
            forall|j: int| 0 <= j < all.len() ==> all[j] < n,
            same_but_enabled(w0, snapshot.windows@),
            forall|p: int| 0 <= p < n ==> (#[trigger] snapshot.windows@[p]).enabled == (if enable@.subrange(
                0,
                i as int,
            ).contains(p as usize) {
                true
            } else {
                w0[p].enabled
            }),
        decreases enable.len() - i,
    {
        let index = enable[i];
        assert(all[i as int] == index);
        snapshot.windows[index].enabled = true;
        proof {
            let pre = enable@.subrange(0, i as int);
            let nxt = enable@.subrange(0, i + 1);
            assert(nxt =~= pre.push(index));
            assert forall|p: int| 0 <= p < n implies (#[trigger] snapshot.windows@[p]).enabled == (
            if nxt.contains(p as usize) {
                true
            } else {
                w0[p].enabled
            }) by {
                if pre.contains(p as usize) {
                    let q = choose|q: int| 0 <= q < pre.len() && #[trigger] pre[q] == p as usize;
                    assert(nxt[q] == p as usize);
                }
                if nxt.contains(p as usize) && p != index {
                    let q = choose|q: int| 0 <= q < nxt.len() && #[trigger] nxt[q] == p as usize;
                    assert(q != i);
                    assert(pre[q] == p as usize);
                }
                if p == index {
                    assert(nxt[i as int] == index);
                }
            }
        }
        i = i + 1;
    }
    assert(enable@.subrange(0, enable.len() as int) =~= enable@);
    assert(disable@.subrange(0, 0) =~= Seq::<usize>::empty());
    assert forall|p: int| 0 <= p < n implies (#[trigger] snapshot.windows@[p]).enabled == (if disable@.subrange(
        0,
        0,
    ).contains(p as usize) {
        false
    } else if enable@.contains(p as usize) {
        true
    } else {
        w0[p].enabled
    }) by {
        assert(!disable@.subrange(0, 0).contains(p as usize));
    }
    let mut d: usize = 0;
    while d < disable.len()
        invariant
            d <= disable.len(),
            n == snapshot.windows.len(),
            n == w0.len(),
            w0 == old(snapshot).windows@,
            snapshot.name == old(snapshot).name,
            snapshot.version == old(snapshot).version,
            snapshot.host == old(snapshot).host,
            all == enable@ + disable@,
            forall|j: int| 0 <= j < all.len() ==> all[j] < n,
            same_but_enabled(w0, snapshot.windows@),
            forall|p: int| 0 <= p < n ==> (#[trigger] snapshot.windows@[p]).enabled == (if disable@.subrange(
                0,
                d as int,
            ).contains(p as usize) {
                false
            } else if enable@.contains(p as usize) {
                true
            } else {
                w0[p].enabled
            }),
        decreases disable.len() - d,
    {
        let index = disable[d];
        assert(all[enable.len() + d] == index);
        snapshot.windows[index].enabled = false;
        proof {
            let pre = disable@.subrange(0, d as int);
            let nxt = disable@.subrange(0, d + 1);
            assert(nxt =~= pre.push(index));
            assert forall|p: int| 0 <= p < n implies (#[trigger] snapshot.windows@[p]).enabled == (
            if nxt.contains(p as usize) {
                false
            } else if enable@.contains(p as usize) {
                true
            } else {
                w0[p].enabled
            }) by {
                if pre.contains(p as usize) {
                    let q = choose|q: int| 0 <= q < pre.len() && #[trigger] pre[q] == p as usize;
                    assert(nxt[q] == p as usize);
                }
                if nxt.contains(p as usize) && p != index {
                    let q = choose|q: int| 0 <= q < nxt.len() && #[trigger] nxt[q] == p as usize;
                    assert(q != d);
                    assert(pre[q] == p as usize);
                }
                if p == index {
                    assert(nxt[d as int] == index);
                }
            }
        }
        d = d + 1;
    }
    assert(disable@.subrange(0, disable.len() as int) =~= disable@);
    proof {
        assert forall|k: int| 0 <= k < all.len() implies all[k] < n by {
            if k >= enable.len() {
                assert(all[k] == disable@[k - enable.len()]);
            }
        }
        assert(!(exists|k: int| 0 <= k < all.len() && all[k] >= n));
        assert(first_out_of_range(enable@, disable@, old(snapshot).windows.len() as nat) is None);
        assert forall|i: int| 0 <= i < old(snapshot).windows.len() implies (#[trigger] snapshot.windows@[i]).enabled
            == flag_after(old(snapshot).windows@[i].enabled, i, enable@, disable@) by {
        }
    }
    Ok(())
}

/// Enables exactly the windows whose index is selected.
pub fn apply_selection(snapshot: &mut WorkspaceSnapshot, selected: &[usize])
    ensures
        final(snapshot).name == old(snapshot).name,
        final(snapshot).version == old(snapshot).version,
        final(snapshot).host == old(snapshot).host,
        same_but_enabled(old(snapshot).windows@, final(snapshot).windows@),
        forall|i: int| 0 <= i < old(snapshot).windows.len() ==> (#[trigger] final(snapshot).windows@[i]).enabled
            == selected@.contains(i as usize),
{
    let ghost w0 = snapshot.windows@;
    let mut i: usize = 0;
    while i < snapshot.windows.len()
        invariant
            i <= snapshot.windows.len(),
            w0 == old(snapshot).windows@,
            snapshot.name == old(snapshot).name,
            snapshot.version == old(snapshot).version,
            snapshot.host == old(snapshot).host,
            snapshot.windows.len() == w0.len(),
            same_but_enabled(w0, snapshot.windows@),
            forall|p: int| 0 <= p < i ==> (#[trigger] snapshot.windows@[p]).enabled == selected@.contains(p as usize),
        decreases snapshot.windows.len() - i,
    {
        let mut found = false;
        let mut k: usize = 0;
        while k < selected.len()
            invariant
                k <= selected.len(),
                found == exists|q: int| 0 <= q < k && selected@[q] == i,
            decreases selected.len() - k,
        {
            if selected[k] == i {
                found = true;
            }
            k = k + 1;
        }
        proof {
            if selected@.contains(i) {
                let q = choose|q: int| 0 <= q < selected@.len() && selected@[q] == i;
                assert(found);
            }
        }
        snapshot.windows[i].enabled = found;
        i = i + 1;
    }
}

/// Number of windows whose enabled flag is `flag`.
pub open spec fn count_enabled(ws: Seq<ConfiguredWindow>, flag: bool) -> nat
    decreases ws.len(),
{
    if ws.len() == 0 {
        0
    } else {
        count_enabled(ws.drop_last(), flag) + if ws.last().enabled == flag { 1nat } else { 0nat }
    }
}

proof fn lemma_count_enabled_sum(ws: Seq<ConfiguredWindow>)
    ensures
        count_enabled(ws, true) + count_enabled(ws, false) == ws.len(),
    decreases ws.len(),
{
    if ws.len() > 0 {
        lemma_count_enabled_sum(ws.drop_last());
    }
}

/// The row of window `i` in a configuration report.
pub open spec fn configured_row(w: WindowSnapshot, i: int, row: ConfiguredWindow) -> bool {
    &&& row.index == i
    &&& row.enabled == w.enabled
    &&& row.app_name@ == w.app_name@
    &&& row.title == w.title
    &&& row.bundle_id == w.bundle_id
}

/// One row per window with its enabled flag, and the counts of enabled and
/// disabled windows.
pub fn report(snapshot: &WorkspaceSnapshot) -> (r: ConfigureReport)
    ensures
        r.snapshot@ == snapshot.name@,
        r.windows.len() == snapshot.windows.len(),
        forall|i: int| 0 <= i < snapshot.windows.len() ==> configured_row(
            snapshot.windows@[i],
            i,
            #[trigger] r.windows@[i],
        ),
        r.enabled == count_enabled(r.windows@, true),
        r.disabled == count_enabled(r.windows@, false),
        r.enabled + r.disabled == snapshot.windows.len(),
{
    let mut rows: Vec<ConfiguredWindow> = Vec::new();
    let mut enabled: usize = 0;
    let mut disabled: usize = 0;
    let mut i: usize = 0;
    while i < snapshot.windows.len()
        invariant
            i <= snapshot.windows.len(),
            rows.len() == i,
            forall|p: int| 0 <= p < i ==> configured_row(snapshot.windows@[p], p, #[trigger] rows@[p]),
            enabled == count_enabled(rows@, true),
            disabled == count_enabled(rows@, false),
            enabled + disabled == i,
        decreases snapshot.windows.len() - i,
    {
        let w = &snapshot.windows[i];
        let row = ConfiguredWindow {
            index: i,
            enabled: w.enabled,
            app_name: w.app_name.clone(),
            title: clone_opt(&w.title),
            bundle_id: clone_opt(&w.bundle_id),
        };
        let ghost before = rows@;
        rows.push(row);
        assert(rows@.drop_last() =~= before);
        proof {
            lemma_count_enabled_sum(before);
        }
        if w.enabled {
            enabled = enabled + 1;
        } else {
            disabled = disabled + 1;
        }
        i = i + 1;
    }
    proof {
        lemma_count_enabled_sum(rows@);
    }
    ConfigureReport { snapshot: snapshot.name.clone(), enabled, disabled, windows: rows }
}

/// Handles a request: listing changes nothing, explicit indices are applied,
/// and otherwise, when there are windows, the caller is asked to run the
/// interactive selection.
pub fn configure_snapshot(snapshot: &mut WorkspaceSnapshot, request: &ConfigureRequest) -> (r: Result<
    ConfigureOutcome,
    WorkspaceError,
>)
    ensures
        request.list ==> (r matches Ok(ConfigureOutcome::Unchanged) && *final(snapshot) == *old(snapshot)),
        !request.list && (request.enable.len() > 0 || request.disable.len() > 0) ==> match first_out_of_range(
            request.enable@,
            request.disable@,
            old(snapshot).windows.len() as nat,
        ) {
            Some(index) => (r matches Err(WorkspaceError::Interaction(m)) && m@ == out_of_range_message(
                index,
                old(snapshot).name@,
            ) && *final(snapshot) == *old(snapshot)),
            None => (r matches Ok(ConfigureOutcome::Changed)) && final(snapshot).name == old(snapshot).name
                && final(snapshot).version == old(snapshot).version && final(snapshot).host == old(snapshot).host
                && same_but_enabled(old(snapshot).windows@, final(snapshot).windows@) && forall|i: int| 0 <= i < old(snapshot).windows.len() ==> (#[trigger] final(snapshot).windows@[i]).enabled == flag_after(
                old(snapshot).windows@[i].enabled,
                i,
                request.enable@,
                request.disable@,
            ),
        },
        !request.list && request.enable.len() == 0 && request.disable.len() == 0 ==> *final(snapshot)
            == *old(snapshot) && (if old(snapshot).windows.len() == 0 {
            (r matches Ok(ConfigureOutcome::Unchanged))
        } else {
            (r matches Ok(ConfigureOutcome::NeedsSelection))
        }),
{
    if request.list {
        return Ok(ConfigureOutcome::Unchanged);
    }
    if request.has_explicit_changes() {
        match apply_index_changes(snapshot, request.enable.as_slice(), request.disable.as_slice()) {
            Ok(()) => {
                return Ok(ConfigureOutcome::Changed);
            },
            Err(e) => {
                return Err(e);
            },
        }
    }
    if snapshot.windows.len() == 0 {
        return Ok(ConfigureOutcome::Unchanged);
    }
    Ok(ConfigureOutcome::NeedsSelection)
}

/// The tab count shown after a window's label: nothing for no tab.
pub open spec fn spec_tab_suffix(count: usize) -> Seq<char> {
    if count == 0 {
        seq![]
    } else if count == 1 {
        "  1 tab"@
    } else {
        "  "@ + decimal(count as nat) + " tabs"@
    }
}

/// The tab count shown after a window's label.
pub fn tab_suffix(count: usize) -> (r: String)
    ensures
        r@ == spec_tab_suffix(count),
{
    if count == 0 {
        String::new()
    } else if count == 1 {
        string_of("  1 tab")
    } else {
        let mut s = string_of("  ");
        push_decimal(&mut s, count as u64);
        concat_str(s.as_str(), " tabs")
    }
}

} // verus!

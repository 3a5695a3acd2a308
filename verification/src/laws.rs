//! Properties of the library that span its functions.

use vstd::prelude::*;

use crate::capture::{best_chrome, chrome_slots, tab_score, free_chrome, opt_in_range, order_pass, tab_assignment,
    title_pass, ChromeWindowTabs};
use crate::execute::{count_status, JournalEntry, JournalStatus};
use crate::model::{z_key, WindowSnapshot};
use crate::order::{is_permutation, key_before, stably_sorted};
use crate::plan::PlanInput;
use crate::error::WorkspaceError;
use crate::restore::{
    follows_retry_rule, is_placement_run, jobs_upto, placement_run, spec_restore_gate, spec_restore_jobs,
    spec_retry_step, spec_window_outcome, PlacementCall, RestoreStatus, RetryStep, WINDOW_READY_WAIT_ATTEMPTS,
};
use crate::storage::{name_char, valid_name};
use crate::title::{spec_compare_titles, word_set};
use crate::verify::{best_live_upto, eligible, verify_upto};
use crate::world::{replay_key, restorable_indices};

verus! {

// ---------------------------------------------------------------------------
// Verification attributes each live window at most once
// ---------------------------------------------------------------------------

proof fn lemma_best_live_free(inp: PlanInput, consumed: Seq<bool>, a: int, n: int)
    ensures
        best_live_upto(inp, consumed, a, n) matches Some(c) ==> 0 <= c < n && !consumed[c],
    decreases n,
{
    if n > 0 {
        lemma_best_live_free(inp, consumed, a, n - 1);
    }
}

proof fn lemma_verify_consumed(inp: PlanInput, n: int)
    requires
        0 <= n,
        inp.live.len() <= usize::MAX,
    ensures
        verify_upto(inp, n).entries.len() == n,
        verify_upto(inp, n).consumed.len() == inp.live.len(),
        forall|k: int| 0 <= k < n && (#[trigger] verify_upto(inp, n).entries[k]).live_index is Some ==> (0
            <= verify_upto(inp, n).entries[k].live_index->0 < inp.live.len() && verify_upto(inp, n).consumed[verify_upto(
            inp,
            n,
        ).entries[k].live_index->0 as int]),
        forall|k1: int, k2: int| 0 <= k1 < k2 < n && (#[trigger] verify_upto(inp, n).entries[k1]).live_index is Some
            && (#[trigger] verify_upto(inp, n).entries[k2]).live_index is Some ==> verify_upto(inp, n).entries[k1].live_index
            != verify_upto(inp, n).entries[k2].live_index,
    decreases n,
{
    if n > 0 {
        lemma_verify_consumed(inp, n - 1);
        let prev = verify_upto(inp, n - 1);
        let cur = verify_upto(inp, n);
        let i = n - 1;
        lemma_best_live_free(inp, prev.consumed, i, inp.live.len() as int);
        assert(cur.entries.drop_last() =~= prev.entries);
        let pick = best_live_upto(inp, prev.consumed, i, inp.live.len() as int);
        let new_live: Option<int> = if crate::plan::spec_skip_reason(inp.windows[i]) is None { pick } else { None };
        assert(cur.entries[n - 1].live_index == match new_live { Some(l) => Some(l as usize), None => None });
        assert(cur.consumed == match new_live { Some(l) => prev.consumed.update(l, true), None => prev.consumed });
        assert forall|k: int| 0 <= k < n && (#[trigger] cur.entries[k]).live_index is Some implies (0
            <= cur.entries[k].live_index->0 < inp.live.len() && cur.consumed[cur.entries[k].live_index->0 as int]) by {
            if k < n - 1 {
                assert(cur.entries[k] == prev.entries[k]);
                assert(prev.consumed[prev.entries[k].live_index->0 as int]);
            }
        }
        assert forall|k1: int, k2: int| 0 <= k1 < k2 < n && (#[trigger] cur.entries[k1]).live_index is Some
            && (#[trigger] cur.entries[k2]).live_index is Some implies cur.entries[k1].live_index
            != cur.entries[k2].live_index by {
            assert(cur.entries[k1] == prev.entries[k1]);
            if k2 < n - 1 {
                assert(cur.entries[k2] == prev.entries[k2]);
            } else {
                assert(prev.consumed[prev.entries[k1].live_index->0 as int]);
            }
        }
    }
}

/// Verification attributes every live window to at most one saved window:
/// two matched entries never name the same live window.
pub proof fn law_verify_attributes_each_live_window_once(inp: PlanInput, k1: int, k2: int)
    requires
        inp.live.len() <= usize::MAX,
        0 <= k1 < k2 < inp.windows.len(),
        verify_upto(inp, inp.windows.len() as int).entries[k1].live_index is Some,
        verify_upto(inp, inp.windows.len() as int).entries[k2].live_index is Some,
    ensures
        verify_upto(inp, inp.windows.len() as int).entries[k1].live_index
            != verify_upto(inp, inp.windows.len() as int).entries[k2].live_index,
{
    lemma_verify_consumed(inp, inp.windows.len() as int);
    let es = verify_upto(inp, inp.windows.len() as int).entries;
    assert(es[k1].live_index != es[k2].live_index);
}

// ---------------------------------------------------------------------------
// Title comparison is symmetric
// ---------------------------------------------------------------------------

/// Comparing titles does not depend on which window is saved and which is
/// live.
pub proof fn law_title_comparison_symmetric(a: Option<Seq<char>>, b: Option<Seq<char>>)
    ensures
        spec_compare_titles(a, b) == spec_compare_titles(b, a),
{
    match (a, b) {
        (Some(x), Some(y)) => {
            let nx = crate::title::spec_normalize_title(x);
            let ny = crate::title::spec_normalize_title(y);
            assert(word_set(nx).intersect(word_set(ny)) =~= word_set(ny).intersect(word_set(nx)));
            assert(word_set(nx).union(word_set(ny)) =~= word_set(ny).union(word_set(nx)));
        },
        _ => {},
    }
}

// ---------------------------------------------------------------------------
// Snapshot names are plain file names
// ---------------------------------------------------------------------------

/// A valid snapshot name has no path separator and is neither `.` nor
/// `..`, so it names one file inside the snapshot directory.
pub proof fn law_valid_names_are_plain_file_names(name: Seq<char>)
    requires
        valid_name(name),
    ensures
        !name.contains('/'),
        !name.contains('\\'),
        name != seq!['.'],
        name != seq!['.', '.'],
{
    if name.contains('/') {
        let k = choose|k: int| 0 <= k < name.len() && name[k] == '/';
        assert(name_char(name[k]));
    }
    if name.contains('\\') {
        let k = choose|k: int| 0 <= k < name.len() && name[k] == '\\';
        assert(name_char(name[k]));
    }
}

// ---------------------------------------------------------------------------
// Z-order replay raises back to front
// ---------------------------------------------------------------------------

/// In a replay order, a window raised earlier is never in front of one
/// raised later: its z-order is at least as large (windows without a z-order
/// count as furthest back), so the frontmost saved window is raised last.
pub proof fn law_replay_raises_back_to_front(ws: Seq<WindowSnapshot>, f: Seq<usize>, p: Seq<usize>, k1: int, k2: int)
    requires
        forall|q: int| 0 <= q < f.len() ==> (#[trigger] f[q]) < ws.len(),
        is_permutation(p, f.len()),
        stably_sorted(f.map_values(|i: usize| replay_key(ws[i as int])), p),
        0 <= k1 < k2 < p.len(),
    ensures
        z_key(ws[f[p[k1] as int] as int]) >= z_key(ws[f[p[k2] as int] as int]),
{
    let keys = f.map_values(|i: usize| replay_key(ws[i as int]));
    assert(key_before(keys, p[k1], p[k2]));
    assert(keys[p[k1] as int] == replay_key(ws[f[p[k1] as int] as int]));
    assert(keys[p[k2] as int] == replay_key(ws[f[p[k2] as int] as int]));
}

// ---------------------------------------------------------------------------
// Journal counts
// ---------------------------------------------------------------------------

/// Every journal entry has exactly one status, so the per-status counts add
/// up to the number of entries.
pub proof fn law_journal_counts_cover_entries(es: Seq<JournalEntry>)
    ensures
        count_status(es, JournalStatus::Success) + count_status(es, JournalStatus::PartialSuccess) + count_status(
            es,
            JournalStatus::Skipped,
        ) + count_status(es, JournalStatus::Failed) == es.len(),
    decreases es.len(),
{
    if es.len() > 0 {
        law_journal_counts_cover_entries(es.drop_last());
    }
}

// ---------------------------------------------------------------------------
// Browser tabs go to at most one saved window
// ---------------------------------------------------------------------------

proof fn lemma_best_chrome_unused(ws: Seq<WindowSnapshot>, cw: Seq<ChromeWindowTabs>, used: Seq<bool>, w: int, n: int)
    ensures
        best_chrome(ws, cw, used, w, n) matches Some(c) ==> 0 <= c < n && !used[c],
    decreases n,
{
    if n > 0 {
        lemma_best_chrome_unused(ws, cw, used, w, n - 1);
    }
}

/// The title pass: picks are distinct, each within range and marked used.
proof fn lemma_title_pass_distinct(ws: Seq<WindowSnapshot>, browser: Seq<char>, cw: Seq<ChromeWindowTabs>, k: int)
    requires
        0 <= k,
    ensures
        title_pass(ws, browser, cw, k).used.len() == cw.len(),
        title_pass(ws, browser, cw, k).pick.len() == k,
        forall|s: int| 0 <= s < k && (#[trigger] title_pass(ws, browser, cw, k).pick[s]) is Some ==> (0 <= title_pass(
            ws, browser,
            cw,
            k,
        ).pick[s]->0 < cw.len() && title_pass(ws, browser, cw, k).used[title_pass(ws, browser, cw, k).pick[s]->0]),
        forall|s: int, t: int| 0 <= s < t < k && (#[trigger] title_pass(ws, browser, cw, k).pick[s]) is Some && (
        #[trigger] title_pass(ws, browser, cw, k).pick[t]) is Some ==> title_pass(ws, browser, cw, k).pick[s] != title_pass(
            ws, browser,
            cw,
            k,
        ).pick[t],
    decreases k,
{
    if k > 0 {
        lemma_title_pass_distinct(ws, browser, cw, k - 1);
        let prev = title_pass(ws, browser, cw, k - 1);
        let cur = title_pass(ws, browser, cw, k);
        let slots = chrome_slots(ws, browser, ws.len() as int);
        lemma_best_chrome_unused(ws, cw, prev.used, slots[k - 1], cw.len() as int);
        assert forall|s: int| 0 <= s < k && (#[trigger] cur.pick[s]) is Some implies (0 <= cur.pick[s]->0 < cw.len()
            && cur.used[cur.pick[s]->0]) by {
            if s < k - 1 {
                assert(cur.pick[s] == prev.pick[s]);
            }
        }
        assert forall|s: int, t: int| 0 <= s < t < k && (#[trigger] cur.pick[s]) is Some && (
        #[trigger] cur.pick[t]) is Some implies cur.pick[s] != cur.pick[t] by {
            assert(cur.pick[s] == prev.pick[s]);
            if t < k - 1 {
                assert(cur.pick[t] == prev.pick[t]);
            }
        }
    }
}

proof fn lemma_free_chrome_props(used: Seq<bool>, n: int)
    requires
        0 <= n <= used.len(),
    ensures
        forall|j: int| 0 <= j < free_chrome(used, n).len() ==> 0 <= #[trigger] free_chrome(used, n)[j] < n
            && !used[free_chrome(used, n)[j]],
        forall|i: int, j: int| 0 <= i < j < free_chrome(used, n).len() ==> #[trigger] free_chrome(used, n)[i]
            < #[trigger] free_chrome(used, n)[j],
    decreases n,
{
    if n > 0 {
        lemma_free_chrome_props(used, n - 1);
        let prev = free_chrome(used, n - 1);
        let cur = free_chrome(used, n);
        assert forall|j: int| 0 <= j < cur.len() implies 0 <= #[trigger] cur[j] < n && !used[cur[j]] by {
            if j < prev.len() {
                assert(cur[j] == prev[j]);
            }
        }
        assert forall|i: int, j: int| 0 <= i < j < cur.len() implies #[trigger] cur[i] < #[trigger] cur[j] by {
            assert(cur[i] == prev[i]);
            if j < prev.len() {
                assert(cur[j] == prev[j]);
            }
        }
    }
}

proof fn lemma_order_pass_taken(pick: Seq<Option<int>>, free: Seq<int>, k: int)
    requires
        0 <= k <= pick.len(),
    ensures
        order_pass(pick, free, k).0.len() == k,
        0 <= order_pass(pick, free, k).1 <= free.len(),
        forall|s: int| 0 <= s < k && (#[trigger] order_pass(pick, free, k).0[s]) is Some ==> (pick[s]
            == order_pass(pick, free, k).0[s] || (pick[s] is None && exists|j: int| 0 <= j < order_pass(pick, free, k).1
            && free[j] == order_pass(pick, free, k).0[s]->0)),
        forall|s: int, t: int| 0 <= s < t < k && pick[s] is None && pick[t] is None && (#[trigger] order_pass(
            pick,
            free,
            k,
        ).0[s]) is Some && (#[trigger] order_pass(pick, free, k).0[t]) is Some ==> exists|j1: int, j2: int|
            0 <= j1 < j2 < order_pass(pick, free, k).1 && free[j1] == order_pass(pick, free, k).0[s]->0
                && free[j2] == order_pass(pick, free, k).0[t]->0,
    decreases k,
{
    if k > 0 {
        lemma_order_pass_taken(pick, free, k - 1);
        let (prev, taken) = order_pass(pick, free, k - 1);
        let cur = order_pass(pick, free, k);
        assert forall|s: int| 0 <= s < k && (#[trigger] cur.0[s]) is Some implies (pick[s] == cur.0[s] || (
        pick[s] is None && exists|j: int| 0 <= j < cur.1 && free[j] == cur.0[s]->0)) by {
            if s < k - 1 {
                assert(cur.0[s] == prev[s]);
                if pick[s] is None {
                    let j = choose|j: int| 0 <= j < taken && free[j] == prev[s]->0;
                    assert(0 <= j < cur.1 && free[j] == cur.0[s]->0);
                }
            } else if pick[s] is None && taken < free.len() {
                assert(free[taken] == cur.0[s]->0);
            }
        }
        assert forall|s: int, t: int| 0 <= s < t < k && pick[s] is None && pick[t] is None && (
        #[trigger] cur.0[s]) is Some && (#[trigger] cur.0[t]) is Some implies exists|j1: int, j2: int|
            0 <= j1 < j2 < cur.1 && free[j1] == cur.0[s]->0 && free[j2] == cur.0[t]->0 by {
            assert(cur.0[s] == prev[s]);
            if t < k - 1 {
                assert(cur.0[t] == prev[t]);
                let (j1, j2) = choose|j1: int, j2: int| 0 <= j1 < j2 < taken && free[j1] == prev[s]->0
                    && free[j2] == prev[t]->0;
                assert(0 <= j1 < j2 < cur.1);
            } else {
                let j1 = choose|j: int| 0 <= j < taken && free[j] == prev[s]->0;
                assert(taken < free.len());
                assert(free[taken] == cur.0[t]->0);
                assert(0 <= j1 < taken < cur.1);
            }
        }
    }
}

// ---------------------------------------------------------------------------
// The window-by-window restore
// ---------------------------------------------------------------------------

proof fn lemma_jobs_facts(ws: Seq<WindowSnapshot>, n: int)
    ensures
        forall|p: int| 0 <= p < jobs_upto(ws, n).len() ==> {
            let i = #[trigger] jobs_upto(ws, n)[p];
            &&& 0 <= i < n
            &&& spec_restore_gate(ws[i]) is None
            &&& jobs_upto(ws, i).len() == p
        },
    decreases n,
{
    if n > 0 {
        lemma_jobs_facts(ws, n - 1);
        let prev = jobs_upto(ws, n - 1);
        let cur = jobs_upto(ws, n);
        assert forall|p: int| 0 <= p < cur.len() implies {
            let i = #[trigger] cur[p];
            &&& 0 <= i < n
            &&& spec_restore_gate(ws[i]) is None
            &&& jobs_upto(ws, i).len() == p
        } by {
            if p < prev.len() {
                assert(cur[p] == prev[p]);
            }
        }
    }
}

/// Each placement outcome is reported for the window that was placed: the
/// saved window of job `j` of a restore gets the status of outcome `j`,
/// restored when it succeeded and failed with its message when it did not.
pub proof fn law_outcomes_reported_for_their_jobs(ws: Seq<WindowSnapshot>, results: Seq<Result<(), Seq<char>>>, j: int)
    requires
        0 <= j < spec_restore_jobs(ws, false).len(),
        j < results.len(),
    ensures
        0 <= spec_restore_jobs(ws, false)[j] < ws.len(),
        spec_window_outcome(ws, false, results, spec_restore_jobs(ws, false)[j]) == match results[j] {
            Ok(()) => (RestoreStatus::Restored, None::<Seq<char>>),
            Err(m) => (RestoreStatus::Failed, Some(m)),
        },
{
    lemma_jobs_facts(ws, ws.len() as int);
    let i = jobs_upto(ws, ws.len() as int)[j];
    assert(jobs_upto(ws, i).len() == j);
}

/// A dry run restores and fails nothing: every saved window is planned or
/// skipped.
pub proof fn law_dry_run_restores_nothing(ws: Seq<WindowSnapshot>, results: Seq<Result<(), Seq<char>>>, i: int)
    requires
        0 <= i < ws.len(),
    ensures
        spec_window_outcome(ws, true, results, i).0 == RestoreStatus::Planned || spec_window_outcome(
            ws,
            true,
            results,
            i,
        ).0 == RestoreStatus::Skipped,
        spec_restore_jobs(ws, true).len() == 0,
{
}

/// Each reported browser window's tabs are attached to at most one saved
/// window.
pub proof fn law_tabs_attached_at_most_once(ws: Seq<WindowSnapshot>, browser: Seq<char>, cw: Seq<ChromeWindowTabs>, s: int, t: int)
    requires
        0 <= s < t < tab_assignment(ws, browser, cw).len(),
        tab_assignment(ws, browser, cw)[s] is Some,
        tab_assignment(ws, browser, cw)[t] is Some,
    ensures
        tab_assignment(ws, browser, cw)[s] != tab_assignment(ws, browser, cw)[t],
{
    let slots = chrome_slots(ws, browser, ws.len() as int);
    let tp = title_pass(ws, browser, cw, slots.len() as int);
    let fr = free_chrome(tp.used, cw.len() as int);
    lemma_title_pass_distinct(ws, browser, cw, slots.len() as int);
    lemma_free_chrome_props(tp.used, cw.len() as int);
    lemma_order_pass_taken(tp.pick, fr, slots.len() as int);
    let fin = order_pass(tp.pick, fr, slots.len() as int);
    let c1 = fin.0[s]->0;
    let c2 = fin.0[t]->0;
    if tp.pick[s] is Some && tp.pick[t] is Some {
        assert(tp.pick[s] != tp.pick[t]);
    } else if tp.pick[s] is Some {
        let j = choose|j: int| 0 <= j < fin.1 && fr[j] == c2;
        assert(!tp.used[fr[j]]);
        assert(tp.used[c1]);
    } else if tp.pick[t] is Some {
        let j = choose|j: int| 0 <= j < fin.1 && fr[j] == c1;
        assert(!tp.used[fr[j]]);
        assert(tp.used[c2]);
    } else {
        let (j1, j2) = choose|j1: int, j2: int| 0 <= j1 < j2 < fin.1 && fr[j1] == c1 && fr[j2] == c2;
        assert(fr[j1] < fr[j2]);
    }
}


// ---------------------------------------------------------------------------
// Placing a window right after its application was launched
// ---------------------------------------------------------------------------

/// How many of the requests in `run` are placement attempts, pauses and
/// lookups, in that order.
pub open spec fn count_requests(run: Seq<PlacementCall>) -> (nat, nat, nat)
    decreases run.len(),
{
    if run.len() == 0 {
        (0, 0, 0)
    } else {
        let c = count_requests(run.drop_last());
        match run.last() {
            PlacementCall::Place { .. } => ((c.0 + 1) as nat, c.1, c.2),
            PlacementCall::Wait => (c.0, (c.1 + 1) as nat, c.2),
            PlacementCall::Lookup { .. } => (c.0, c.1, (c.2 + 1) as nat),
        }
    }
}

proof fn lemma_placement_run_shape(
    initial: Seq<i32>,
    lookups: Seq<Seq<i32>>,
    outs: Seq<Result<bool, WorkspaceError>>,
)
    requires
        lookups.len() + 1 == outs.len(),
    ensures
        count_requests(placement_run(initial, lookups, outs)) == (
            (lookups.len() + 1) as nat,
            lookups.len(),
            lookups.len(),
        ),
        placement_run(initial, lookups, outs).len() == 3 * lookups.len() + 1,
        placement_run(initial, lookups, outs).last() matches PlacementCall::Place { result, .. } && result
            == outs.last(),
        forall|i: int|
            0 <= i < placement_run(initial, lookups, outs).len() - 1 ==> (#[trigger] placement_run(
                initial,
                lookups,
                outs,
            )[i] matches PlacementCall::Place { result, .. } ==> exists|j: int|
                0 <= j < outs.len() - 1 && result == outs[j]),
    decreases lookups.len(),
{
    let run = placement_run(initial, lookups, outs);
    if lookups.len() == 0 {
        assert(run.drop_last() =~= Seq::<PlacementCall>::empty());
        assert(count_requests(run.drop_last()) == (0nat, 0nat, 0nat));
        assert(count_requests(run) == (1nat, 0nat, 0nat));
    } else {
        let l0 = lookups.drop_last();
        let o0 = outs.drop_last();
        let prev = placement_run(initial, l0, o0);
        lemma_placement_run_shape(initial, l0, o0);
        let p = lookups.last();
        let a = prev.push(PlacementCall::Wait);
        let b = a.push(PlacementCall::Lookup { pids: p });
        assert(run =~= b.push(PlacementCall::Place { pids: p, result: outs.last() }));
        assert(run.drop_last() =~= b);
        assert(b.drop_last() =~= a);
        assert(a.drop_last() =~= prev);
        let c = count_requests(prev);
        assert(count_requests(a) == (c.0, (c.1 + 1) as nat, c.2));
        assert(count_requests(b) == (c.0, (c.1 + 1) as nat, (c.2 + 1) as nat));
        assert(count_requests(run) == ((c.0 + 1) as nat, (c.1 + 1) as nat, (c.2 + 1) as nat));
        assert forall|i: int| 0 <= i < run.len() - 1 implies (#[trigger] run[i] matches PlacementCall::Place {
            result,
            ..
        } ==> exists|j: int| 0 <= j < outs.len() - 1 && result == outs[j]) by {
            if i < prev.len() - 1 {
                assert(run[i] == prev[i]);
                if let PlacementCall::Place { result, .. } = run[i] {
                    let j = choose|j: int| 0 <= j < o0.len() - 1 && result == o0[j];
                    assert(outs[j] == o0[j]);
                }
            } else if i == prev.len() - 1 {
                assert(run[i] == prev.last());
                assert(outs[o0.len() - 1] == o0.last());
            }
        }
    }
}

/// A placement reports the result of its last attempt, stops at the first
/// attempt that placed the window or failed, pauses and looks the processes
/// up once before each retry, and retries at most
/// `WINDOW_READY_WAIT_ATTEMPTS` times for a launched application and never
/// for one that was already running.
pub proof fn law_placement_stops_at_first_success_or_error(
    launched: bool,
    initial: Seq<i32>,
    run: Seq<PlacementCall>,
    r: Result<bool, WorkspaceError>,
)
    requires
        is_placement_run(launched, initial, run, r),
    ensures
        run.last() matches PlacementCall::Place { result, .. } && result == r,
        forall|i: int|
            0 <= i < run.len() - 1 ==> (#[trigger] run[i] matches PlacementCall::Place { result, .. } ==> result
                == Ok::<bool, WorkspaceError>(false)),
        count_requests(run).0 == count_requests(run).1 + 1,
        count_requests(run).1 == count_requests(run).2,
        count_requests(run).1 <= (if launched { WINDOW_READY_WAIT_ATTEMPTS } else { 0 }),
{
    let (lookups, outs) = choose|lookups: Seq<Seq<i32>>, outs: Seq<Result<bool, WorkspaceError>>|
        {
            &&& lookups.len() + 1 == outs.len()
            &&& follows_retry_rule(launched, outs)
            &&& r == outs.last()
            &&& run == #[trigger] placement_run(initial, lookups, outs)
        };
    lemma_placement_run_shape(initial, lookups, outs);
    assert forall|i: int| 0 <= i < run.len() - 1 implies (#[trigger] run[i] matches PlacementCall::Place {
        result,
        ..
    } ==> result == Ok::<bool, WorkspaceError>(false)) by {
        if let PlacementCall::Place { result, .. } = run[i] {
            let j = choose|j: int| 0 <= j < outs.len() - 1 && result == outs[j];
            assert(spec_retry_step(launched, j, outs[j]) == RetryStep::Retry);
        }
    }
    if lookups.len() > 0 {
        let n = lookups.len() as int;
        assert(spec_retry_step(launched, n - 1, outs[n - 1]) == RetryStep::Retry);
    }
}

/// A launched application whose window never turns up gets the whole
/// budget: `WINDOW_READY_WAIT_ATTEMPTS` pauses, lookups and retries after
/// its first attempt.
pub proof fn law_unplaced_launched_window_spends_the_budget(initial: Seq<i32>, run: Seq<PlacementCall>)
    requires
        is_placement_run(true, initial, run, Ok(false)),
    ensures
        count_requests(run) == (
            (WINDOW_READY_WAIT_ATTEMPTS + 1) as nat,
            WINDOW_READY_WAIT_ATTEMPTS as nat,
            WINDOW_READY_WAIT_ATTEMPTS as nat,
        ),
{
    let (lookups, outs) = choose|lookups: Seq<Seq<i32>>, outs: Seq<Result<bool, WorkspaceError>>|
        {
            &&& lookups.len() + 1 == outs.len()
            &&& follows_retry_rule(true, outs)
            &&& Ok::<bool, WorkspaceError>(false) == outs.last()
            &&& run == #[trigger] placement_run(initial, lookups, outs)
        };
    lemma_placement_run_shape(initial, lookups, outs);
    let n = lookups.len() as int;
    assert(spec_retry_step(true, n, outs[n]) == RetryStep::Stop);
    if n > 0 {
        assert(spec_retry_step(true, n - 1, outs[n - 1]) == RetryStep::Retry);
    }
}

/// An application that was already running gets exactly one attempt, with
/// the processes first given.
pub proof fn law_running_app_is_tried_once(initial: Seq<i32>, run: Seq<PlacementCall>, r: Result<bool, WorkspaceError>)
    requires
        is_placement_run(false, initial, run, r),
    ensures
        run == seq![PlacementCall::Place { pids: initial, result: r }],
{
    let (lookups, outs) = choose|lookups: Seq<Seq<i32>>, outs: Seq<Result<bool, WorkspaceError>>|
        {
            &&& lookups.len() + 1 == outs.len()
            &&& follows_retry_rule(false, outs)
            &&& r == outs.last()
            &&& run == #[trigger] placement_run(initial, lookups, outs)
        };
    if lookups.len() > 0 {
        let n = lookups.len() as int;
        assert(spec_retry_step(false, n - 1, outs[n - 1]) == RetryStep::Retry);
    }
}


// ---------------------------------------------------------------------------
// Browser tabs go to the best title first
// ---------------------------------------------------------------------------

proof fn lemma_best_chrome_max(ws: Seq<WindowSnapshot>, cw: Seq<ChromeWindowTabs>, used: Seq<bool>, w: int, n: int)
    requires
        0 <= n,
    ensures
        match best_chrome(ws, cw, used, w, n) {
            Some(c) => {
                &&& 0 <= c < n
                &&& !used[c]
                &&& tab_score(ws, cw, w, c) > 0
                &&& forall|c2: int| 0 <= c2 < n && !used[c2] ==> tab_score(ws, cw, w, c2) <= tab_score(ws, cw, w, c)
            },
            None => forall|c2: int| 0 <= c2 < n && !used[c2] ==> tab_score(ws, cw, w, c2) <= 0,
        },
    decreases n,
{
    if n > 0 {
        lemma_best_chrome_max(ws, cw, used, w, n - 1);
    }
}

proof fn lemma_title_pass_stable(ws: Seq<WindowSnapshot>, browser: Seq<char>, cw: Seq<ChromeWindowTabs>, s: int, k: int)
    requires
        0 <= s < k,
    ensures
        title_pass(ws, browser, cw, k).pick.len() == k,
        title_pass(ws, browser, cw, k).pick[s] == title_pass(ws, browser, cw, s + 1).pick[s],
    decreases k,
{
    lemma_title_pass_distinct(ws, browser, cw, k);
    if k > s + 1 {
        lemma_title_pass_stable(ws, browser, cw, s, k - 1);
        lemma_title_pass_distinct(ws, browser, cw, k - 1);
    }
}

/// Title matching gives each saved browser window the best title first.
/// For the `s`-th saved window of the browser: the reported window the
/// title pass gives it scores above zero, was not given to an earlier saved
/// window, scores at least as high as every reported window not yet given,
/// and is the one whose tabs the saved window gets; when the title pass
/// gives it none, no reported window not yet given scores above zero.
pub proof fn law_title_pass_takes_the_best_title(
    ws: Seq<WindowSnapshot>,
    browser: Seq<char>,
    cw: Seq<ChromeWindowTabs>,
    s: int,
)
    requires
        0 <= s < chrome_slots(ws, browser, ws.len() as int).len(),
    ensures
        ({
            let w = chrome_slots(ws, browser, ws.len() as int)[s];
            let before = title_pass(ws, browser, cw, s).used;
            match title_pass(ws, browser, cw, s + 1).pick[s] {
                Some(c) => {
                    &&& 0 <= c < cw.len()
                    &&& !before[c]
                    &&& tab_score(ws, cw, w, c) > 0
                    &&& forall|c2: int| 0 <= c2 < cw.len() && !before[c2] ==> tab_score(ws, cw, w, c2) <= tab_score(
                        ws,
                        cw,
                        w,
                        c,
                    )
                    &&& tab_assignment(ws, browser, cw)[s] == Some(c)
                },
                None => forall|c2: int| 0 <= c2 < cw.len() && !before[c2] ==> tab_score(ws, cw, w, c2) <= 0,
            }
        }),
{
    let slots = chrome_slots(ws, browser, ws.len() as int);
    let w = slots[s];
    let before = title_pass(ws, browser, cw, s).used;
    lemma_best_chrome_max(ws, cw, before, w, cw.len() as int);
    let n = slots.len() as int;
    lemma_title_pass_stable(ws, browser, cw, s, n);
    lemma_title_pass_distinct(ws, browser, cw, n);
    let tp = title_pass(ws, browser, cw, n);
    let fr = free_chrome(tp.used, cw.len() as int);
    lemma_order_pass_taken(tp.pick, fr, n);
    lemma_order_pass_keeps_picks(tp.pick, fr, n);
    lemma_title_pass_distinct(ws, browser, cw, s);
    let cur = title_pass(ws, browser, cw, s + 1);
    let best = best_chrome(ws, cw, before, w, cw.len() as int);
    assert(cur.pick[s] == best);
    assert(tab_assignment(ws, browser, cw) == order_pass(tp.pick, fr, n).0);
    assert(tp.pick[s] == cur.pick[s]);
}

proof fn lemma_order_pass_keeps_picks(pick: Seq<Option<int>>, free: Seq<int>, k: int)
    requires
        0 <= k <= pick.len(),
    ensures
        forall|s: int| 0 <= s < k && pick[s] is Some ==> #[trigger] order_pass(pick, free, k).0[s] == pick[s],
    decreases k,
{
    if k > 0 {
        lemma_order_pass_keeps_picks(pick, free, k - 1);
        lemma_order_pass_taken(pick, free, k - 1);
        let (prev, taken) = order_pass(pick, free, k - 1);
        let cur = order_pass(pick, free, k);
        assert forall|s: int| 0 <= s < k && pick[s] is Some implies #[trigger] cur.0[s] == pick[s] by {
            if s < k - 1 {
                assert(cur.0[s] == prev[s]);
            }
        }
    }
}


// ---------------------------------------------------------------------------
// Verification skips exactly the windows restore never touches
// ---------------------------------------------------------------------------

proof fn lemma_verify_skips(inp: PlanInput, n: int)
    requires
        0 <= n <= usize::MAX,
    ensures
        verify_upto(inp, n).entries.len() == n,
        forall|i: int| 0 <= i < n ==> {
            let e = #[trigger] verify_upto(inp, n).entries[i];
            &&& e.skipped_reason == crate::plan::spec_skip_reason(inp.windows[i])
            &&& e.skipped_reason is Some ==> !e.matched && e.live_index is None
            &&& e.saved_window_index as int == i
        },
    decreases n,
{
    if n > 0 {
        lemma_verify_skips(inp, n - 1);
        let prev = verify_upto(inp, n - 1);
        let cur = verify_upto(inp, n);
        assert forall|i: int| 0 <= i < n implies {
            let e = #[trigger] cur.entries[i];
            &&& e.skipped_reason == crate::plan::spec_skip_reason(inp.windows[i])
            &&& e.skipped_reason is Some ==> !e.matched && e.live_index is None
            &&& e.saved_window_index as int == i
        } by {
            if i < n - 1 {
                assert(cur.entries[i] == prev.entries[i]);
            }
        }
    }
}

/// Verification reports a saved window as skipped exactly when restore
/// would skip it (disabled, not on the allowlist, or fullscreen), with the
/// planner's reason, and a skipped window is never matched: so a skipped
/// window never counts as missing, and the skipped count is the number of
/// windows restore skips.
pub proof fn law_verify_skips_what_restore_skips(inp: PlanInput, i: int)
    requires
        inp.windows.len() <= usize::MAX,
        0 <= i < inp.windows.len(),
    ensures
        verify_upto(inp, inp.windows.len() as int).entries[i].skipped_reason == crate::plan::spec_skip_reason(
            inp.windows[i],
        ),
        crate::plan::spec_skip_reason(inp.windows[i]) is Some ==> !verify_upto(
            inp,
            inp.windows.len() as int,
        ).entries[i].matched,
        verify_upto(inp, inp.windows.len() as int).entries[i].saved_window_index as int == i,
{
    lemma_verify_skips(inp, inp.windows.len() as int);
    assert(verify_upto(inp, inp.windows.len() as int).entries[i].skipped_reason == crate::plan::spec_skip_reason(
        inp.windows[i],
    ));
}


// ---------------------------------------------------------------------------
// Z-order replay raises exactly the windows restore places
// ---------------------------------------------------------------------------

/// Some entry of `p` is `q`.
spec fn takes_value(p: Seq<usize>, q: int) -> bool {
    exists|k: int| 0 <= k < p.len() && #[trigger] p[k] as int == q
}

proof fn lemma_permutation_onto(p: Seq<usize>, n: nat)
    requires
        is_permutation(p, n),
    ensures
        forall|q: int| 0 <= q < n ==> #[trigger] takes_value(p, q),
{
    let pi = p.map_values(|x: usize| x as int);
    assert forall|a: int, b: int| 0 <= a < pi.len() && 0 <= b < pi.len() && a != b implies pi[a] != pi[b] by {
        assert(p[a] != p[b]);
    }
    assert(pi.no_duplicates());
    pi.unique_seq_to_set();
    let range = vstd::set_lib::set_int_range(0, n as int);
    vstd::set_lib::lemma_int_range(0, n as int);
    assert forall|x: int| pi.to_set().contains(x) implies range.contains(x) by {
        let k = choose|k: int| 0 <= k < pi.len() && pi[k] == x;
        assert(p[k] < n);
    }
    assert(pi.to_set().subset_of(range));
    vstd::set_lib::lemma_subset_equality(pi.to_set(), range);
    assert forall|q: int| 0 <= q < n implies #[trigger] takes_value(p, q) by {
        assert(range.contains(q));
        assert(pi.to_set().contains(q));
        let k = choose|k: int| 0 <= k < pi.len() && pi[k] == q;
        assert(p[k] as int == q);
    }
}

proof fn lemma_restorable_facts(ws: Seq<WindowSnapshot>, n: int)
    requires
        0 <= n <= ws.len(),
        ws.len() <= usize::MAX,
    ensures
        forall|q: int| 0 <= q < restorable_indices(ws, n).len() ==> (#[trigger] restorable_indices(ws, n)[q]) < n
            && crate::plan::spec_skip_reason(ws[restorable_indices(ws, n)[q] as int]) is None,
        forall|i: int| 0 <= i < n && crate::plan::spec_skip_reason(ws[i]) is None ==> exists|q: int|
            0 <= q < restorable_indices(ws, n).len() && #[trigger] restorable_indices(ws, n)[q] as int == i,
    decreases n,
{
    if n > 0 {
        lemma_restorable_facts(ws, n - 1);
        let prev = restorable_indices(ws, n - 1);
        let cur = restorable_indices(ws, n);
        assert forall|q: int| 0 <= q < cur.len() implies (#[trigger] cur[q]) < n && crate::plan::spec_skip_reason(
            ws[cur[q] as int],
        ) is None by {
            if q < prev.len() {
                assert(cur[q] == prev[q]);
            }
        }
        assert forall|i: int| 0 <= i < n && crate::plan::spec_skip_reason(ws[i]) is None implies exists|q: int|
            0 <= q < cur.len() && #[trigger] cur[q] as int == i by {
            if i < n - 1 {
                let q = choose|q: int| 0 <= q < prev.len() && #[trigger] prev[q] as int == i;
                assert(cur[q] == prev[q]);
            } else {
                assert(cur[prev.len() as int] as int == i);
            }
        }
    }
}

/// Z-order replay raises exactly the windows restore places: for an order
/// `r` that `z_order_replay_order` may return, every entry names a saved
/// window that restore does not skip, no window is raised twice, and every
/// saved window restore does not skip is raised. Disabled, unsupported and
/// fullscreen windows are never raised.
pub proof fn law_replay_raises_exactly_the_restored_windows(ws: Seq<WindowSnapshot>, r: Seq<usize>, p: Seq<usize>)
    requires
        ws.len() <= usize::MAX,
        is_permutation(p, restorable_indices(ws, ws.len() as int).len()),
        r.len() == p.len(),
        forall|k: int| 0 <= k < r.len() ==> #[trigger] r[k] == restorable_indices(ws, ws.len() as int)[p[k] as int],
    ensures
        forall|k: int| 0 <= k < r.len() ==> (#[trigger] r[k]) < ws.len() && crate::plan::spec_skip_reason(ws[r[k] as int])
            is None,
        r.no_duplicates(),
        forall|i: int| 0 <= i < ws.len() && crate::plan::spec_skip_reason(ws[i]) is None ==> exists|k: int|
            0 <= k < r.len() && #[trigger] r[k] as int == i,
{
    let n = ws.len() as int;
    let f = restorable_indices(ws, n);
    lemma_restorable_facts(ws, n);
    lemma_restorable_increasing(ws, n);
    lemma_permutation_onto(p, f.len());
    assert forall|k: int| 0 <= k < r.len() implies (#[trigger] r[k]) < ws.len() && crate::plan::spec_skip_reason(
        ws[r[k] as int],
    ) is None by {
        assert(f[p[k] as int] < n);
    }
    assert forall|a: int, b: int| 0 <= a < r.len() && 0 <= b < r.len() && a != b implies r[a] != r[b] by {
        assert(p[a] != p[b]);
        if p[a] < p[b] {
            assert(f[p[a] as int] < f[p[b] as int]);
        } else {
            assert(f[p[b] as int] < f[p[a] as int]);
        }
    }
    assert forall|i: int| 0 <= i < ws.len() && crate::plan::spec_skip_reason(ws[i]) is None implies exists|k: int|
        0 <= k < r.len() && #[trigger] r[k] as int == i by {
        let q = choose|q: int| 0 <= q < f.len() && #[trigger] f[q] as int == i;
        assert(takes_value(p, q));
        let k = choose|k: int| 0 <= k < p.len() && #[trigger] p[k] as int == q;
        assert(r[k] == f[p[k] as int]);
    }
}

proof fn lemma_restorable_increasing(ws: Seq<WindowSnapshot>, n: int)
    requires
        0 <= n <= ws.len(),
        ws.len() <= usize::MAX,
    ensures
        forall|a: int, b: int| 0 <= a < b < restorable_indices(ws, n).len() ==> #[trigger] restorable_indices(ws, n)[a]
            < #[trigger] restorable_indices(ws, n)[b],
    decreases n,
{
    if n > 0 {
        lemma_restorable_increasing(ws, n - 1);
        lemma_restorable_facts(ws, n - 1);
        let prev = restorable_indices(ws, n - 1);
        let cur = restorable_indices(ws, n);
        assert forall|a: int, b: int| 0 <= a < b < cur.len() implies #[trigger] cur[a] < #[trigger] cur[b] by {
            assert(cur[a] == prev[a]);
            if b < prev.len() {
                assert(cur[b] == prev[b]);
            }
        }
    }
}

} // verus!

//! Properties every restore plan has, proved over the planner's
//! specification (`spec_plan_restore`), which `plan_restore` meets exactly.

use vstd::prelude::*;

use crate::app_support::{spec_support_for, SupportLevel};
use crate::model::bundle_of;
use crate::plan::{
    precedes, free_pair, greedy, is_next, lemma_num_unassigned_update, live_used, matched_live, num_unassigned, pair_score, window_op,
    lemma_order_no_dups, active_of, bulk_skip_ops, candidates_upto, claimed_upto, conflicts_upto, gate_ops, group_members, group_order, launch_op,
    plan_groups, spec_assign_matches, spec_dev_mode_protected, spec_group_key, spec_is_destructive,
    spec_is_running, spec_owned, spec_reconcilable, spec_plan_group, spec_plan_restore, spec_skip_reason, taken_of,
    window_ops_upto, LiveWindow, MatchInput, OperationKindView, PlanInput, PlannedOperationView, RestoreMode,
};

verus! {

/// An operation the grouping stage may emit: a skip of a saved window
/// (carrying that window's bundle), or a launch / reposition / create /
/// tab-restore for a bundle that some restorable saved window has; a launch
/// only for an application that is not running and not protected by
/// dev-mode.
pub open spec fn group_op_ok(inp: PlanInput, op: PlannedOperationView) -> bool {
    match op.kind {
        OperationKindView::Skip { .. } => match op.saved_window_index {
            Some(i) => (i as int) < inp.windows.len() && op.bundle_id == bundle_of(inp.windows[i as int]),
            None => false,
        },
        OperationKindView::LaunchApp { bundle_id } => {
            &&& op.bundle_id == Some(bundle_id)
            &&& restorable_bundle(inp, bundle_id)
            &&& !spec_is_running(inp.running, bundle_id)
            &&& !(inp.options.dev_mode && spec_dev_mode_protected(bundle_id))
        },
        OperationKindView::MinimizeConflict { .. } => false,
        OperationKindView::CloseConflict { .. } => false,
        _ => match op.saved_window_index {
            Some(i) => {
                &&& (i as int) < inp.windows.len()
                &&& spec_skip_reason(inp.windows[i as int]) is None
                &&& bundle_of(inp.windows[i as int]) is Some
                &&& op.bundle_id == bundle_of(inp.windows[i as int])
            },
            None => false,
        },
    }
}

/// The input could come from the executable planner: window indices fit
/// in `usize`.
pub open spec fn plan_input_valid(inp: PlanInput) -> bool {
    inp.windows.len() <= usize::MAX
}

/// Some saved window of bundle `b` passes the skip gates.
pub open spec fn restorable_bundle(inp: PlanInput, b: Seq<char>) -> bool {
    exists|i: int| 0 <= i < inp.windows.len() && spec_skip_reason(#[trigger] inp.windows[i]) is None && bundle_of(inp.windows[i]) == Some(b)
}

/// Some saved window has bundle `b`.
pub open spec fn saved_bundle(inp: PlanInput, b: Seq<char>) -> bool {
    exists|i: int| 0 <= i < inp.windows.len() && bundle_of(#[trigger] inp.windows[i]) == Some(b)
}

proof fn lemma_gate_ops_ok(inp: PlanInput, idx: Seq<int>)
    requires
        plan_input_valid(inp),
        forall|k: int| 0 <= k < idx.len() ==> 0 <= #[trigger] idx[k] < inp.windows.len(),
    ensures
        forall|k: int| 0 <= k < gate_ops(inp, idx).len() ==> group_op_ok(inp, #[trigger] gate_ops(inp, idx)[k]),
    decreases idx.len(),
{
    if idx.len() > 0 {
        lemma_gate_ops_ok(inp, idx.drop_last());
        let prev = gate_ops(inp, idx.drop_last());
        let cur = gate_ops(inp, idx);
        assert forall|k: int| 0 <= k < cur.len() implies group_op_ok(inp, #[trigger] cur[k]) by {
            if k < prev.len() {
                assert(cur[k] == prev[k]);
            }
        }
    }
}

proof fn lemma_bulk_ok(inp: PlanInput, idx: Seq<int>, reason: Seq<char>)
    requires
        plan_input_valid(inp),
        forall|k: int| 0 <= k < idx.len() ==> 0 <= #[trigger] idx[k] < inp.windows.len(),
    ensures
        forall|k: int| 0 <= k < bulk_skip_ops(inp, idx, reason).len() ==> group_op_ok(inp, #[trigger] bulk_skip_ops(inp, idx, reason)[k]),
        bulk_skip_ops(inp, idx, reason).len() == idx.len(),
    decreases idx.len(),
{
    if idx.len() > 0 {
        lemma_bulk_ok(inp, idx.drop_last(), reason);
        let prev = bulk_skip_ops(inp, idx.drop_last(), reason);
        let cur = bulk_skip_ops(inp, idx, reason);
        assert forall|k: int| 0 <= k < cur.len() implies group_op_ok(inp, #[trigger] cur[k]) by {
            if k < prev.len() {
                assert(cur[k] == prev[k]);
            }
        }
    }
}

proof fn lemma_active_facts(inp: PlanInput, idx: Seq<int>)
    ensures
        forall|k: int| 0 <= k < active_of(inp, idx).len() ==> spec_skip_reason(inp.windows[#[trigger] active_of(inp, idx)[k]]) is None,
        forall|k: int| 0 <= k < active_of(inp, idx).len() ==> idx.contains(#[trigger] active_of(inp, idx)[k]),
    decreases idx.len(),
{
    if idx.len() > 0 {
        lemma_active_facts(inp, idx.drop_last());
        let prev = active_of(inp, idx.drop_last());
        let cur = active_of(inp, idx);
        assert forall|k: int| 0 <= k < cur.len() implies spec_skip_reason(inp.windows[#[trigger] cur[k]]) is None && idx.contains(cur[k]) by {
            if k < prev.len() {
                assert(cur[k] == prev[k]);
                let t = choose|t: int| 0 <= t < idx.drop_last().len() && idx.drop_last()[t] == prev[k];
                assert(idx[t] == prev[k]);
            } else {
                assert(idx[idx.len() - 1] == cur[k]);
            }
        }
    }
}

proof fn lemma_members_facts(ws: Seq<crate::model::WindowSnapshot>, key: Seq<char>, n: int)
    requires
        0 <= n <= ws.len(),
    ensures
        forall|k: int| 0 <= k < group_members(ws, key, n).len() ==> 0 <= #[trigger] group_members(ws, key, n)[k] < n
            && spec_group_key(ws[group_members(ws, key, n)[k]]) == key,
    decreases n,
{
    if n > 0 {
        lemma_members_facts(ws, key, n - 1);
        let prev = group_members(ws, key, n - 1);
        let cur = group_members(ws, key, n);
        assert forall|k: int| 0 <= k < cur.len() implies 0 <= #[trigger] cur[k] < n && spec_group_key(ws[cur[k]]) == key by {
            if k < prev.len() {
                assert(cur[k] == prev[k]);
            }
        }
    }
}

/// A restorable saved window whose group key is `b` has bundle `b`.
proof fn lemma_active_bundle(inp: PlanInput, i: int, b: Seq<char>)
    requires
        0 <= i < inp.windows.len(),
        spec_skip_reason(inp.windows[i]) is None,
        spec_group_key(inp.windows[i]) == b,
    ensures
        bundle_of(inp.windows[i]) == Some(b),
{
    if bundle_of(inp.windows[i]) is None {
        assert(spec_support_for(bundle_of(inp.windows[i])).level == SupportLevel::Unsupported);
    }
}

proof fn lemma_window_ops_ok(
    inp: PlanInput,
    b: Seq<char>,
    active: Seq<int>,
    cands: Seq<int>,
    asg: Seq<Option<int>>,
    n: int,
)
    requires
        plan_input_valid(inp),
        0 <= n <= active.len(),
        forall|k: int| 0 <= k < active.len() ==> 0 <= #[trigger] active[k] < inp.windows.len()
            && spec_skip_reason(inp.windows[active[k]]) is None && bundle_of(inp.windows[active[k]]) == Some(b),
    ensures
        forall|k: int| 0 <= k < window_ops_upto(inp, b, active, cands, asg, n).len() ==> group_op_ok(
            inp,
            #[trigger] window_ops_upto(inp, b, active, cands, asg, n)[k],
        ),
        window_ops_upto(inp, b, active, cands, asg, n).len() == n,
    decreases n,
{
    if n > 0 {
        lemma_window_ops_ok(inp, b, active, cands, asg, n - 1);
        let prev = window_ops_upto(inp, b, active, cands, asg, n - 1);
        let cur = window_ops_upto(inp, b, active, cands, asg, n);
        assert forall|k: int| 0 <= k < cur.len() implies group_op_ok(inp, #[trigger] cur[k]) by {
            if k < prev.len() {
                assert(cur[k] == prev[k]);
            } else {
                assert(0 <= active[n - 1] < inp.windows.len());
            }
        }
    }
}

proof fn lemma_plan_group_ok(inp: PlanInput, key: Seq<char>, consumed: Seq<u32>)
    requires
        plan_input_valid(inp),
        group_members(inp.windows, key, inp.windows.len() as int).len() > 0,
    ensures
        ({
            let g = spec_plan_group(inp, group_members(inp.windows, key, inp.windows.len() as int), consumed);
            forall|k: int| 0 <= k < g.ops.len() ==> group_op_ok(inp, #[trigger] g.ops[k])
        }),
{
    let n = inp.windows.len() as int;
    let idx = group_members(inp.windows, key, n);
    lemma_members_facts(inp.windows, key, n);
    lemma_gate_ops_ok(inp, idx);
    lemma_active_facts(inp, idx);
    let gate = gate_ops(inp, idx);
    let active = active_of(inp, idx);
    assert forall|k: int| 0 <= k < active.len() implies 0 <= #[trigger] active[k] < inp.windows.len() && spec_group_key(inp.windows[active[k]]) == key by {
        let t = choose|t: int| 0 <= t < idx.len() && idx[t] == active[k];
        assert(idx[t] == active[k]);
    }
    let first = inp.windows[idx[0]];
    let g = spec_plan_group(inp, idx, consumed);
    if active.len() == 0 {
    } else {
        match bundle_of(first) {
            None => {
                lemma_bulk_ok(inp, active, "missing bundle identifier"@);
                let bulk = bulk_skip_ops(inp, active, "missing bundle identifier"@);
                assert forall|k: int| 0 <= k < g.ops.len() implies group_op_ok(inp, #[trigger] g.ops[k]) by {
                    if k < gate.len() {
                        assert(g.ops[k] == gate[k]);
                    } else {
                        assert(g.ops[k] == bulk[k - gate.len()]);
                    }
                }
            },
            Some(b) => {
                assert(spec_group_key(first) == b);
                assert(spec_group_key(first) == key);
                assert forall|k: int| 0 <= k < active.len() implies 0 <= #[trigger] active[k] < inp.windows.len()
                    && spec_skip_reason(inp.windows[active[k]]) is None && bundle_of(inp.windows[active[k]]) == Some(b) by {
                    lemma_active_bundle(inp, active[k], b);
                }
                let running = spec_is_running(inp.running, b);
                if !running && inp.options.dev_mode && spec_dev_mode_protected(b) {
                    let reason = "dev-mode: not launching protected editor"@;
                    lemma_bulk_ok(inp, active, reason);
                    let bulk = bulk_skip_ops(inp, active, reason);
                    assert forall|k: int| 0 <= k < g.ops.len() implies group_op_ok(inp, #[trigger] g.ops[k]) by {
                        if k < gate.len() {
                            assert(g.ops[k] == gate[k]);
                        } else {
                            assert(g.ops[k] == bulk[k - gate.len()]);
                        }
                    }
                } else {
                    let launch = if running { seq![] } else { seq![launch_op(first, b)] };
                    let cands = candidates_upto(inp, b, inp.live.len() as int);
                    let m = MatchInput {
                        table: inp.table,
                        saved: active,
                        live: cands,
                        taken: taken_of(inp, cands, consumed),
                    };
                    let asg = spec_assign_matches(m);
                    let wops = window_ops_upto(inp, b, active, cands, asg, active.len() as int);
                    lemma_window_ops_ok(inp, b, active, cands, asg, active.len() as int);
                    if !running {
                        assert(restorable_bundle(inp, b)) by {
                            assert(spec_skip_reason(inp.windows[active[0]]) is None);
                        }
                        assert(group_op_ok(inp, launch_op(first, b)));
                    }
                    assert forall|k: int| 0 <= k < g.ops.len() implies group_op_ok(inp, #[trigger] g.ops[k]) by {
                        if k < gate.len() {
                            assert(g.ops[k] == gate[k]);
                        } else if k < gate.len() + launch.len() {
                            assert(g.ops[k] == launch[k - gate.len()]);
                        } else {
                            assert(g.ops[k] == wops[k - gate.len() - launch.len()]);
                        }
                    }
                }
            },
        }
    }
}

proof fn lemma_order_members_nonempty(ws: Seq<crate::model::WindowSnapshot>, key: Seq<char>, n: int)
    requires
        0 <= n <= ws.len(),
        group_order(ws.subrange(0, n)).contains(key),
    ensures
        group_members(ws, key, n).len() > 0,
    decreases n,
{
    if n > 0 {
        let pre = ws.subrange(0, n);
        assert(pre.drop_last() =~= ws.subrange(0, n - 1));
        assert(pre.last() == ws[n - 1]);
        let prev = group_order(ws.subrange(0, n - 1));
        let k = spec_group_key(ws[n - 1]);
        assert(group_order(pre) == if prev.contains(k) { prev } else { prev.push(k) });
        if k != key {
            if !prev.contains(k) {
                let w = choose|w: int| 0 <= w < prev.push(k).len() && prev.push(k)[w] == key;
                assert(w < prev.len());
                assert(prev[w] == key);
            }
            lemma_order_members_nonempty(ws, key, n - 1);
        }
    }
}

proof fn lemma_plan_groups_ok(inp: PlanInput, keys: Seq<Seq<char>>)
    requires
        plan_input_valid(inp),
        forall|j: int| 0 <= j < keys.len() ==> group_order(inp.windows).contains(#[trigger] keys[j]),
    ensures
        forall|k: int| 0 <= k < plan_groups(inp, keys).ops.len() ==> group_op_ok(inp, #[trigger] plan_groups(inp, keys).ops[k]),
    decreases keys.len(),
{
    if keys.len() > 0 {
        lemma_plan_groups_ok(inp, keys.drop_last());
        let prev = plan_groups(inp, keys.drop_last());
        assert(inp.windows.subrange(0, inp.windows.len() as int) =~= inp.windows);
        assert(group_order(inp.windows).contains(keys[keys.len() - 1]));
        lemma_order_members_nonempty(inp.windows, keys.last(), inp.windows.len() as int);
        lemma_plan_group_ok(inp, keys.last(), prev.consumed);
        let g = spec_plan_group(
            inp,
            group_members(inp.windows, keys.last(), inp.windows.len() as int),
            prev.consumed,
        );
        let cur = plan_groups(inp, keys);
        assert forall|k: int| 0 <= k < cur.ops.len() implies group_op_ok(inp, #[trigger] cur.ops[k]) by {
            if k < prev.ops.len() {
                assert(cur.ops[k] == prev.ops[k]);
            } else {
                assert(cur.ops[k] == g.ops[k - prev.ops.len()]);
            }
        }
    }
}

/// An operation of the reconciliation stage: minimizing or closing an
/// unclaimed live window of a reconcilable bundle, as the mode allows.
pub open spec fn conflict_op_ok(inp: PlanInput, op: PlannedOperationView) -> bool {
    match op.kind {
        OperationKindView::CloseConflict { .. } => inp.options.mode.spec_allows_close() && match op.bundle_id {
            Some(b) => spec_reconcilable(inp, b),
            None => false,
        },
        OperationKindView::MinimizeConflict { .. } => inp.options.mode.spec_allows_minimize() && match op.bundle_id {
            Some(b) => spec_reconcilable(inp, b),
            None => false,
        },
        _ => false,
    }
}

proof fn lemma_conflicts_ok(inp: PlanInput, consumed: Seq<u32>, n: int)
    requires
        0 <= n <= inp.live.len(),
    ensures
        forall|k: int| 0 <= k < conflicts_upto(inp, consumed, n).ops.len() ==> conflict_op_ok(
            inp,
            #[trigger] conflicts_upto(inp, consumed, n).ops[k],
        ),
    decreases n,
{
    if n > 0 {
        lemma_conflicts_ok(inp, consumed, n - 1);
        let prev = conflicts_upto(inp, consumed, n - 1);
        let cur = conflicts_upto(inp, consumed, n);
        assert forall|k: int| 0 <= k < cur.ops.len() implies conflict_op_ok(inp, #[trigger] cur.ops[k]) by {
            if k < prev.ops.len() {
                assert(cur.ops[k] == prev.ops[k]);
            }
        }
    }
}

/// Every operation of a plan is a grouping-stage operation or a
/// reconciliation-stage operation as described above.
pub proof fn lemma_plan_ops_classified(inp: PlanInput)
    requires
        plan_input_valid(inp),
    ensures
        forall|k: int| 0 <= k < spec_plan_restore(inp).operations.len() ==> group_op_ok(
            inp,
            #[trigger] spec_plan_restore(inp).operations[k],
        ) || conflict_op_ok(inp, spec_plan_restore(inp).operations[k]),
{
    let order = group_order(inp.windows);
    assert forall|j: int| 0 <= j < order.len() implies order.contains(#[trigger] order[j]) by {}
    lemma_plan_groups_ok(inp, order);
    let g = plan_groups(inp, order);
    let plan = spec_plan_restore(inp);
    if inp.options.mode.spec_allows_minimize() || inp.options.mode.spec_allows_close() {
        lemma_conflicts_ok(inp, g.consumed, inp.live.len() as int);
        let c = conflicts_upto(inp, g.consumed, inp.live.len() as int);
        assert forall|k: int| 0 <= k < plan.operations.len() implies group_op_ok(inp, #[trigger] plan.operations[k])
            || conflict_op_ok(inp, plan.operations[k]) by {
            if k < g.ops.len() {
                assert(plan.operations[k] == g.ops[k]);
            } else {
                assert(plan.operations[k] == c.ops[k - g.ops.len()]);
            }
        }
    }
}

/// Safe mode never closes or minimizes a window: no operation of a
/// safe-mode plan is destructive, and it counts no destructive operation.
pub proof fn law_safe_mode_never_destructive(inp: PlanInput)
    requires
        plan_input_valid(inp),
        inp.options.mode == RestoreMode::Safe,
    ensures
        forall|k: int| 0 <= k < spec_plan_restore(inp).operations.len() ==> !spec_is_destructive(
            (#[trigger] spec_plan_restore(inp).operations[k]).kind,
        ),
        spec_plan_restore(inp).destructive_ops == 0,
{
    lemma_plan_ops_classified(inp);
}

/// Reconciliation only touches applications being restored: every close or
/// minimize operation names a bundle of which some saved window is restored
/// (enabled, on the allowlist, not fullscreen), never an editor that
/// `--dev-mode` protects, and is allowed by the mode (close only in
/// destructive mode, minimize only in reconcile or destructive mode).
pub proof fn law_conflicts_only_for_owned_bundles(inp: PlanInput)
    requires
        plan_input_valid(inp),
    ensures
        forall|k: int| 0 <= k < spec_plan_restore(inp).operations.len() && spec_is_destructive(
            (#[trigger] spec_plan_restore(inp).operations[k]).kind,
        ) ==> conflict_op_ok(inp, spec_plan_restore(inp).operations[k]),
{
    lemma_plan_ops_classified(inp);
}

/// The planner never names an application the snapshot does not contain:
/// every bundle identifier on an operation is that of some saved window.
pub proof fn law_ops_name_only_saved_bundles(inp: PlanInput)
    requires
        plan_input_valid(inp),
    ensures
        forall|k: int| 0 <= k < spec_plan_restore(inp).operations.len() && (#[trigger] spec_plan_restore(
            inp,
        ).operations[k]).bundle_id is Some ==> saved_bundle(inp, spec_plan_restore(inp).operations[k].bundle_id->0),
{
    lemma_plan_ops_classified(inp);
    let plan = spec_plan_restore(inp);
    assert forall|k: int| 0 <= k < plan.operations.len() && (#[trigger] plan.operations[k]).bundle_id is Some implies saved_bundle(
        inp,
        plan.operations[k].bundle_id->0,
    ) by {
        let op = plan.operations[k];
        let b = op.bundle_id->0;
        if group_op_ok(inp, op) {
            match op.kind {
                OperationKindView::LaunchApp { .. } => {
                    let i = choose|i: int| 0 <= i < inp.windows.len() && spec_skip_reason(#[trigger] inp.windows[i]) is None && bundle_of(inp.windows[i]) == Some(b);
                    assert(bundle_of(inp.windows[i]) == Some(b));
                },
                _ => {
                    let i = op.saved_window_index->0 as int;
                    assert(bundle_of(inp.windows[i]) == Some(b));
                },
            }
        } else {
            let i = choose|i: int| 0 <= i < inp.windows.len() && (#[trigger] inp.windows[i]).enabled && bundle_of(inp.windows[i]) == Some(b);
            assert(bundle_of(inp.windows[i]) == Some(b));
        }
    }
}

/// Applications are launched only when the plan restores one of their
/// windows, only when they are not running, and never when dev-mode
/// protects them: disabled, unsupported and fullscreen windows never cause
/// a launch.
pub proof fn law_launch_only_when_needed(inp: PlanInput)
    requires
        plan_input_valid(inp),
    ensures
        forall|k: int| 0 <= k < spec_plan_restore(inp).operations.len() && (#[trigger] spec_plan_restore(
            inp,
        ).operations[k]).kind is LaunchApp ==> ({
            let b = spec_plan_restore(inp).operations[k].kind->LaunchApp_bundle_id;
            &&& restorable_bundle(inp, b)
            &&& !spec_is_running(inp.running, b)
            &&& !(inp.options.dev_mode && spec_dev_mode_protected(b))
        }),
{
    lemma_plan_ops_classified(inp);
}

// ---------------------------------------------------------------------------
// Each application is launched at most once
// ---------------------------------------------------------------------------

proof fn lemma_gate_all_skip(inp: PlanInput, idx: Seq<int>)
    ensures
        forall|k: int| 0 <= k < gate_ops(inp, idx).len() ==> (#[trigger] gate_ops(inp, idx)[k]).kind is Skip,
    decreases idx.len(),
{
    if idx.len() > 0 {
        lemma_gate_all_skip(inp, idx.drop_last());
        let prev = gate_ops(inp, idx.drop_last());
        let cur = gate_ops(inp, idx);
        assert forall|k: int| 0 <= k < cur.len() implies (#[trigger] cur[k]).kind is Skip by {
            if k < prev.len() {
                assert(cur[k] == prev[k]);
            }
        }
    }
}

proof fn lemma_bulk_all_skip(inp: PlanInput, idx: Seq<int>, reason: Seq<char>)
    ensures
        forall|k: int| 0 <= k < bulk_skip_ops(inp, idx, reason).len() ==> (#[trigger] bulk_skip_ops(inp, idx, reason)[k]).kind
            is Skip,
    decreases idx.len(),
{
    if idx.len() > 0 {
        lemma_bulk_all_skip(inp, idx.drop_last(), reason);
        let prev = bulk_skip_ops(inp, idx.drop_last(), reason);
        let cur = bulk_skip_ops(inp, idx, reason);
        assert forall|k: int| 0 <= k < cur.len() implies (#[trigger] cur[k]).kind is Skip by {
            if k < prev.len() {
                assert(cur[k] == prev[k]);
            }
        }
    }
}

proof fn lemma_window_ops_no_launch(
    inp: PlanInput,
    b: Seq<char>,
    active: Seq<int>,
    cands: Seq<int>,
    asg: Seq<Option<int>>,
    n: int,
)
    ensures
        forall|k: int| 0 <= k < window_ops_upto(inp, b, active, cands, asg, n).len() ==> !((
        #[trigger] window_ops_upto(inp, b, active, cands, asg, n)[k]).kind is LaunchApp),
    decreases n,
{
    if n > 0 {
        lemma_window_ops_no_launch(inp, b, active, cands, asg, n - 1);
        let prev = window_ops_upto(inp, b, active, cands, asg, n - 1);
        let cur = window_ops_upto(inp, b, active, cands, asg, n);
        assert forall|k: int| 0 <= k < cur.len() implies !((#[trigger] cur[k]).kind is LaunchApp) by {
            if k < prev.len() {
                assert(cur[k] == prev[k]);
            }
        }
    }
}

/// In the operations of one group, at most one is a launch, and it
/// launches the group's key.
proof fn lemma_group_launches(inp: PlanInput, key: Seq<char>, consumed: Seq<u32>)
    requires
        group_members(inp.windows, key, inp.windows.len() as int).len() > 0,
    ensures
        ({
            let g = spec_plan_group(inp, group_members(inp.windows, key, inp.windows.len() as int), consumed);
            &&& forall|k: int| 0 <= k < g.ops.len() && (#[trigger] g.ops[k]).kind is LaunchApp ==> g.ops[k].kind->LaunchApp_bundle_id
                == key
            &&& forall|k1: int, k2: int| 0 <= k1 < k2 < g.ops.len() ==> !((#[trigger] g.ops[k1]).kind is LaunchApp && (
            #[trigger] g.ops[k2]).kind is LaunchApp)
        }),
{
    let n = inp.windows.len() as int;
    let idx = group_members(inp.windows, key, n);
    lemma_members_facts(inp.windows, key, n);
    lemma_gate_all_skip(inp, idx);
    let gate = gate_ops(inp, idx);
    let active = active_of(inp, idx);
    let first = inp.windows[idx[0]];
    let g = spec_plan_group(inp, idx, consumed);
    if active.len() > 0 {
        match bundle_of(first) {
            None => {
                lemma_bulk_all_skip(inp, active, "missing bundle identifier"@);
                let bulk = bulk_skip_ops(inp, active, "missing bundle identifier"@);
                assert forall|k: int| 0 <= k < g.ops.len() implies (#[trigger] g.ops[k]).kind is Skip by {
                    if k < gate.len() {
                        assert(g.ops[k] == gate[k]);
                    } else {
                        assert(g.ops[k] == bulk[k - gate.len()]);
                    }
                }
            },
            Some(b) => {
                assert(spec_group_key(first) == key);
                let running = spec_is_running(inp.running, b);
                if !running && inp.options.dev_mode && spec_dev_mode_protected(b) {
                    let reason = "dev-mode: not launching protected editor"@;
                    lemma_bulk_all_skip(inp, active, reason);
                    let bulk = bulk_skip_ops(inp, active, reason);
                    assert forall|k: int| 0 <= k < g.ops.len() implies (#[trigger] g.ops[k]).kind is Skip by {
                        if k < gate.len() {
                            assert(g.ops[k] == gate[k]);
                        } else {
                            assert(g.ops[k] == bulk[k - gate.len()]);
                        }
                    }
                } else {
                    let launch: Seq<PlannedOperationView> = if running { seq![] } else { seq![launch_op(first, b)] };
                    let cands = candidates_upto(inp, b, inp.live.len() as int);
                    let m = MatchInput {
                        table: inp.table,
                        saved: active,
                        live: cands,
                        taken: taken_of(inp, cands, consumed),
                    };
                    let asg = spec_assign_matches(m);
                    let wops = window_ops_upto(inp, b, active, cands, asg, active.len() as int);
                    lemma_window_ops_no_launch(inp, b, active, cands, asg, active.len() as int);
                    assert(g.ops == gate + launch + wops);
                    assert forall|k: int| 0 <= k < g.ops.len() && (#[trigger] g.ops[k]).kind is LaunchApp implies k
                        == gate.len() && launch.len() == 1 && g.ops[k].kind->LaunchApp_bundle_id == key by {
                        if k < gate.len() {
                            assert(g.ops[k] == gate[k]);
                        } else if k < gate.len() + launch.len() {
                            assert(g.ops[k] == launch[k - gate.len()]);
                        } else {
                            assert(g.ops[k] == wops[k - gate.len() - launch.len()]);
                        }
                    }
                }
            },
        }
    }
}

/// The launches of the groups with keys `keys` (distinct keys of the
/// workspace): each launches its group's key, and no two launch the same
/// application.
proof fn lemma_groups_launches(inp: PlanInput, keys: Seq<Seq<char>>)
    requires
        keys.no_duplicates(),
        forall|j: int| 0 <= j < keys.len() ==> group_order(inp.windows).contains(#[trigger] keys[j]),
    ensures
        ({
            let ops = plan_groups(inp, keys).ops;
            &&& forall|k: int| 0 <= k < ops.len() && (#[trigger] ops[k]).kind is LaunchApp ==> keys.contains(
                ops[k].kind->LaunchApp_bundle_id,
            )
            &&& forall|k1: int, k2: int| 0 <= k1 < k2 < ops.len() && (#[trigger] ops[k1]).kind is LaunchApp && (
            #[trigger] ops[k2]).kind is LaunchApp ==> ops[k1].kind->LaunchApp_bundle_id != ops[k2].kind->LaunchApp_bundle_id
        }),
    decreases keys.len(),
{
    if keys.len() > 0 {
        let pk = keys.drop_last();
        assert forall|a: int, b: int| 0 <= a < b < pk.len() implies pk[a] != pk[b] by {
            assert(pk[a] == keys[a] && pk[b] == keys[b]);
        }
        assert forall|j: int| 0 <= j < pk.len() implies group_order(inp.windows).contains(#[trigger] pk[j]) by {
            assert(pk[j] == keys[j]);
        }
        lemma_groups_launches(inp, pk);
        let prev = plan_groups(inp, pk);
        let key = keys.last();
        assert(inp.windows.subrange(0, inp.windows.len() as int) =~= inp.windows);
        assert(group_order(inp.windows).contains(keys[keys.len() - 1]));
        lemma_order_members_nonempty(inp.windows, key, inp.windows.len() as int);
        lemma_group_launches(inp, key, prev.consumed);
        let g = spec_plan_group(inp, group_members(inp.windows, key, inp.windows.len() as int), prev.consumed);
        let ops = plan_groups(inp, keys).ops;
        assert(ops == prev.ops + g.ops);
        assert(!pk.contains(key)) by {
            if pk.contains(key) {
                let j = choose|j: int| 0 <= j < pk.len() && pk[j] == key;
                assert(keys[j] == keys[keys.len() - 1]);
            }
        }
        assert forall|k: int| 0 <= k < ops.len() && (#[trigger] ops[k]).kind is LaunchApp implies keys.contains(
            ops[k].kind->LaunchApp_bundle_id,
        ) by {
            if k < prev.ops.len() {
                assert(ops[k] == prev.ops[k]);
                let j = choose|j: int| 0 <= j < pk.len() && pk[j] == ops[k].kind->LaunchApp_bundle_id;
                assert(keys[j] == pk[j]);
            } else {
                assert(ops[k] == g.ops[k - prev.ops.len()]);
                assert(keys[keys.len() - 1] == key);
            }
        }
        assert forall|k1: int, k2: int| 0 <= k1 < k2 < ops.len() && (#[trigger] ops[k1]).kind is LaunchApp && (
        #[trigger] ops[k2]).kind is LaunchApp implies ops[k1].kind->LaunchApp_bundle_id != ops[k2].kind->LaunchApp_bundle_id by {
            if k2 < prev.ops.len() {
                assert(ops[k1] == prev.ops[k1] && ops[k2] == prev.ops[k2]);
            } else if k1 < prev.ops.len() {
                assert(ops[k1] == prev.ops[k1]);
                assert(ops[k2] == g.ops[k2 - prev.ops.len()]);
            } else {
                assert(ops[k1] == g.ops[k1 - prev.ops.len()]);
                assert(ops[k2] == g.ops[k2 - prev.ops.len()]);
            }
        }
    }
}

/// Each missing application is launched at most once: no two launch
/// operations of a plan name the same bundle identifier.
pub proof fn law_launch_at_most_once_per_bundle(inp: PlanInput, k1: int, k2: int)
    requires
        0 <= k1 < k2 < spec_plan_restore(inp).operations.len(),
        spec_plan_restore(inp).operations[k1].kind is LaunchApp,
        spec_plan_restore(inp).operations[k2].kind is LaunchApp,
    ensures
        spec_plan_restore(inp).operations[k1].kind->LaunchApp_bundle_id != spec_plan_restore(
            inp,
        ).operations[k2].kind->LaunchApp_bundle_id,
{
    let order = group_order(inp.windows);
    lemma_order_no_dups(inp.windows);
    assert forall|j: int| 0 <= j < order.len() implies order.contains(#[trigger] order[j]) by {}
    lemma_groups_launches(inp, order);
    let g = plan_groups(inp, order);
    let plan = spec_plan_restore(inp);
    if inp.options.mode.spec_allows_minimize() || inp.options.mode.spec_allows_close() {
        lemma_conflicts_ok(inp, g.consumed, inp.live.len() as int);
        let c = conflicts_upto(inp, g.consumed, inp.live.len() as int);
        assert(plan.operations == g.ops + c.ops);
        if k2 >= g.ops.len() {
            assert(plan.operations[k2] == c.ops[k2 - g.ops.len()]);
            assert(conflict_op_ok(inp, c.ops[k2 - g.ops.len()]));
        }
        assert(plan.operations[k1] == g.ops[k1] || k1 >= g.ops.len());
        if k1 >= g.ops.len() {
            assert(plan.operations[k1] == c.ops[k1 - g.ops.len()]);
            assert(conflict_op_ok(inp, c.ops[k1 - g.ops.len()]));
        }
        assert(plan.operations[k1] == g.ops[k1]);
        assert(plan.operations[k2] == g.ops[k2]);
    }
}

// ---------------------------------------------------------------------------
// Each live window is repositioned at most once
// ---------------------------------------------------------------------------

/// A partial matching: one entry per saved position, each assigned
/// candidate in range and not claimed elsewhere, no candidate twice.
pub open spec fn assign_ok(m: MatchInput, assign: Seq<Option<int>>) -> bool {
    &&& assign.len() == m.saved.len()
    &&& m.taken.len() == m.live.len()
    &&& forall|a: int| 0 <= a < assign.len() && (#[trigger] assign[a]) is Some ==> 0 <= assign[a]->0 < m.live.len()
        && !m.taken[assign[a]->0] && pair_score(m, a, assign[a]->0).spec_is_acceptable()
    &&& forall|a1: int, a2: int| 0 <= a1 < a2 < assign.len() && (#[trigger] assign[a1]) is Some && (
    #[trigger] assign[a2]) is Some ==> assign[a1] != assign[a2]
}

proof fn lemma_greedy_ok(m: MatchInput, assign: Seq<Option<int>>)
    requires
        assign_ok(m, assign),
    ensures
        assign_ok(m, greedy(m, assign)),
    decreases num_unassigned(assign),
{
    if exists|a: int, c: int| is_next(m, assign, a, c) {
        let (a, c) = choose|a: int, c: int| is_next(m, assign, a, c);
        assert(free_pair(m, assign, a, c));
        lemma_num_unassigned_update(assign, a, c);
        let next = assign.update(a, Some(c));
        assert forall|a1: int, a2: int| 0 <= a1 < a2 < next.len() && (#[trigger] next[a1]) is Some && (
        #[trigger] next[a2]) is Some implies next[a1] != next[a2] by {
            if a1 == a {
                if next[a2] == Some(c) {
                    assert(assign[a2] == Some(c));
                    assert(live_used(assign, c));
                }
            } else if a2 == a {
                if next[a1] == Some(c) {
                    assert(assign[a1] == Some(c));
                    assert(live_used(assign, c));
                }
            }
        }
        lemma_greedy_ok(m, next);
    }
}

proof fn lemma_assign_matches_ok(m: MatchInput)
    requires
        m.taken.len() == m.live.len(),
    ensures
        assign_ok(m, spec_assign_matches(m)),
{
    lemma_greedy_ok(m, Seq::new(m.saved.len(), |i: int| None::<int>));
}

proof fn lemma_candidates_facts(inp: PlanInput, b: Seq<char>, n: int)
    requires
        0 <= n <= inp.live.len(),
    ensures
        forall|k: int| 0 <= k < candidates_upto(inp, b, n).len() ==> 0 <= #[trigger] candidates_upto(inp, b, n)[k] < n
            && crate::text::opt_view(inp.live[candidates_upto(inp, b, n)[k]].bundle_id) == Some(b),
        forall|k1: int, k2: int| 0 <= k1 < k2 < candidates_upto(inp, b, n).len() ==> #[trigger] candidates_upto(inp, b, n)[k1]
            < #[trigger] candidates_upto(inp, b, n)[k2],
    decreases n,
{
    if n > 0 {
        lemma_candidates_facts(inp, b, n - 1);
        let prev = candidates_upto(inp, b, n - 1);
        let cur = candidates_upto(inp, b, n);
        assert forall|k: int| 0 <= k < cur.len() implies 0 <= #[trigger] cur[k] < n
            && crate::text::opt_view(inp.live[cur[k]].bundle_id) == Some(b) by {
            if k < prev.len() {
                assert(cur[k] == prev[k]);
            }
        }
        assert forall|k1: int, k2: int| 0 <= k1 < k2 < cur.len() implies #[trigger] cur[k1] < #[trigger] cur[k2] by {
            assert(cur[k1] == prev[k1]);
            if k2 < prev.len() {
                assert(cur[k2] == prev[k2]);
            }
        }
    }
}

proof fn lemma_window_ops_index(
    inp: PlanInput,
    b: Seq<char>,
    active: Seq<int>,
    cands: Seq<int>,
    asg: Seq<Option<int>>,
    n: int,
)
    requires
        0 <= n,
    ensures
        window_ops_upto(inp, b, active, cands, asg, n).len() == n,
        forall|k: int| 0 <= k < n ==> #[trigger] window_ops_upto(inp, b, active, cands, asg, n)[k] == window_op(
            inp,
            b,
            active[k],
            matched_live(cands, asg, k),
        ),
    decreases n,
{
    if n > 0 {
        lemma_window_ops_index(inp, b, active, cands, asg, n - 1);
        let prev = window_ops_upto(inp, b, active, cands, asg, n - 1);
        let cur = window_ops_upto(inp, b, active, cands, asg, n);
        assert forall|k: int| 0 <= k < n implies #[trigger] cur[k] == window_op(inp, b, active[k], matched_live(cands, asg, k)) by {
            if k < n - 1 {
                assert(cur[k] == prev[k]);
            }
        }
    }
}

/// No two live windows share a process and a window identifier.
pub open spec fn live_ids_unique(inp: PlanInput) -> bool {
    forall|l1: int, l2: int| 0 <= l1 < l2 < inp.live.len() ==> !((#[trigger] inp.live[l1]).pid == (
    #[trigger] inp.live[l2]).pid && inp.live[l1].window_id == inp.live[l2].window_id)
}

/// A reposition operation moves live window `l`.
pub open spec fn moves_live(inp: PlanInput, op: PlannedOperationView, l: int) -> bool {
    op.kind == (OperationKindView::Reposition { live_pid: inp.live[l].pid, live_window_id: inp.live[l].window_id })
}

/// Reposition `op` moves live window `l` of the operation's application, and
/// carries the score of its saved window against `l`, which is acceptable.
pub open spec fn reposition_evidence(inp: PlanInput, op: PlannedOperationView, l: int) -> bool {
    &&& 0 <= l < inp.live.len()
    &&& moves_live(inp, op, l)
    &&& op.bundle_id == crate::text::opt_view(inp.live[l].bundle_id)
    &&& op.saved_window_index is Some
    &&& op.match_score == Some(inp.table[op.saved_window_index->0 as int][l])
    &&& inp.table[op.saved_window_index->0 as int][l].spec_is_acceptable()
}

proof fn lemma_claimed_contains(inp: PlanInput, cands: Seq<int>, asg: Seq<Option<int>>, n: int, a: int)
    requires
        0 <= a < n,
        asg[a] is Some,
    ensures
        claimed_upto(inp, cands, asg, n).contains(inp.live[cands[asg[a]->0]].window_id),
    decreases n,
{
    let prev = claimed_upto(inp, cands, asg, n - 1);
    let cur = claimed_upto(inp, cands, asg, n);
    if a == n - 1 {
        assert(cur[prev.len() as int] == inp.live[cands[asg[a]->0]].window_id);
    } else {
        lemma_claimed_contains(inp, cands, asg, n - 1, a);
        let q = choose|q: int| 0 <= q < prev.len() && prev[q] == inp.live[cands[asg[a]->0]].window_id;
        assert(cur[q] == prev[q]);
    }
}

/// In one group, every reposition moves a live window of the group's key on
/// an acceptable score, and, when live windows are told apart, no two
/// repositions move the same window.
proof fn lemma_group_repositions(inp: PlanInput, key: Seq<char>, consumed: Seq<u32>)
    requires
        plan_input_valid(inp),
        group_members(inp.windows, key, inp.windows.len() as int).len() > 0,
    ensures
        ({
            let g = spec_plan_group(inp, group_members(inp.windows, key, inp.windows.len() as int), consumed);
            &&& forall|k: int| 0 <= k < g.ops.len() && (#[trigger] g.ops[k]).kind is Reposition ==> exists|l: int|
                reposition_evidence(inp, g.ops[k], l) && crate::text::opt_view(inp.live[l].bundle_id) == Some(key)
            &&& live_ids_unique(inp) ==> forall|k1: int, k2: int| 0 <= k1 < k2 < g.ops.len() && (
            #[trigger] g.ops[k1]).kind is Reposition && (#[trigger] g.ops[k2]).kind is Reposition ==> g.ops[k1].kind
                != g.ops[k2].kind
            &&& forall|k: int| 0 <= k < g.ops.len() && (#[trigger] g.ops[k]).kind is Reposition ==> g.consumed.contains(
                g.ops[k].kind->Reposition_live_window_id,
            )
            &&& forall|x: u32| consumed.contains(x) ==> #[trigger] g.consumed.contains(x)
        }),
{
    let n = inp.windows.len() as int;
    let idx = group_members(inp.windows, key, n);
    lemma_members_facts(inp.windows, key, n);
    lemma_gate_all_skip(inp, idx);
    let gate = gate_ops(inp, idx);
    let active = active_of(inp, idx);
    let first = inp.windows[idx[0]];
    let g = spec_plan_group(inp, idx, consumed);
    if active.len() > 0 {
        match bundle_of(first) {
            None => {
                lemma_bulk_all_skip(inp, active, "missing bundle identifier"@);
                let bulk = bulk_skip_ops(inp, active, "missing bundle identifier"@);
                assert forall|k: int| 0 <= k < g.ops.len() implies (#[trigger] g.ops[k]).kind is Skip by {
                    if k < gate.len() {
                        assert(g.ops[k] == gate[k]);
                    } else {
                        assert(g.ops[k] == bulk[k - gate.len()]);
                    }
                }
            },
            Some(b) => {
                assert(spec_group_key(first) == key);
                let running = spec_is_running(inp.running, b);
                if !running && inp.options.dev_mode && spec_dev_mode_protected(b) {
                    let reason = "dev-mode: not launching protected editor"@;
                    lemma_bulk_all_skip(inp, active, reason);
                    let bulk = bulk_skip_ops(inp, active, reason);
                    assert forall|k: int| 0 <= k < g.ops.len() implies (#[trigger] g.ops[k]).kind is Skip by {
                        if k < gate.len() {
                            assert(g.ops[k] == gate[k]);
                        } else {
                            assert(g.ops[k] == bulk[k - gate.len()]);
                        }
                    }
                } else {
                    let launch: Seq<PlannedOperationView> = if running { seq![] } else { seq![launch_op(first, b)] };
                    let cands = candidates_upto(inp, b, inp.live.len() as int);
                    let m = MatchInput {
                        table: inp.table,
                        saved: active,
                        live: cands,
                        taken: taken_of(inp, cands, consumed),
                    };
                    let asg = spec_assign_matches(m);
                    lemma_assign_matches_ok(m);
                    lemma_candidates_facts(inp, b, inp.live.len() as int);
                    lemma_active_facts(inp, idx);
                    let wops = window_ops_upto(inp, b, active, cands, asg, active.len() as int);
                    lemma_window_ops_index(inp, b, active, cands, asg, active.len() as int);
                    assert(g.ops == gate + launch + wops);
                    let base = gate.len() + launch.len();
                    assert forall|k: int| 0 <= k < g.ops.len() && (#[trigger] g.ops[k]).kind is Reposition implies k
                        >= base && asg[k - base] is Some && reposition_evidence(inp, g.ops[k], cands[asg[k - base]->0])
                        && crate::text::opt_view(inp.live[cands[asg[k - base]->0]].bundle_id) == Some(key) by {
                        if k < gate.len() {
                            assert(g.ops[k] == gate[k]);
                        } else if k < base {
                            assert(g.ops[k] == launch[k - gate.len()]);
                        } else {
                            assert(g.ops[k] == wops[k - base]);
                            assert(wops[k - base] == window_op(inp, b, active[k - base], matched_live(cands, asg, k - base)));
                            let a = k - base;
                            let c = asg[a]->0;
                            assert(pair_score(m, a, c).spec_is_acceptable());
                            let i = active[a];
                            assert(idx.contains(i));
                            let t = choose|t: int| 0 <= t < idx.len() && idx[t] == i;
                            assert(0 <= idx[t] < n);
                            assert(g.ops[k].saved_window_index == Some(i as usize));
                            assert((i as usize) as int == i);
                        }
                    }
                    assert forall|k: int| 0 <= k < g.ops.len() && (#[trigger] g.ops[k]).kind is Reposition implies exists|l: int|
                        reposition_evidence(inp, g.ops[k], l) && crate::text::opt_view(inp.live[l].bundle_id) == Some(key) by {
                        let l = cands[asg[k - base]->0];
                        assert(reposition_evidence(inp, g.ops[k], l) && crate::text::opt_view(inp.live[l].bundle_id) == Some(key));
                    }
                    let claimed = claimed_upto(inp, cands, asg, active.len() as int);
                    assert(g.consumed == consumed + claimed);
                    assert forall|k: int| 0 <= k < g.ops.len() && (#[trigger] g.ops[k]).kind is Reposition implies g.consumed.contains(
                        g.ops[k].kind->Reposition_live_window_id,
                    ) by {
                        let a = k - base;
                        let l = cands[asg[a]->0];
                        lemma_claimed_contains(inp, cands, asg, active.len() as int, a);
                        let q = choose|q: int| 0 <= q < claimed.len() && claimed[q] == inp.live[l].window_id;
                        assert(g.consumed[consumed.len() + q] == claimed[q]);
                    }
                    assert forall|x: u32| consumed.contains(x) implies #[trigger] g.consumed.contains(x) by {
                        let q = choose|q: int| 0 <= q < consumed.len() && consumed[q] == x;
                        assert(g.consumed[q] == x);
                    }
                    assert forall|k1: int, k2: int| live_ids_unique(inp) && 0 <= k1 < k2 < g.ops.len() && (
                    #[trigger] g.ops[k1]).kind is Reposition && (#[trigger] g.ops[k2]).kind is Reposition implies g.ops[k1].kind
                        != g.ops[k2].kind by {
                        let c1 = asg[k1 - base]->0;
                        let c2 = asg[k2 - base]->0;
                        assert(asg[k1 - base] != asg[k2 - base]);
                        assert(c1 != c2);
                        if c1 < c2 {
                            assert(cands[c1] < cands[c2]);
                        } else {
                            assert(cands[c2] < cands[c1]);
                        }
                        let l1 = cands[c1];
                        let l2 = cands[c2];
                        if l1 < l2 {
                            assert(!(inp.live[l1].pid == inp.live[l2].pid && inp.live[l1].window_id == inp.live[l2].window_id));
                        } else {
                            assert(!(inp.live[l2].pid == inp.live[l1].pid && inp.live[l2].window_id == inp.live[l1].window_id));
                        }
                    }
                }
            },
        }
    }
}

proof fn lemma_same_move_same_live(inp: PlanInput, op: PlannedOperationView, l1: int, l2: int)
    requires
        live_ids_unique(inp),
        0 <= l1 < inp.live.len(),
        0 <= l2 < inp.live.len(),
        moves_live(inp, op, l1),
        moves_live(inp, op, l2),
    ensures
        l1 == l2,
{
    if l1 < l2 {
        assert(!(inp.live[l1].pid == inp.live[l2].pid && inp.live[l1].window_id == inp.live[l2].window_id));
    } else if l2 < l1 {
        assert(!(inp.live[l2].pid == inp.live[l1].pid && inp.live[l2].window_id == inp.live[l1].window_id));
    }
}

proof fn lemma_groups_repositions(inp: PlanInput, keys: Seq<Seq<char>>)
    requires
        plan_input_valid(inp),
        keys.no_duplicates(),
        forall|j: int| 0 <= j < keys.len() ==> group_order(inp.windows).contains(#[trigger] keys[j]),
    ensures
        ({
            let ops = plan_groups(inp, keys).ops;
            &&& forall|k: int| 0 <= k < ops.len() && (#[trigger] ops[k]).kind is Reposition ==> exists|l: int|
                reposition_evidence(inp, ops[k], l) && crate::text::opt_view(inp.live[l].bundle_id) is Some
                    && keys.contains(crate::text::opt_view(inp.live[l].bundle_id)->0)
            &&& live_ids_unique(inp) ==> forall|k1: int, k2: int| 0 <= k1 < k2 < ops.len() && (
            #[trigger] ops[k1]).kind is Reposition && (#[trigger] ops[k2]).kind is Reposition ==> ops[k1].kind
                != ops[k2].kind
            &&& forall|k: int| 0 <= k < ops.len() && (#[trigger] ops[k]).kind is Reposition ==> plan_groups(
                inp,
                keys,
            ).consumed.contains(ops[k].kind->Reposition_live_window_id)
        }),
    decreases keys.len(),
{
    if keys.len() > 0 {
        let pk = keys.drop_last();
        assert forall|a: int, b: int| 0 <= a < b < pk.len() implies pk[a] != pk[b] by {
            assert(pk[a] == keys[a] && pk[b] == keys[b]);
        }
        assert forall|j: int| 0 <= j < pk.len() implies group_order(inp.windows).contains(#[trigger] pk[j]) by {
            assert(pk[j] == keys[j]);
        }
        lemma_groups_repositions(inp, pk);
        let prev = plan_groups(inp, pk);
        let key = keys.last();
        assert(inp.windows.subrange(0, inp.windows.len() as int) =~= inp.windows);
        assert(group_order(inp.windows).contains(keys[keys.len() - 1]));
        lemma_order_members_nonempty(inp.windows, key, inp.windows.len() as int);
        lemma_group_repositions(inp, key, prev.consumed);
        let g = spec_plan_group(inp, group_members(inp.windows, key, inp.windows.len() as int), prev.consumed);
        let ops = plan_groups(inp, keys).ops;
        assert(ops == prev.ops + g.ops);
        assert(!pk.contains(key)) by {
            if pk.contains(key) {
                let j = choose|j: int| 0 <= j < pk.len() && pk[j] == key;
                assert(keys[j] == keys[keys.len() - 1]);
            }
        }
        assert forall|k: int| 0 <= k < ops.len() && (#[trigger] ops[k]).kind is Reposition implies exists|l: int|
            reposition_evidence(inp, ops[k], l) && crate::text::opt_view(inp.live[l].bundle_id) is Some
                && keys.contains(crate::text::opt_view(inp.live[l].bundle_id)->0) by {
            if k < prev.ops.len() {
                assert(ops[k] == prev.ops[k]);
                let l = choose|l: int| reposition_evidence(inp, prev.ops[k], l) && crate::text::opt_view(
                    inp.live[l].bundle_id,
                ) is Some && pk.contains(crate::text::opt_view(inp.live[l].bundle_id)->0);
                let j = choose|j: int| 0 <= j < pk.len() && pk[j] == crate::text::opt_view(inp.live[l].bundle_id)->0;
                assert(keys[j] == pk[j]);
                assert(reposition_evidence(inp, ops[k], l));
            } else {
                assert(ops[k] == g.ops[k - prev.ops.len()]);
                let l = choose|l: int| reposition_evidence(inp, g.ops[k - prev.ops.len()], l) && crate::text::opt_view(
                    inp.live[l].bundle_id,
                ) == Some(key);
                assert(keys[keys.len() - 1] == key);
                assert(reposition_evidence(inp, ops[k], l));
            }
        }
        assert(plan_groups(inp, keys).consumed == g.consumed);
        assert forall|k: int| 0 <= k < ops.len() && (#[trigger] ops[k]).kind is Reposition implies plan_groups(
            inp,
            keys,
        ).consumed.contains(ops[k].kind->Reposition_live_window_id) by {
            if k < prev.ops.len() {
                assert(ops[k] == prev.ops[k]);
                assert(prev.consumed.contains(prev.ops[k].kind->Reposition_live_window_id));
            } else {
                assert(ops[k] == g.ops[k - prev.ops.len()]);
            }
        }
        assert forall|k1: int, k2: int| live_ids_unique(inp) && 0 <= k1 < k2 < ops.len() && (
        #[trigger] ops[k1]).kind is Reposition && (#[trigger] ops[k2]).kind is Reposition implies ops[k1].kind
            != ops[k2].kind by {
            if k2 < prev.ops.len() {
                assert(ops[k1] == prev.ops[k1] && ops[k2] == prev.ops[k2]);
            } else if k1 >= prev.ops.len() {
                assert(ops[k1] == g.ops[k1 - prev.ops.len()]);
                assert(ops[k2] == g.ops[k2 - prev.ops.len()]);
            } else {
                assert(ops[k1] == prev.ops[k1]);
                assert(ops[k2] == g.ops[k2 - prev.ops.len()]);
                let l1 = choose|l: int| reposition_evidence(inp, prev.ops[k1], l) && crate::text::opt_view(
                    inp.live[l].bundle_id,
                ) is Some && pk.contains(crate::text::opt_view(inp.live[l].bundle_id)->0);
                let l2 = choose|l: int| reposition_evidence(inp, g.ops[k2 - prev.ops.len()], l) && crate::text::opt_view(
                    inp.live[l].bundle_id,
                ) == Some(key);
                if ops[k1].kind == ops[k2].kind {
                    lemma_same_move_same_live(inp, ops[k1], l1, l2);
                    assert(pk.contains(key));
                }
            }
        }
    }
}

/// No live window is repositioned twice: when live windows are told apart
/// by process and window identifier, no two reposition operations of a plan
/// move the same one, so saved windows with the same title get distinct
/// live windows.
pub proof fn law_each_live_window_repositioned_at_most_once(inp: PlanInput, k1: int, k2: int)
    requires
        plan_input_valid(inp),
        live_ids_unique(inp),
        0 <= k1 < k2 < spec_plan_restore(inp).operations.len(),
        spec_plan_restore(inp).operations[k1].kind is Reposition,
        spec_plan_restore(inp).operations[k2].kind is Reposition,
    ensures
        spec_plan_restore(inp).operations[k1].kind != spec_plan_restore(inp).operations[k2].kind,
{
    let order = group_order(inp.windows);
    lemma_order_no_dups(inp.windows);
    assert forall|j: int| 0 <= j < order.len() implies order.contains(#[trigger] order[j]) by {}
    lemma_groups_repositions(inp, order);
    let g = plan_groups(inp, order);
    let plan = spec_plan_restore(inp);
    if inp.options.mode.spec_allows_minimize() || inp.options.mode.spec_allows_close() {
        lemma_conflicts_ok(inp, g.consumed, inp.live.len() as int);
        let c = conflicts_upto(inp, g.consumed, inp.live.len() as int);
        assert(plan.operations == g.ops + c.ops);
        if k2 >= g.ops.len() {
            assert(plan.operations[k2] == c.ops[k2 - g.ops.len()]);
            assert(conflict_op_ok(inp, c.ops[k2 - g.ops.len()]));
        }
        if k1 >= g.ops.len() {
            assert(plan.operations[k1] == c.ops[k1 - g.ops.len()]);
            assert(conflict_op_ok(inp, c.ops[k1 - g.ops.len()]));
        }
        assert(plan.operations[k1] == g.ops[k1]);
        assert(plan.operations[k2] == g.ops[k2]);
    }
}

/// A weak match never moves a window: every reposition names a saved window
/// with an application, moves a live window of that same application, and
/// carries the score of the saved window against that live window, which
/// clears the acceptance floor (and, when there were no titles to compare,
/// is a near-exact geometry match).
pub proof fn law_reposition_only_on_acceptable_match(inp: PlanInput, k: int)
    requires
        plan_input_valid(inp),
        0 <= k < spec_plan_restore(inp).operations.len(),
        spec_plan_restore(inp).operations[k].kind is Reposition,
    ensures
        spec_plan_restore(inp).operations[k].saved_window_index is Some,
        (spec_plan_restore(inp).operations[k].saved_window_index->0 as int) < inp.windows.len(),
        bundle_of(inp.windows[spec_plan_restore(inp).operations[k].saved_window_index->0 as int]) is Some,
        exists|l: int|
            reposition_evidence(inp, spec_plan_restore(inp).operations[k], l) && crate::text::opt_view(
                #[trigger] inp.live[l].bundle_id,
            ) == bundle_of(inp.windows[spec_plan_restore(inp).operations[k].saved_window_index->0 as int]),
{
    lemma_plan_ops_classified(inp);
    let order = group_order(inp.windows);
    lemma_order_no_dups(inp.windows);
    assert forall|j: int| 0 <= j < order.len() implies order.contains(#[trigger] order[j]) by {}
    lemma_groups_repositions(inp, order);
    let g = plan_groups(inp, order);
    let plan = spec_plan_restore(inp);
    let op = plan.operations[k];
    assert(!conflict_op_ok(inp, op));
    assert(group_op_ok(inp, op));
    if inp.options.mode.spec_allows_minimize() || inp.options.mode.spec_allows_close() {
        lemma_conflicts_ok(inp, g.consumed, inp.live.len() as int);
        let c = conflicts_upto(inp, g.consumed, inp.live.len() as int);
        assert(plan.operations == g.ops + c.ops);
        if k >= g.ops.len() {
            assert(plan.operations[k] == c.ops[k - g.ops.len()]);
            assert(conflict_op_ok(inp, c.ops[k - g.ops.len()]));
        }
    }
    assert(op == g.ops[k]);
    let l = choose|l: int| reposition_evidence(inp, g.ops[k], l) && crate::text::opt_view(inp.live[l].bundle_id) is Some
        && order.contains(crate::text::opt_view(inp.live[l].bundle_id)->0);
    assert(reposition_evidence(inp, op, l));
    assert(crate::text::opt_view(inp.live[l].bundle_id) == bundle_of(inp.windows[op.saved_window_index->0 as int]));
}

/// Operation `op` minimizes or closes live window `w`.
pub open spec fn targets_live(op: PlannedOperationView, w: LiveWindow) -> bool {
    match op.kind {
        OperationKindView::MinimizeConflict { live_pid, live_window_id } => live_pid == w.pid && live_window_id
            == w.window_id,
        OperationKindView::CloseConflict { live_pid, live_window_id } => live_pid == w.pid && live_window_id
            == w.window_id,
        _ => false,
    }
}

proof fn lemma_conflict_targets(inp: PlanInput, consumed: Seq<u32>, n: int)
    requires
        0 <= n <= inp.live.len(),
    ensures
        forall|k: int| 0 <= k < conflicts_upto(inp, consumed, n).ops.len() ==> exists|j: int|
            0 <= j < n && !consumed.contains(inp.live[j].window_id) && targets_live(
                #[trigger] conflicts_upto(inp, consumed, n).ops[k],
                inp.live[j],
            ) && conflicts_upto(inp, consumed, n).ops[k].bundle_id == crate::text::opt_view(inp.live[j].bundle_id),
    decreases n,
{
    if n > 0 {
        lemma_conflict_targets(inp, consumed, n - 1);
        let prev = conflicts_upto(inp, consumed, n - 1).ops;
        let cur = conflicts_upto(inp, consumed, n).ops;
        assert forall|k: int| 0 <= k < cur.len() implies exists|j: int|
            0 <= j < n && !consumed.contains(inp.live[j].window_id) && targets_live(#[trigger] cur[k], inp.live[j])
                && cur[k].bundle_id == crate::text::opt_view(inp.live[j].bundle_id) by {
            if k < prev.len() {
                assert(cur[k] == prev[k]);
                let j = choose|j: int| 0 <= j < n - 1 && !consumed.contains(inp.live[j].window_id) && targets_live(
                    prev[k],
                    inp.live[j],
                ) && prev[k].bundle_id == crate::text::opt_view(inp.live[j].bundle_id);
                assert(targets_live(cur[k], inp.live[j]));
            } else {
                assert(targets_live(cur[k], inp.live[n - 1]));
            }
        }
    }
}

/// Reconciliation never touches a window the plan reuses: every close or
/// minimize operation names a live window of the operation's application,
/// and no reposition operation of the plan moves a window with that
/// window identifier.
pub proof fn law_conflicts_spare_reused_windows(inp: PlanInput, k: int)
    requires
        plan_input_valid(inp),
        0 <= k < spec_plan_restore(inp).operations.len(),
        spec_is_destructive(spec_plan_restore(inp).operations[k].kind),
    ensures
        exists|l: int|
            0 <= l < inp.live.len() && targets_live(spec_plan_restore(inp).operations[k], #[trigger] inp.live[l])
                && crate::text::opt_view(inp.live[l].bundle_id) == spec_plan_restore(inp).operations[k].bundle_id
                && forall|k2: int| 0 <= k2 < spec_plan_restore(inp).operations.len() && (
                #[trigger] spec_plan_restore(inp).operations[k2]).kind is Reposition
                    ==> spec_plan_restore(inp).operations[k2].kind->Reposition_live_window_id != inp.live[l].window_id,
{
    let order = group_order(inp.windows);
    lemma_order_no_dups(inp.windows);
    assert forall|j: int| 0 <= j < order.len() implies order.contains(#[trigger] order[j]) by {}
    lemma_plan_groups_ok(inp, order);
    lemma_groups_repositions(inp, order);
    let g = plan_groups(inp, order);
    let plan = spec_plan_restore(inp);
    if k < g.ops.len() || !(inp.options.mode.spec_allows_minimize() || inp.options.mode.spec_allows_close()) {
        if inp.options.mode.spec_allows_minimize() || inp.options.mode.spec_allows_close() {
            let c = conflicts_upto(inp, g.consumed, inp.live.len() as int);
            assert(plan.operations == g.ops + c.ops);
        }
        assert(plan.operations[k] == g.ops[k]);
        assert(group_op_ok(inp, g.ops[k]));
        assert(false);
    }
    let c = conflicts_upto(inp, g.consumed, inp.live.len() as int);
    assert(plan.operations == g.ops + c.ops);
    lemma_conflict_targets(inp, g.consumed, inp.live.len() as int);
    assert(plan.operations[k] == c.ops[k - g.ops.len()]);
    let l = choose|l: int| 0 <= l < inp.live.len() && !g.consumed.contains(inp.live[l].window_id) && targets_live(
        c.ops[k - g.ops.len()],
        inp.live[l],
    ) && c.ops[k - g.ops.len()].bundle_id == crate::text::opt_view(inp.live[l].bundle_id);
    assert forall|k2: int| 0 <= k2 < plan.operations.len() && (#[trigger] plan.operations[k2]).kind is Reposition implies plan.operations[k2].kind->Reposition_live_window_id
        != inp.live[l].window_id by {
        if k2 >= g.ops.len() {
            assert(plan.operations[k2] == c.ops[k2 - g.ops.len()]);
            let j = choose|j: int| 0 <= j < inp.live.len() && !g.consumed.contains(inp.live[j].window_id) && targets_live(
                c.ops[k2 - g.ops.len()],
                inp.live[j],
            ) && c.ops[k2 - g.ops.len()].bundle_id == crate::text::opt_view(inp.live[j].bundle_id);
            assert(targets_live(c.ops[k2 - g.ops.len()], inp.live[j]));
        } else {
            assert(plan.operations[k2] == g.ops[k2]);
            assert(g.consumed.contains(g.ops[k2].kind->Reposition_live_window_id));
        }
    }
    assert(targets_live(plan.operations[k], inp.live[l]));
}


// ---------------------------------------------------------------------------
// An application is launched before any of its windows is placed
// ---------------------------------------------------------------------------

/// An operation that places a window of an application: reposition, create
/// or browser-tab restore.
pub open spec fn places_window(k: OperationKindView) -> bool {
    k is Reposition || k is CreateWindow || k is RestoreChromeTabs
}

proof fn lemma_window_ops_place(
    inp: PlanInput,
    b: Seq<char>,
    active: Seq<int>,
    cands: Seq<int>,
    asg: Seq<Option<int>>,
    n: int,
)
    ensures
        forall|k: int| 0 <= k < window_ops_upto(inp, b, active, cands, asg, n).len() ==> places_window(
            (#[trigger] window_ops_upto(inp, b, active, cands, asg, n)[k]).kind,
        ) && window_ops_upto(inp, b, active, cands, asg, n)[k].bundle_id == Some(b),
    decreases n,
{
    if n > 0 {
        lemma_window_ops_place(inp, b, active, cands, asg, n - 1);
        let prev = window_ops_upto(inp, b, active, cands, asg, n - 1);
        let cur = window_ops_upto(inp, b, active, cands, asg, n);
        assert forall|k: int| 0 <= k < cur.len() implies places_window((#[trigger] cur[k]).kind) && cur[k].bundle_id
            == Some(b) by {
            if k < prev.len() {
                assert(cur[k] == prev[k]);
            }
        }
    }
}

/// In the operations of one group: every window placement names the
/// group's key, every launch names it too, and a launch comes before every
/// placement.
proof fn lemma_group_launch_first(inp: PlanInput, key: Seq<char>, consumed: Seq<u32>)
    requires
        group_members(inp.windows, key, inp.windows.len() as int).len() > 0,
    ensures
        ({
            let g = spec_plan_group(inp, group_members(inp.windows, key, inp.windows.len() as int), consumed);
            &&& forall|k: int| 0 <= k < g.ops.len() && places_window((#[trigger] g.ops[k]).kind) ==> g.ops[k].bundle_id
                == Some(key)
            &&& forall|k: int| 0 <= k < g.ops.len() && (#[trigger] g.ops[k]).kind is LaunchApp ==> g.ops[k].kind->LaunchApp_bundle_id
                == key
            &&& forall|k1: int, k2: int| 0 <= k1 < g.ops.len() && 0 <= k2 < g.ops.len() && (#[trigger] g.ops[k1]).kind
                is LaunchApp && places_window((#[trigger] g.ops[k2]).kind) ==> k1 < k2
        }),
{
    let n = inp.windows.len() as int;
    let idx = group_members(inp.windows, key, n);
    lemma_members_facts(inp.windows, key, n);
    lemma_gate_all_skip(inp, idx);
    lemma_group_launches(inp, key, consumed);
    let gate = gate_ops(inp, idx);
    let active = active_of(inp, idx);
    let first = inp.windows[idx[0]];
    let g = spec_plan_group(inp, idx, consumed);
    if active.len() == 0 {
        assert forall|k: int| 0 <= k < g.ops.len() implies (#[trigger] g.ops[k]).kind is Skip by {
            assert(g.ops[k] == gate[k]);
        }
    } else {
        match bundle_of(first) {
            None => {
                lemma_bulk_all_skip(inp, active, "missing bundle identifier"@);
                let bulk = bulk_skip_ops(inp, active, "missing bundle identifier"@);
                assert forall|k: int| 0 <= k < g.ops.len() implies (#[trigger] g.ops[k]).kind is Skip by {
                    if k < gate.len() {
                        assert(g.ops[k] == gate[k]);
                    } else {
                        assert(g.ops[k] == bulk[k - gate.len()]);
                    }
                }
            },
            Some(b) => {
                assert(spec_group_key(first) == key);
                let running = spec_is_running(inp.running, b);
                if !running && inp.options.dev_mode && spec_dev_mode_protected(b) {
                    let reason = "dev-mode: not launching protected editor"@;
                    lemma_bulk_all_skip(inp, active, reason);
                    let bulk = bulk_skip_ops(inp, active, reason);
                    assert forall|k: int| 0 <= k < g.ops.len() implies (#[trigger] g.ops[k]).kind is Skip by {
                        if k < gate.len() {
                            assert(g.ops[k] == gate[k]);
                        } else {
                            assert(g.ops[k] == bulk[k - gate.len()]);
                        }
                    }
                } else {
                    let launch: Seq<PlannedOperationView> = if running { seq![] } else { seq![launch_op(first, b)] };
                    let cands = candidates_upto(inp, b, inp.live.len() as int);
                    let m = MatchInput {
                        table: inp.table,
                        saved: active,
                        live: cands,
                        taken: taken_of(inp, cands, consumed),
                    };
                    let asg = spec_assign_matches(m);
                    let wops = window_ops_upto(inp, b, active, cands, asg, active.len() as int);
                    lemma_window_ops_place(inp, b, active, cands, asg, active.len() as int);
                    assert(g.ops == gate + launch + wops);
                    let base = gate.len() + launch.len();
                    assert forall|k: int| 0 <= k < g.ops.len() && places_window((#[trigger] g.ops[k]).kind) implies k
                        >= base && g.ops[k].bundle_id == Some(key) by {
                        if k < gate.len() {
                            assert(g.ops[k] == gate[k]);
                        } else if k < base {
                            assert(g.ops[k] == launch[k - gate.len()]);
                        } else {
                            assert(g.ops[k] == wops[k - base]);
                        }
                    }
                    assert forall|k: int| 0 <= k < g.ops.len() && (#[trigger] g.ops[k]).kind is LaunchApp implies k
                        < base by {
                        if k >= base {
                            assert(g.ops[k] == wops[k - base]);
                        }
                    }
                }
            },
        }
    }
}

/// Over the groups with keys `keys` (distinct keys of the workspace): every
/// window placement and every launch names one of the keys, and a launch of
/// an application comes before every placement of one of its windows.
proof fn lemma_groups_launch_first(inp: PlanInput, keys: Seq<Seq<char>>)
    requires
        keys.no_duplicates(),
        forall|j: int| 0 <= j < keys.len() ==> group_order(inp.windows).contains(#[trigger] keys[j]),
    ensures
        ({
            let ops = plan_groups(inp, keys).ops;
            &&& forall|k: int| 0 <= k < ops.len() && places_window((#[trigger] ops[k]).kind) ==> ops[k].bundle_id is Some
                && keys.contains(ops[k].bundle_id->0)
            &&& forall|k: int| 0 <= k < ops.len() && (#[trigger] ops[k]).kind is LaunchApp ==> keys.contains(
                ops[k].kind->LaunchApp_bundle_id,
            )
            &&& forall|k1: int, k2: int| 0 <= k1 < ops.len() && 0 <= k2 < ops.len() && (#[trigger] ops[k1]).kind
                is LaunchApp && places_window((#[trigger] ops[k2]).kind) && ops[k2].bundle_id == Some(
                ops[k1].kind->LaunchApp_bundle_id,
            ) ==> k1 < k2
        }),
    decreases keys.len(),
{
    if keys.len() > 0 {
        let pk = keys.drop_last();
        assert forall|a: int, b: int| 0 <= a < b < pk.len() implies pk[a] != pk[b] by {
            assert(pk[a] == keys[a] && pk[b] == keys[b]);
        }
        assert forall|j: int| 0 <= j < pk.len() implies group_order(inp.windows).contains(#[trigger] pk[j]) by {
            assert(pk[j] == keys[j]);
        }
        lemma_groups_launch_first(inp, pk);
        let prev = plan_groups(inp, pk);
        let key = keys.last();
        assert(inp.windows.subrange(0, inp.windows.len() as int) =~= inp.windows);
        assert(group_order(inp.windows).contains(keys[keys.len() - 1]));
        lemma_order_members_nonempty(inp.windows, key, inp.windows.len() as int);
        lemma_group_launch_first(inp, key, prev.consumed);
        let g = spec_plan_group(inp, group_members(inp.windows, key, inp.windows.len() as int), prev.consumed);
        let ops = plan_groups(inp, keys).ops;
        assert(ops == prev.ops + g.ops);
        assert(!pk.contains(key)) by {
            if pk.contains(key) {
                let j = choose|j: int| 0 <= j < pk.len() && pk[j] == key;
                assert(keys[j] == keys[keys.len() - 1]);
            }
        }
        assert(keys.contains(key)) by {
            assert(keys[keys.len() - 1] == key);
        }
        assert forall|x: Seq<char>| pk.contains(x) implies keys.contains(x) by {
            let j = choose|j: int| 0 <= j < pk.len() && pk[j] == x;
            assert(keys[j] == pk[j]);
        }
        assert forall|k: int| 0 <= k < ops.len() && places_window((#[trigger] ops[k]).kind) implies ops[k].bundle_id
            is Some && keys.contains(ops[k].bundle_id->0) by {
            if k < prev.ops.len() {
                assert(ops[k] == prev.ops[k]);
            } else {
                assert(ops[k] == g.ops[k - prev.ops.len()]);
            }
        }
        assert forall|k: int| 0 <= k < ops.len() && (#[trigger] ops[k]).kind is LaunchApp implies keys.contains(
            ops[k].kind->LaunchApp_bundle_id,
        ) by {
            if k < prev.ops.len() {
                assert(ops[k] == prev.ops[k]);
            } else {
                assert(ops[k] == g.ops[k - prev.ops.len()]);
            }
        }
        assert forall|k1: int, k2: int| 0 <= k1 < ops.len() && 0 <= k2 < ops.len() && (#[trigger] ops[k1]).kind
            is LaunchApp && places_window((#[trigger] ops[k2]).kind) && ops[k2].bundle_id == Some(
            ops[k1].kind->LaunchApp_bundle_id,
        ) implies k1 < k2 by {
            let p = prev.ops.len() as int;
            if k1 < p && k2 < p {
                assert(ops[k1] == prev.ops[k1] && ops[k2] == prev.ops[k2]);
            } else if k1 >= p && k2 >= p {
                assert(ops[k1] == g.ops[k1 - p] && ops[k2] == g.ops[k2 - p]);
            } else if k1 >= p && k2 < p {
                assert(ops[k1] == g.ops[k1 - p]);
                assert(ops[k2] == prev.ops[k2]);
                assert(pk.contains(ops[k2].bundle_id->0));
                assert(false);
            }
        }
    }
}

/// An application is launched before any of its windows is placed: in
/// every plan, a launch of bundle `b` comes before every reposition,
/// window creation or browser-tab restore of a window of `b`.
pub proof fn law_launch_precedes_window_placement(inp: PlanInput, k1: int, k2: int)
    requires
        0 <= k1 < spec_plan_restore(inp).operations.len(),
        0 <= k2 < spec_plan_restore(inp).operations.len(),
        spec_plan_restore(inp).operations[k1].kind is LaunchApp,
        places_window(spec_plan_restore(inp).operations[k2].kind),
        spec_plan_restore(inp).operations[k2].bundle_id == Some(
            spec_plan_restore(inp).operations[k1].kind->LaunchApp_bundle_id,
        ),
    ensures
        k1 < k2,
{
    let order = group_order(inp.windows);
    lemma_order_no_dups(inp.windows);
    assert forall|j: int| 0 <= j < order.len() implies order.contains(#[trigger] order[j]) by {}
    lemma_groups_launch_first(inp, order);
    let g = plan_groups(inp, order);
    let plan = spec_plan_restore(inp);
    if inp.options.mode.spec_allows_minimize() || inp.options.mode.spec_allows_close() {
        lemma_conflicts_ok(inp, g.consumed, inp.live.len() as int);
        let c = conflicts_upto(inp, g.consumed, inp.live.len() as int);
        assert(plan.operations == g.ops + c.ops);
        if k1 >= g.ops.len() {
            assert(plan.operations[k1] == c.ops[k1 - g.ops.len()]);
            assert(conflict_op_ok(inp, c.ops[k1 - g.ops.len()]));
        }
        if k2 >= g.ops.len() {
            assert(plan.operations[k2] == c.ops[k2 - g.ops.len()]);
            assert(conflict_op_ok(inp, c.ops[k2 - g.ops.len()]));
        }
        assert(plan.operations[k1] == g.ops[k1]);
        assert(plan.operations[k2] == g.ops[k2]);
    }
}


// ---------------------------------------------------------------------------
// Matching takes the best pairs first
// ---------------------------------------------------------------------------

/// Pair (a, c) comes before the pair `x`, or there is no `x`.
spec fn better(m: MatchInput, x: Option<(int, int)>, a: int, c: int) -> bool {
    match x {
        None => true,
        Some(p) => precedes(m, a, c, p.0, p.1),
    }
}

/// The first free pair in pair order among the pairs of saved position `a`
/// with candidates below `n`.
spec fn best_in_row(m: MatchInput, assign: Seq<Option<int>>, a: int, n: int) -> Option<(int, int)>
    decreases n,
{
    if n <= 0 {
        None
    } else {
        let prev = best_in_row(m, assign, a, n - 1);
        if free_pair(m, assign, a, n - 1) && better(m, prev, a, n - 1) {
            Some((a, n - 1))
        } else {
            prev
        }
    }
}

/// The first free pair in pair order among the saved positions below `n`.
spec fn best_below(m: MatchInput, assign: Seq<Option<int>>, n: int) -> Option<(int, int)>
    decreases n,
{
    if n <= 0 {
        None
    } else {
        let prev = best_below(m, assign, n - 1);
        let r = best_in_row(m, assign, n - 1, m.live.len() as int);
        match r {
            None => prev,
            Some(p) => if better(m, prev, p.0, p.1) {
                r
            } else {
                prev
            },
        }
    }
}

proof fn lemma_best_in_row(m: MatchInput, assign: Seq<Option<int>>, a: int, n: int)
    requires
        0 <= n,
    ensures
        match best_in_row(m, assign, a, n) {
            Some(p) => p.0 == a && 0 <= p.1 < n && free_pair(m, assign, a, p.1) && forall|c2: int|
                0 <= c2 < n && #[trigger] free_pair(m, assign, a, c2) ==> !precedes(m, a, c2, p.0, p.1),
            None => forall|c2: int| 0 <= c2 < n ==> !#[trigger] free_pair(m, assign, a, c2),
        },
    decreases n,
{
    if n > 0 {
        lemma_best_in_row(m, assign, a, n - 1);
    }
}

proof fn lemma_best_below(m: MatchInput, assign: Seq<Option<int>>, n: int)
    requires
        0 <= n,
    ensures
        match best_below(m, assign, n) {
            Some(p) => 0 <= p.0 < n && free_pair(m, assign, p.0, p.1) && forall|a2: int, c2: int|
                0 <= a2 < n && #[trigger] free_pair(m, assign, a2, c2) ==> !precedes(m, a2, c2, p.0, p.1),
            None => forall|a2: int, c2: int| 0 <= a2 < n ==> !#[trigger] free_pair(m, assign, a2, c2),
        },
    decreases n,
{
    if n > 0 {
        lemma_best_below(m, assign, n - 1);
        lemma_best_in_row(m, assign, n - 1, m.live.len() as int);
    }
}

/// When some pair is free, a first free pair in pair order exists.
proof fn lemma_next_exists(m: MatchInput, assign: Seq<Option<int>>, a0: int, c0: int)
    requires
        free_pair(m, assign, a0, c0),
    ensures
        exists|a: int, c: int| is_next(m, assign, a, c),
{
    lemma_best_below(m, assign, m.saved.len() as int);
    let p = best_below(m, assign, m.saved.len() as int)->0;
    assert(is_next(m, assign, p.0, p.1));
}

/// Every pair taken scores at least as high as every acceptable pair of a
/// still unmatched saved window with the same candidate.
spec fn taken_best_first(m: MatchInput, assign: Seq<Option<int>>) -> bool {
    forall|a1: int, a2: int|
        #![trigger assign[a1], assign[a2]]
        0 <= a1 < assign.len() && 0 <= a2 < assign.len() && assign[a1] is Some && assign[a2] is None && pair_score(
            m,
            a2,
            assign[a1]->0,
        ).spec_is_acceptable() ==> pair_score(m, a1, assign[a1]->0).final_score >= pair_score(
            m,
            a2,
            assign[a1]->0,
        ).final_score
}

proof fn lemma_greedy_best_first(m: MatchInput, assign: Seq<Option<int>>)
    requires
        assign.len() == m.saved.len(),
        taken_best_first(m, assign),
    ensures
        greedy(m, assign).len() == m.saved.len(),
        taken_best_first(m, greedy(m, assign)),
        forall|a: int, c: int| !#[trigger] free_pair(m, greedy(m, assign), a, c),
    decreases num_unassigned(assign),
{
    if exists|a: int, c: int| is_next(m, assign, a, c) {
        let (a, c) = choose|a: int, c: int| is_next(m, assign, a, c);
        lemma_num_unassigned_update(assign, a, c);
        let next = assign.update(a, Some(c));
        assert forall|a1: int, a2: int|
            #![trigger next[a1], next[a2]]
            0 <= a1 < next.len() && 0 <= a2 < next.len() && next[a1] is Some && next[a2] is None && pair_score(
                m,
                a2,
                next[a1]->0,
            ).spec_is_acceptable() implies pair_score(m, a1, next[a1]->0).final_score >= pair_score(
            m,
            a2,
            next[a1]->0,
        ).final_score by {
            assert(assign[a2] is None);
            if a1 == a {
                assert(free_pair(m, assign, a2, c));
                assert(!precedes(m, a2, c, a, c));
            } else {
                assert(next[a1] == assign[a1]);
            }
        }
        lemma_greedy_best_first(m, next);
    } else {
        assert forall|a: int, c: int| !#[trigger] free_pair(m, greedy(m, assign), a, c) by {
            if free_pair(m, assign, a, c) {
                lemma_next_exists(m, assign, a, c);
            }
        }
    }
}

/// Matching takes the best pairs first (globally, not saved window by
/// saved window): when a saved window is left without a live window
/// although candidate `c`, not claimed by an earlier group, would be an
/// acceptable match for it, `c` went to another saved window whose pair
/// scores at least as high. (Acceptable scores are non-negative, so their
/// bit patterns order as the scores do.)
pub proof fn law_matching_takes_best_pairs_first(m: MatchInput, a2: int, c: int)
    requires
        0 <= a2 < m.saved.len(),
        0 <= c < m.live.len(),
        c < m.taken.len(),
        !m.taken[c],
        pair_score(m, a2, c).spec_is_acceptable(),
        spec_assign_matches(m)[a2] is None,
    ensures
        exists|a: int|
            0 <= a < m.saved.len() && #[trigger] spec_assign_matches(m)[a] == Some(c) && pair_score(m, a, c).final_score
                >= pair_score(m, a2, c).final_score,
{
    let init = Seq::new(m.saved.len(), |i: int| None::<int>);
    lemma_greedy_best_first(m, init);
    let asg = spec_assign_matches(m);
    assert(asg == greedy(m, init));
    assert(!free_pair(m, asg, a2, c));
    assert(live_used(asg, c));
    let a = choose|a: int| 0 <= a < asg.len() && #[trigger] asg[a] == Some(c);
    assert(asg[a] is Some && asg[a2] is None);
}

} // verus!

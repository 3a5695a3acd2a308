//! Command-line choices that reach the library, and the decisions the
//! restore command makes between its iterations.

use vstd::prelude::*;

use crate::plan::{ops_view, OperationKind, OperationKindView, RestoreMode, RestorePlan};

verus! {

/// The `--mode` values.
#[derive(Debug, Copy, Clone, PartialEq, Eq, Structural)]
pub enum ModeArg {
    /// Only reposition, launch, and create windows. Never minimize or close.
    Safe,
    /// May minimize extra windows of apps being restored.
    Reconcile,
    /// May close extra windows of apps being restored.
    Destructive,
}

/// The restore mode a `--mode` value selects.
pub open spec fn spec_mode_of(m: ModeArg) -> RestoreMode {
    match m {
        ModeArg::Safe => RestoreMode::Safe,
        ModeArg::Reconcile => RestoreMode::Reconcile,
        ModeArg::Destructive => RestoreMode::Destructive,
    }
}

impl From<ModeArg> for RestoreMode {
    fn from(value: ModeArg) -> (r: Self) {
        match value {
            ModeArg::Safe => RestoreMode::Safe,
            ModeArg::Reconcile => RestoreMode::Reconcile,
            ModeArg::Destructive => RestoreMode::Destructive,
        }
    }
}

impl vstd::std_specs::convert::FromSpecImpl<ModeArg> for RestoreMode {
    open spec fn obeys_from_spec() -> bool {
        true
    }

    open spec fn from_spec(v: ModeArg) -> RestoreMode {
        spec_mode_of(v)
    }
}

/// The restore mode of a command: `--destructive` overrides `--mode`.
pub fn resolve_mode(mode: ModeArg, destructive: bool) -> (r: RestoreMode)
    ensures
        r == (if destructive { RestoreMode::Destructive } else { spec_mode_of(mode) }),
{
    if destructive {
        RestoreMode::Destructive
    } else {
        RestoreMode::from(mode)
    }
}

/// Plan, execute and verify run at least once.
pub fn converge_iterations(converge: u32) -> (r: u32)
    ensures
        r == (if converge < 1 { 1 } else { converge }),
{
    if converge < 1 {
        1
    } else {
        converge
    }
}

/// A plan with some operation that is not a skip.
pub fn plan_is_actionable(plan: &RestorePlan) -> (r: bool)
    ensures
        r == exists|k: int| 0 <= k < plan.operations.len() && !(ops_view(plan.operations@)[k].kind is Skip),
{
    let mut k: usize = 0;
    while k < plan.operations.len()
        invariant
            k <= plan.operations.len(),
            forall|j: int| 0 <= j < k ==> ops_view(plan.operations@)[j].kind is Skip,
        decreases plan.operations.len() - k,
    {
        assert(ops_view(plan.operations@)[k as int] == plan.operations@[k as int]@);
        match &plan.operations[k].kind {
            OperationKind::Skip { .. } => {},
            _ => {
                return true;
            },
        }
        k = k + 1;
    }
    false
}

/// Whether the restore command runs another iteration after iteration
/// `iter` (counted from 0): not when the world verified as converged, not
/// when the plan had nothing to do (planning an all-skip world again cannot
/// change it), and not past the iteration budget.
pub fn keep_converging(actionable: bool, converged: bool, iter: u32, max_iters: u32) -> (r: bool)
    ensures
        r == (actionable && !converged && iter + 1 < max_iters),
{
    if !actionable || converged {
        return false;
    }
    if iter >= max_iters || max_iters - iter <= 1 {
        return false;
    }
    true
}

} // verus!

//! The record of end-to-end self-checks.
//!
//! The checks themselves exercise the live machine and are run by the
//! caller; this module records them and decides the command's outcome.

use vstd::prelude::*;

use crate::error::WorkspaceError;
use crate::plan::{OperationKind, OperationKindView, PlannedOperationView, RestorePlan, ops_view};
use crate::text::string_of;

verus! {

/// One self-check.
#[derive(Debug, Clone, PartialEq, Eq)]
pub struct SelftestCheck {
    pub name: String,
    pub passed: bool,
    pub detail: String,
}

/// All self-checks, in the order they ran.
#[derive(Debug, Clone, Default, PartialEq, Eq)]
pub struct SelftestReport {
    pub checks: Vec<SelftestCheck>,
}

/// Number of checks that did not pass.
pub open spec fn count_failed(cs: Seq<SelftestCheck>) -> nat
    decreases cs.len(),
{
    if cs.len() == 0 {
        0
    } else {
        count_failed(cs.drop_last()) + if cs.last().passed { 0nat } else { 1nat }
    }
}

proof fn lemma_count_failed_bound(cs: Seq<SelftestCheck>)
    ensures
        count_failed(cs) <= cs.len(),
    decreases cs.len(),
{
    if cs.len() > 0 {
        lemma_count_failed_bound(cs.drop_last());
    }
}

impl SelftestReport {
    /// Records a check.
    pub fn check(&mut self, name: &str, passed: bool, detail: String)
        ensures
            final(self).checks.len() == old(self).checks.len() + 1,
            final(self).checks@.drop_last() == old(self).checks@,
            final(self).checks@.last().name@ == name@,
            final(self).checks@.last().passed == passed,
            final(self).checks@.last().detail == detail,
    {
        self.checks.push(SelftestCheck { name: string_of(name), passed, detail });
    }

    /// Number of checks that did not pass.
    pub fn failed(&self) -> (r: usize)
        ensures
            r == count_failed(self.checks@),
    {
        let mut n: usize = 0;
        let mut i: usize = 0;
        while i < self.checks.len()
            invariant
                i <= self.checks.len(),
                n == count_failed(self.checks@.subrange(0, i as int)),
            decreases self.checks.len() - i,
        {
            proof {
                assert(self.checks@.subrange(0, i + 1).drop_last() =~= self.checks@.subrange(0, i as int));
                lemma_count_failed_bound(self.checks@.subrange(0, i as int));
            }
            if !self.checks[i].passed {
                n = n + 1;
            }
            i = i + 1;
        }
        assert(self.checks@.subrange(0, self.checks.len() as int) =~= self.checks@);
        n
    }
}

/// The outcome of the self-test command: an error naming how many of the
/// checks failed when any did.
pub fn selftest_outcome(report: &SelftestReport) -> (r: Result<(), WorkspaceError>)
    ensures
        count_failed(report.checks@) == 0 ==> r is Ok,
        count_failed(report.checks@) > 0 ==> r == Err::<(), WorkspaceError>(
            WorkspaceError::SelftestFailed {
                failed: count_failed(report.checks@) as usize,
                total: report.checks.len(),
            },
        ),
{
    let failed = report.failed();
    if failed > 0 {
        Err(WorkspaceError::SelftestFailed { failed, total: report.checks.len() })
    } else {
        Ok(())
    }
}

/// The first operation that moves an already open window, with its saved
/// window: what the live check exercises.
pub open spec fn spec_first_reposition(ops: Seq<PlannedOperationView>) -> Option<(int, usize, i32, u32)> {
    if exists|k: int| 0 <= k < ops.len() && ops[k].kind is Reposition && ops[k].saved_window_index is Some {
        let k = choose|k: int| 0 <= k < ops.len() && ops[k].kind is Reposition && ops[k].saved_window_index is Some
            && forall|j: int| 0 <= j < k ==> !(ops[j].kind is Reposition && ops[j].saved_window_index is Some);
        match ops[k].kind {
            OperationKindView::Reposition { live_pid, live_window_id } => Some(
                (k, ops[k].saved_window_index->0, live_pid, live_window_id),
            ),
            _ => None,
        }
    } else {
        None
    }
}

/// The first reposition of a plan that names a saved window: its position
/// in the plan, the saved window, and the live window it moves.
pub fn first_reposition(plan: &RestorePlan) -> (r: Option<(usize, usize, i32, u32)>)
    ensures
        match r {
            Some((k, s, p, w)) => spec_first_reposition(ops_view(plan.operations@)) == Some(
                (k as int, s, p, w),
            ),
            None => spec_first_reposition(ops_view(plan.operations@)) is None,
        },
{
    let ghost ops = ops_view(plan.operations@);
    let mut k: usize = 0;
    while k < plan.operations.len()
        invariant
            k <= plan.operations.len(),
            ops == ops_view(plan.operations@),
            forall|j: int| 0 <= j < k ==> !(ops[j].kind is Reposition && ops[j].saved_window_index is Some),
        decreases plan.operations.len() - k,
    {
        let op = &plan.operations[k];
        assert(ops[k as int] == op@);
        match (&op.kind, op.saved_window_index) {
            (OperationKind::Reposition { live_pid, live_window_id }, Some(s)) => {
                proof {
                    let c = choose|c: int| 0 <= c < ops.len() && ops[c].kind is Reposition && ops[c].saved_window_index is Some
                        && forall|j: int| 0 <= j < c ==> !(ops[j].kind is Reposition && ops[j].saved_window_index is Some);
                    assert(ops[k as int].kind is Reposition && ops[k as int].saved_window_index is Some);
                    if c < k {
                        assert(!(ops[c].kind is Reposition && ops[c].saved_window_index is Some));
                    }
                    if k < c {
                        assert(!(ops[k as int].kind is Reposition && ops[k as int].saved_window_index is Some));
                    }
                }
                return Some((k, s, *live_pid, *live_window_id));
            },
            _ => {},
        }
        k = k + 1;
    }
    None
}

} // verus!

//! Post-restore verification: which saved windows have a live counterpart.
//!
//! Each restorable saved window is attributed to at most one live window of
//! the same bundle, the best scoring one not yet attributed; windows restore
//! never touches are reported as skipped and kept out of the accuracy. The
//! caller measures the geometry of the attributed pairs.

use vstd::prelude::*;

use crate::model::{bundle_of, WorkspaceSnapshot};
use crate::plan::{plan_input, restore_skip_reason, spec_skip_reason, table_shape, table_view,
    MatchScore, PlanInput, PlanOptions, RestoreMode, WorldState};
use crate::text::{clone_opt, opt_string_eq, opt_view};

verus! {

/// What verification reads: the saved windows, the live windows and the
/// score table (the restore options play no part).
pub open spec fn verify_input(snapshot: &WorkspaceSnapshot, world: &WorldState, scores: &Vec<Vec<MatchScore>>) -> PlanInput {
    plan_input(snapshot, world, PlanOptions { mode: RestoreMode::Safe, dev_mode: false }, scores)
}

/// The verification of one saved window.
#[derive(Debug, Clone, PartialEq, Eq)]
pub struct VerifyEntry {
    pub saved_window_index: usize,
    pub app_name: String,
    pub bundle_id: Option<String>,
    pub matched: bool,
    pub skipped_reason: Option<String>,
    pub match_score: Option<MatchScore>,
    /// The live window the saved window was attributed to.
    pub live_index: Option<usize>,
}

/// The characters of a verification entry.
pub struct VerifyEntryView {
    pub saved_window_index: usize,
    pub app_name: Seq<char>,
    pub bundle_id: Option<Seq<char>>,
    pub matched: bool,
    pub skipped_reason: Option<Seq<char>>,
    pub match_score: Option<MatchScore>,
    pub live_index: Option<usize>,
}

impl View for VerifyEntry {
    type V = VerifyEntryView;

    open spec fn view(&self) -> VerifyEntryView {
        VerifyEntryView {
            saved_window_index: self.saved_window_index,
            app_name: self.app_name@,
            bundle_id: opt_view(self.bundle_id),
            matched: self.matched,
            skipped_reason: opt_view(self.skipped_reason),
            match_score: self.match_score,
            live_index: self.live_index,
        }
    }
}

/// The views of a list of entries.
pub open spec fn entries_view(v: Seq<VerifyEntry>) -> Seq<VerifyEntryView> {
    v.map_values(|e: VerifyEntry| e@)
}

/// Counts of a verification; the entries are in saved-window order.
#[derive(Debug, Clone, PartialEq, Eq)]
pub struct VerifyReport {
    pub snapshot: String,
    /// All saved windows, including the ones restore would skip.
    pub total: usize,
    pub matched: usize,
    /// Restorable windows with no live counterpart.
    pub unmatched: usize,
    /// Windows restore never touches (disabled, unsupported, fullscreen).
    pub skipped: usize,
    pub windows: Vec<VerifyEntry>,
}

/// Live window `c` may be attributed to saved window `a`: not yet taken, of
/// the same bundle (or both without one), and with a score the planner
/// accepts.
pub open spec fn eligible(inp: PlanInput, consumed: Seq<bool>, a: int, c: int) -> bool {
    &&& !consumed[c]
    &&& opt_view(inp.live[c].bundle_id) == bundle_of(inp.windows[a])
    &&& inp.table[a][c].spec_is_acceptable()
}

/// Among the first `n` live windows, the first eligible one with the highest
/// final score.
pub open spec fn best_live_upto(inp: PlanInput, consumed: Seq<bool>, a: int, n: int) -> Option<int>
    decreases n,
{
    if n <= 0 {
        None
    } else {
        let prev = best_live_upto(inp, consumed, a, n - 1);
        let c = n - 1;
        if eligible(inp, consumed, a, c) && (prev is None || inp.table[a][prev->0].final_score
            < inp.table[a][c].final_score) {
            Some(c)
        } else {
            prev
        }
    }
}

/// Entries so far and which live windows are taken.
pub struct VerifyState {
    pub entries: Seq<VerifyEntryView>,
    pub consumed: Seq<bool>,
}

/// The entry for saved window `i` given what it was attributed to.
pub open spec fn entry_for(inp: PlanInput, i: int, skipped: Option<Seq<char>>, live: Option<int>) -> VerifyEntryView {
    VerifyEntryView {
        saved_window_index: i as usize,
        app_name: inp.windows[i].app_name@,
        bundle_id: bundle_of(inp.windows[i]),
        matched: live is Some,
        skipped_reason: skipped,
        match_score: match live {
            Some(l) => Some(inp.table[i][l]),
            None => None,
        },
        live_index: match live {
            Some(l) => Some(l as usize),
            None => None,
        },
    }
}

/// Verification of the first `n` saved windows, in order.
pub open spec fn verify_upto(inp: PlanInput, n: int) -> VerifyState
    decreases n,
{
    if n <= 0 {
        VerifyState { entries: seq![], consumed: Seq::new(inp.live.len(), |c: int| false) }
    } else {
        let prev = verify_upto(inp, n - 1);
        let i = n - 1;
        match spec_skip_reason(inp.windows[i]) {
            Some(reason) => VerifyState {
                entries: prev.entries.push(entry_for(inp, i, Some(reason), None)),
                consumed: prev.consumed,
            },
            None => match best_live_upto(inp, prev.consumed, i, inp.live.len() as int) {
                Some(l) => VerifyState {
                    entries: prev.entries.push(entry_for(inp, i, None, Some(l))),
                    consumed: prev.consumed.update(l, true),
                },
                None => VerifyState {
                    entries: prev.entries.push(entry_for(inp, i, None, None)),
                    consumed: prev.consumed,
                },
            },
        }
    }
}

/// Number of entries that were matched.
pub open spec fn count_matched(es: Seq<VerifyEntryView>) -> nat
    decreases es.len(),
{
    if es.len() == 0 {
        0
    } else {
        count_matched(es.drop_last()) + if es.last().matched { 1nat } else { 0nat }
    }
}

/// Number of entries that were skipped.
pub open spec fn count_skipped(es: Seq<VerifyEntryView>) -> nat
    decreases es.len(),
{
    if es.len() == 0 {
        0
    } else {
        count_skipped(es.drop_last()) + if es.last().skipped_reason is Some { 1nat } else { 0nat }
    }
}

proof fn lemma_verify_upto_shape(inp: PlanInput, n: int)
    requires
        0 <= n,
    ensures
        verify_upto(inp, n).consumed.len() == inp.live.len(),
        verify_upto(inp, n).entries.len() == n,
        count_matched(verify_upto(inp, n).entries) + count_skipped(verify_upto(inp, n).entries) <= n,
        forall|k: int| 0 <= k < n ==> !((#[trigger] verify_upto(inp, n).entries[k]).matched
            && verify_upto(inp, n).entries[k].skipped_reason is Some),
    decreases n,
{
    if n == 0 {
        assert(verify_upto(inp, n).consumed.len() == inp.live.len());
    }
    if n > 0 {
        lemma_verify_upto_shape(inp, n - 1);
        let prev = verify_upto(inp, n - 1);
        let cur = verify_upto(inp, n);
        let i = n - 1;
        lemma_best_live_bounds(inp, prev.consumed, n - 1, inp.live.len() as int);
        assert(cur.entries.drop_last() =~= prev.entries);
        assert forall|k: int| 0 <= k < n implies !((#[trigger] cur.entries[k]).matched
            && cur.entries[k].skipped_reason is Some) by {
            if k < n - 1 {
                assert(cur.entries[k] == prev.entries[k]);
            }
        }
    }
}

proof fn lemma_best_live_bounds(inp: PlanInput, consumed: Seq<bool>, a: int, n: int)
    ensures
        best_live_upto(inp, consumed, a, n) matches Some(c) ==> 0 <= c < n && eligible(inp, consumed, a, c),
    decreases n,
{
    if n > 0 {
        lemma_best_live_bounds(inp, consumed, a, n - 1);
    }
}

/// The best live candidate for saved window `index`.
fn pick_best_live(
    index: usize,
    snapshot: &WorkspaceSnapshot,
    world: &WorldState,
    scores: &Vec<Vec<MatchScore>>,
    consumed: &Vec<bool>,
) -> (r: Option<(usize, MatchScore)>)
    requires
        index < snapshot.windows.len(),
        consumed.len() == world.windows.len(),
        table_shape(table_view(scores), snapshot.windows.len() as nat, world.windows.len() as nat),
    ensures
        match r {
            Some((c, s)) => best_live_upto(
                verify_input(snapshot, world, scores),
                consumed@,
                index as int,
                world.windows.len() as int,
            ) == Some(c as int) && s == table_view(scores)[index as int][c as int],
            None => best_live_upto(
                verify_input(snapshot, world, scores),
                consumed@,
                index as int,
                world.windows.len() as int,
            ) is None,
        },
{
    let ghost inp = verify_input(snapshot, world, scores);
    let saved = &snapshot.windows[index];
    let row = &scores[index];
    assert(row@ == inp.table[index as int]);
    let mut best: Option<(usize, MatchScore)> = None;
    let mut c: usize = 0;
    while c < world.windows.len()
        invariant
            c <= world.windows.len(),
            index < snapshot.windows.len(),
            consumed.len() == world.windows.len(),
            inp == verify_input(snapshot, world, scores),
            *saved == snapshot.windows@[index as int],
            row@ == inp.table[index as int],
            row@.len() == world.windows.len(),
            match best {
                Some((b, s)) => best_live_upto(inp, consumed@, index as int, c as int) == Some(b as int)
                    && s == row@[b as int],
                None => best_live_upto(inp, consumed@, index as int, c as int) is None,
            },
        decreases world.windows.len() - c,
    {
        let live = &world.windows[c];
        if !consumed[c] && opt_string_eq(&live.bundle_id, &saved.bundle_id) {
            let score = row[c];
            if score.is_acceptable() {
                match best {
                    Some((_, current)) => {
                        if current.final_score < score.final_score {
                            best = Some((c, score));
                        }
                    },
                    None => {
                        best = Some((c, score));
                    },
                }
            }
        }
        c = c + 1;
    }
    best
}

/// Attributes saved windows to live windows and counts the outcome.
///
/// `scores[i][c]` is the match score of saved window `i` against live
/// window `c`.
pub fn verify(snapshot: &WorkspaceSnapshot, world: &WorldState, scores: &Vec<Vec<MatchScore>>) -> (r: VerifyReport)
    requires
        table_shape(table_view(scores), snapshot.windows.len() as nat, world.windows.len() as nat),
    ensures
        ({
            let st = verify_upto(
                verify_input(snapshot, world, scores),
                snapshot.windows.len() as int,
            );
            &&& r.snapshot@ == snapshot.name@
            &&& entries_view(r.windows@) == st.entries
            &&& r.total == snapshot.windows.len()
            &&& r.matched == count_matched(st.entries)
            &&& r.skipped == count_skipped(st.entries)
            &&& r.unmatched == r.total - r.skipped - r.matched
        }),
{
    let ghost inp = verify_input(snapshot, world, scores);
    let mut consumed: Vec<bool> = Vec::new();
    let mut k: usize = 0;
    while k < world.windows.len()
        invariant
            k <= world.windows.len(),
            consumed@ == Seq::new(k as nat, |c: int| false),
        decreases world.windows.len() - k,
    {
        consumed.push(false);
        assert(consumed@ =~= Seq::new((k + 1) as nat, |c: int| false));
        k = k + 1;
    }
    let mut entries: Vec<VerifyEntry> = Vec::new();
    let mut matched: usize = 0;
    let mut skipped: usize = 0;
    let mut i: usize = 0;
    while i < snapshot.windows.len()
        invariant
            i <= snapshot.windows.len(),
            inp == verify_input(snapshot, world, scores),
            table_shape(table_view(scores), snapshot.windows.len() as nat, world.windows.len() as nat),
            consumed@ == verify_upto(inp, i as int).consumed,
            entries_view(entries@) == verify_upto(inp, i as int).entries,
            matched == count_matched(verify_upto(inp, i as int).entries),
            skipped == count_skipped(verify_upto(inp, i as int).entries),
        decreases snapshot.windows.len() - i,
    {
        proof {
            lemma_verify_upto_shape(inp, i as int);
            lemma_verify_upto_shape(inp, i + 1);
        }
        let ghost prev = verify_upto(inp, i as int);
        let ghost cur = verify_upto(inp, i + 1);
        assert(cur.entries.drop_last() =~= prev.entries);
        let window = &snapshot.windows[i];
        let ghost old_entries = entries@;
        match restore_skip_reason(window) {
            Some(reason) => {
                let e = VerifyEntry {
                    saved_window_index: i,
                    app_name: window.app_name.clone(),
                    bundle_id: clone_opt(&window.bundle_id),
                    matched: false,
                    skipped_reason: Some(reason),
                    match_score: None,
                    live_index: None,
                };
                entries.push(e);
                skipped = skipped + 1;
            },
            None => {
                let best = pick_best_live(i, snapshot, world, scores, &consumed);
                proof {
                    lemma_best_live_bounds(inp, consumed@, i as int, world.windows.len() as int);
                }
                match best {
                    Some((c, score)) => {
                        consumed.set(c, true);
                        let e = VerifyEntry {
                            saved_window_index: i,
                            app_name: window.app_name.clone(),
                            bundle_id: clone_opt(&window.bundle_id),
                            matched: true,
                            skipped_reason: None,
                            match_score: Some(score),
                            live_index: Some(c),
                        };
                        entries.push(e);
                        matched = matched + 1;
                    },
                    None => {
                        let e = VerifyEntry {
                            saved_window_index: i,
                            app_name: window.app_name.clone(),
                            bundle_id: clone_opt(&window.bundle_id),
                            matched: false,
                            skipped_reason: None,
                            match_score: None,
                            live_index: None,
                        };
                        entries.push(e);
                    },
                }
            },
        }
        assert(entries_view(entries@) =~= entries_view(old_entries).push(entries@.last()@));
        i = i + 1;
    }
    proof {
        lemma_verify_upto_shape(inp, snapshot.windows.len() as int);
    }
    let total = snapshot.windows.len();
    let unmatched = total - skipped - matched;
    VerifyReport { snapshot: snapshot.name.clone(), total, matched, unmatched, skipped, windows: entries }
}

} // verus!

//! Restore planning: from a saved workspace and an observation of the live
//! world to the list of operations that would restore it.
//!
//! The planner decides, per saved window, whether it is skipped, matched to
//! an open window and repositioned, recreated, or rebuilt from its browser
//! tabs; it launches each missing application once; and it reconciles extra
//! windows of owned applications only when the restore mode allows it.
//!
//! Match scores are computed from window geometry and titles in floating
//! point by the caller; they reach the planner as the bit patterns of their
//! non-negative `f32` values, whose unsigned order is their numeric order.

use vstd::prelude::*;

use crate::app_support::{spec_is_tab_capable, spec_support_for, support_for_window, SupportLevel};
use crate::model::{bundle_of, WindowSnapshot};
use crate::text::{clone_opt, concat_str, debug_quoted, debug_str, decimal, decimal_int, i32_decimal, opt_str_eq, opt_view,
    str_eq, string_of, usize_decimal};

verus! {

// ---------------------------------------------------------------------------
// Restore mode and options
// ---------------------------------------------------------------------------

/// How aggressively the planner reconciles the existing world.
#[derive(Debug, Copy, Clone, PartialEq, Eq, Structural)]
pub enum RestoreMode {
    /// Never close or minimize user windows.
    Safe,
    /// May minimize extra windows of applications being restored.
    Reconcile,
    /// May close extra windows of applications being restored.
    Destructive,
}

impl RestoreMode {
    pub open spec fn spec_allows_minimize(self) -> bool {
        self is Reconcile || self is Destructive
    }

    pub open spec fn spec_allows_close(self) -> bool {
        self is Destructive
    }

    /// Reconcile and destructive modes may minimize conflicting windows.
    pub fn allows_minimize(self) -> (r: bool)
        ensures
            r == self.spec_allows_minimize(),
    {
        match self {
            RestoreMode::Safe => false,
            RestoreMode::Reconcile => true,
            RestoreMode::Destructive => true,
        }
    }

    /// Only destructive mode may close conflicting windows.
    pub fn allows_close(self) -> (r: bool)
        ensures
            r == self.spec_allows_close(),
    {
        match self {
            RestoreMode::Destructive => true,
            _ => false,
        }
    }
}

impl Default for RestoreMode {
    fn default() -> (r: Self)
        ensures
            r == RestoreMode::Safe,
    {
        RestoreMode::Safe
    }
}

/// Planner options.
#[derive(Debug, Clone, Copy, PartialEq, Eq, Structural)]
pub struct PlanOptions {
    pub mode: RestoreMode,
    pub dev_mode: bool,
}

impl Default for PlanOptions {
    fn default() -> (r: Self)
        ensures
            r.mode == RestoreMode::Safe,
            !r.dev_mode,
    {
        PlanOptions { mode: RestoreMode::Safe, dev_mode: false }
    }
}

// ---------------------------------------------------------------------------
// Observed world
// ---------------------------------------------------------------------------

/// A window currently open, as observed.
#[derive(Debug, Clone, PartialEq, Eq)]
pub struct LiveWindow {
    pub bundle_id: Option<String>,
    pub app_name: String,
    pub pid: i32,
    pub window_id: u32,
    pub title: Option<String>,
    pub minimized: bool,
}

/// Processes running for one bundle identifier.
#[derive(Debug, Clone, PartialEq, Eq)]
pub struct RunningApp {
    pub bundle_id: String,
    pub pids: Vec<i32>,
}

/// Open windows and running processes, keyed by bundle identifier.
#[derive(Debug, Clone, PartialEq, Eq, Default)]
pub struct WorldState {
    pub windows: Vec<LiveWindow>,
    pub running_pids: Vec<RunningApp>,
}

/// The processes recorded for `id`: those of the first entry with that
/// bundle identifier, none when there is no entry.
pub open spec fn spec_pids_for(apps: Seq<RunningApp>, id: Seq<char>) -> Seq<i32>
    decreases apps.len(),
{
    if apps.len() == 0 {
        seq![]
    } else if apps[0].bundle_id@ == id {
        apps[0].pids@
    } else {
        spec_pids_for(apps.drop_first(), id)
    }
}

/// An application with bundle identifier `id` has at least one process.
pub open spec fn spec_is_running(apps: Seq<RunningApp>, id: Seq<char>) -> bool {
    spec_pids_for(apps, id).len() > 0
}

/// A copy of a list of process identifiers.
pub fn copy_pids(v: &Vec<i32>) -> (r: Vec<i32>)
    ensures
        r@ == v@,
{
    let mut out: Vec<i32> = Vec::new();
    let mut i: usize = 0;
    while i < v.len()
        invariant
            i <= v.len(),
            out@ == v@.subrange(0, i as int),
        decreases v.len() - i,
    {
        out.push(v[i]);
        assert(out@ =~= v@.subrange(0, i + 1));
        i = i + 1;
    }
    assert(out@ =~= v@);
    out
}

impl WorldState {
    /// Processes recorded for a bundle identifier.
    pub fn pids_for(&self, bundle_id: &str) -> (r: Vec<i32>)
        ensures
            r@ == spec_pids_for(self.running_pids@, bundle_id@),
    {
        let mut i: usize = 0;
        assert(self.running_pids@.subrange(0, self.running_pids@.len() as int) =~= self.running_pids@);
        while i < self.running_pids.len()
            invariant
                i <= self.running_pids.len(),
                spec_pids_for(self.running_pids@, bundle_id@) == spec_pids_for(
                    self.running_pids@.subrange(i as int, self.running_pids@.len() as int),
                    bundle_id@,
                ),
            decreases self.running_pids.len() - i,
        {
            let ghost rest = self.running_pids@.subrange(i as int, self.running_pids@.len() as int);
            assert(rest[0] == self.running_pids@[i as int]);
            assert(rest.drop_first() =~= self.running_pids@.subrange(i + 1, self.running_pids@.len() as int));
            if str_eq(self.running_pids[i].bundle_id.as_str(), bundle_id) {
                return copy_pids(&self.running_pids[i].pids);
            }
            i = i + 1;
        }
        Vec::new()
    }

    /// Whether a bundle identifier has a running process.
    pub fn is_running(&self, bundle_id: &str) -> (r: bool)
        ensures
            r == spec_is_running(self.running_pids@, bundle_id@),
    {
        let pids = self.pids_for(bundle_id);
        pids.len() > 0
    }
}

// ---------------------------------------------------------------------------
// Match scores
// ---------------------------------------------------------------------------

/// Lowest final score that can make a match: the bit pattern of `0.20f32`.
pub const MIN_ACCEPT_BITS: u32 = 0x3E4C_CCCD;

/// Without title evidence only near-exact geometry identifies a window: the
/// bit pattern of `0.85f32`.
pub const GEOMETRY_ONLY_MIN_BITS: u32 = 0x3F59_999A;

/// The bit pattern of `f32::INFINITY`. Bit patterns from `0` up to it encode
/// the non-negative numbers (infinity included) in numeric order; those
/// above it are NaNs or have the sign bit set.
pub const POSITIVE_INFINITY_BITS: u32 = 0x7F80_0000;

/// A bit pattern encodes a number at least as large as the number `floor`
/// encodes, as `f32` compares them, for a non-negative `floor`: NaNs and
/// negative numbers never are.
pub open spec fn at_least(bits: u32, floor: u32) -> bool {
    floor <= bits <= POSITIVE_INFINITY_BITS
}

/// Explainable confidence that a saved window is a given live window.
///
/// The similarities and the final score are `f32` values held as their
/// IEEE-754 bit patterns. Only non-negative, non-NaN scores can be
/// acceptable, and for those the order of the bit patterns is the numeric
/// order.
#[derive(Debug, Copy, Clone, PartialEq, Eq, Structural)]
pub struct MatchScore {
    pub title_similarity: u32,
    pub geometry_similarity: u32,
    pub bundle_match: bool,
    /// Both windows had titles to compare.
    pub title_evidence: bool,
    pub final_score: u32,
}

impl MatchScore {
    pub open spec fn spec_is_acceptable(self) -> bool {
        at_least(self.final_score, MIN_ACCEPT_BITS) && (self.title_evidence || at_least(
            self.geometry_similarity,
            GEOMETRY_ONLY_MIN_BITS,
        ))
    }

    /// The final score clears the floor, and either titles were compared or
    /// the geometry is a near-exact match; a NaN or negative score never
    /// does, as with `f32` comparison.
    pub fn is_acceptable(&self) -> (r: bool)
        ensures
            r == self.spec_is_acceptable(),
    {
        MIN_ACCEPT_BITS <= self.final_score && self.final_score <= POSITIVE_INFINITY_BITS && (self.title_evidence
            || (GEOMETRY_ONLY_MIN_BITS <= self.geometry_similarity && self.geometry_similarity
            <= POSITIVE_INFINITY_BITS))
    }
}

/// The rows of a score table, as sequences.
pub open spec fn table_view(t: &Vec<Vec<MatchScore>>) -> Seq<Seq<MatchScore>> {
    t@.map_values(|row: Vec<MatchScore>| row@)
}

/// The table has one row per saved window and one column per live window.
pub open spec fn table_shape(t: Seq<Seq<MatchScore>>, rows: nat, cols: nat) -> bool {
    t.len() == rows && forall|i: int| 0 <= i < rows ==> (#[trigger] t[i]).len() == cols
}

// ---------------------------------------------------------------------------
// Greedy matching
// ---------------------------------------------------------------------------

/// Input of one matching problem: the score table, the saved windows and the
/// live candidates (global indices, ascending), and which candidates were
/// already claimed elsewhere.
pub struct MatchInput {
    pub table: Seq<Seq<MatchScore>>,
    pub saved: Seq<int>,
    pub live: Seq<int>,
    pub taken: Seq<bool>,
}

/// Score of the pair (saved position `a`, candidate position `c`).
pub open spec fn pair_score(m: MatchInput, a: int, c: int) -> MatchScore {
    m.table[m.saved[a]][m.live[c]]
}

/// Candidate `c` is already assigned to some saved window.
pub open spec fn live_used(assign: Seq<Option<int>>, c: int) -> bool {
    exists|a: int| 0 <= a < assign.len() && #[trigger] assign[a] == Some(c)
}

/// The pair can still be chosen: both ends free, the candidate not claimed
/// elsewhere, and the score acceptable.
pub open spec fn free_pair(m: MatchInput, assign: Seq<Option<int>>, a: int, c: int) -> bool {
    &&& 0 <= a < m.saved.len()
    &&& a < assign.len()
    &&& 0 <= c < m.live.len()
    &&& assign[a] is None
    &&& !live_used(assign, c)
    &&& !m.taken[c]
    &&& pair_score(m, a, c).spec_is_acceptable()
}

/// Pair order: higher final score first, then saved position, then
/// candidate position (a stable sort of the pairs by descending score).
pub open spec fn precedes(m: MatchInput, a1: int, c1: int, a2: int, c2: int) -> bool {
    let r1 = pair_score(m, a1, c1).final_score;
    let r2 = pair_score(m, a2, c2).final_score;
    r1 > r2 || (r1 == r2 && (a1 < a2 || (a1 == a2 && c1 < c2)))
}

/// The pair is the first free pair in pair order.
pub open spec fn is_next(m: MatchInput, assign: Seq<Option<int>>, a: int, c: int) -> bool {
    free_pair(m, assign, a, c) && forall|a2: int, c2: int|
        #![trigger free_pair(m, assign, a2, c2)]
        free_pair(m, assign, a2, c2) ==> !precedes(m, a2, c2, a, c)
}

/// Number of saved windows still without a match.
pub open spec fn num_unassigned(s: Seq<Option<int>>) -> nat
    decreases s.len(),
{
    if s.len() == 0 {
        0
    } else {
        num_unassigned(s.drop_last()) + if s.last() is None { 1nat } else { 0nat }
    }
}

pub proof fn lemma_num_unassigned_update(s: Seq<Option<int>>, a: int, v: int)
    requires
        0 <= a < s.len(),
        s[a] is None,
    ensures
        num_unassigned(s.update(a, Some(v))) + 1 == num_unassigned(s),
    decreases s.len(),
{
    let t = s.update(a, Some(v));
    if a == s.len() - 1 {
        assert(t.drop_last() =~= s.drop_last());
    } else {
        assert(t.drop_last() =~= s.drop_last().update(a, Some(v)));
        lemma_num_unassigned_update(s.drop_last(), a, v);
    }
}

/// Greedy matching from a partial assignment: repeatedly take the first
/// free pair in pair order until none is left.
pub open spec fn greedy(m: MatchInput, assign: Seq<Option<int>>) -> Seq<Option<int>>
    decreases num_unassigned(assign),
{
    if exists|a: int, c: int| is_next(m, assign, a, c) {
        let (a, c) = choose|a: int, c: int| is_next(m, assign, a, c);
        proof {
            lemma_num_unassigned_update(assign, a, c);
        }
        greedy(m, assign.update(a, Some(c)))
    } else {
        assign
    }
}

/// The matching: for each saved position, its candidate position or none.
pub open spec fn spec_assign_matches(m: MatchInput) -> Seq<Option<int>> {
    greedy(m, Seq::new(m.saved.len(), |i: int| None))
}

proof fn lemma_is_next_unique(m: MatchInput, assign: Seq<Option<int>>, a1: int, c1: int, a2: int, c2: int)
    requires
        is_next(m, assign, a1, c1),
        is_next(m, assign, a2, c2),
    ensures
        a1 == a2 && c1 == c2,
{
    assert(free_pair(m, assign, a2, c2));
    assert(free_pair(m, assign, a1, c1));
    assert(!precedes(m, a2, c2, a1, c1));
    assert(!precedes(m, a1, c1, a2, c2));
}

proof fn lemma_greedy_step(m: MatchInput, assign: Seq<Option<int>>, a: int, c: int)
    requires
        is_next(m, assign, a, c),
    ensures
        greedy(m, assign) == greedy(m, assign.update(a, Some(c))),
{
    let (a0, c0) = choose|a0: int, c0: int| is_next(m, assign, a0, c0);
    lemma_is_next_unique(m, assign, a, c, a0, c0);
}

/// A copy of an optional position as an integer.
pub open spec fn opt_int(o: Option<usize>) -> Option<int> {
    match o {
        Some(x) => Some(x as int),
        None => None,
    }
}

/// An assignment with integer positions.
pub open spec fn assign_view(v: Seq<Option<usize>>) -> Seq<Option<int>> {
    v.map_values(|o: Option<usize>| opt_int(o))
}

/// Global indices as integers.
pub open spec fn idx_view(v: Seq<usize>) -> Seq<int> {
    v.map_values(|x: usize| x as int)
}

/// Greedy stable matcher: best (saved, live) pair first, each saved window
/// and each live candidate used at most once, candidates already claimed
/// elsewhere left out, and only acceptable pairs taken.
///
/// `saved` and `live` hold row and column indices of `table`; the result has
/// one entry per saved window holding its candidate position in `live`.
pub fn assign_matches(
    table: &Vec<Vec<MatchScore>>,
    saved: &Vec<usize>,
    live: &Vec<usize>,
    taken: &Vec<bool>,
) -> (r: Vec<Option<usize>>)
    requires
        live.len() == taken.len(),
        forall|k: int| 0 <= k < saved.len() ==> (#[trigger] saved@[k]) < table.len(),
        forall|r: int, j: int|
            #![trigger table@[r], live@[j]]
            0 <= r < table.len() && 0 <= j < live.len() ==> live@[j] < table@[r]@.len(),
    ensures
        assign_view(r@) == spec_assign_matches(
            MatchInput { table: table_view(table), saved: idx_view(saved@), live: idx_view(live@), taken: taken@ },
        ),
        r.len() == saved.len(),
        forall|k: int| 0 <= k < r.len() && (#[trigger] r@[k]) is Some ==> r@[k]->0 < live.len(),
{
    let ghost m = MatchInput {
        table: table_view(table),
        saved: idx_view(saved@),
        live: idx_view(live@),
        taken: taken@,
    };
    let ns = saved.len();
    let nl = live.len();
    let mut assign: Vec<Option<usize>> = Vec::new();
    let mut k: usize = 0;
    while k < ns
        invariant
            k <= ns,
            assign.len() == k,
            forall|j: int| 0 <= j < k ==> (#[trigger] assign@[j]) is None,
        decreases ns - k,
    {
        assign.push(None);
        k = k + 1;
    }
    let mut used: Vec<bool> = Vec::new();
    let mut k: usize = 0;
    while k < nl
        invariant
            k <= nl,
            used.len() == k,
            forall|j: int| 0 <= j < k ==> !(#[trigger] used@[j]),
        decreases nl - k,
    {
        used.push(false);
        k = k + 1;
    }
    let ghost init = Seq::new(m.saved.len(), |i: int| None::<int>);
    assert(assign_view(assign@) =~= init);
    loop
        invariant
            ns == saved.len(),
            nl == live.len(),
            live.len() == taken.len(),
            m == (MatchInput { table: table_view(table), saved: idx_view(saved@), live: idx_view(live@), taken: taken@ }),
            forall|k: int| 0 <= k < saved.len() ==> (#[trigger] saved@[k]) < table.len(),
            forall|r: int, j: int|
                #![trigger table@[r], live@[j]]
                0 <= r < table.len() && 0 <= j < live.len() ==> live@[j] < table@[r]@.len(),
            assign.len() == ns,
            used.len() == nl,
            forall|j: int| 0 <= j < ns && (#[trigger] assign@[j]) is Some ==> assign@[j]->0 < nl,
            forall|c: int| 0 <= c < nl ==> (#[trigger] used@[c] <==> live_used(assign_view(assign@), c)),
            greedy(m, init) == greedy(m, assign_view(assign@)),
        ensures
            assign.len() == ns,
            forall|j: int| 0 <= j < ns && (#[trigger] assign@[j]) is Some ==> assign@[j]->0 < nl,
            greedy(m, init) == greedy(m, assign_view(assign@)),
            !(exists|a: int, c: int| is_next(m, assign_view(assign@), a, c)),
        decreases num_unassigned(assign_view(assign@)),
    {
        let ghost cur = assign_view(assign@);
        // Find the first free pair in pair order.
        let mut best: Option<(usize, usize)> = None;
        let mut a: usize = 0;
        while a < ns
            invariant
                ns == saved.len(),
                nl == live.len(),
                live.len() == taken.len(),
                m == (MatchInput { table: table_view(table), saved: idx_view(saved@), live: idx_view(live@), taken: taken@ }),
                forall|k: int| 0 <= k < saved.len() ==> (#[trigger] saved@[k]) < table.len(),
                forall|r: int, j: int|
                    #![trigger table@[r], live@[j]]
                    0 <= r < table.len() && 0 <= j < live.len() ==> live@[j] < table@[r]@.len(),
                assign.len() == ns,
                used.len() == nl,
                cur == assign_view(assign@),
                forall|c: int| 0 <= c < nl ==> (#[trigger] used@[c] <==> live_used(cur, c)),
                a <= ns,
                match best {
                    Some((ba, bc)) => free_pair(m, cur, ba as int, bc as int) && ba < a,
                    None => true,
                },
                forall|a2: int, c2: int|
                    #![trigger free_pair(m, cur, a2, c2)]
                    0 <= a2 < a && free_pair(m, cur, a2, c2) ==> best is Some && (match best {
                        Some((ba, bc)) => !precedes(m, a2, c2, ba as int, bc as int),
                        None => false,
                    }),
            decreases ns - a,
        {
            if assign[a].is_none() {
                let mut c: usize = 0;
                while c < nl
                    invariant
                        ns == saved.len(),
                        nl == live.len(),
                        live.len() == taken.len(),
                        m == (MatchInput { table: table_view(table), saved: idx_view(saved@), live: idx_view(live@), taken: taken@ }),
                        forall|k: int| 0 <= k < saved.len() ==> (#[trigger] saved@[k]) < table.len(),
                        forall|r: int, j: int|
                            #![trigger table@[r], live@[j]]
                            0 <= r < table.len() && 0 <= j < live.len() ==> live@[j] < table@[r]@.len(),
                        assign.len() == ns,
                        used.len() == nl,
                        cur == assign_view(assign@),
                        forall|c: int| 0 <= c < nl ==> (#[trigger] used@[c] <==> live_used(cur, c)),
                        a < ns,
                        assign@[a as int] is None,
                        c <= nl,
                        match best {
                            Some((ba, bc)) => free_pair(m, cur, ba as int, bc as int) && ba <= a,
                            None => true,
                        },
                        forall|a2: int, c2: int|
                            #![trigger free_pair(m, cur, a2, c2)]
                            ((0 <= a2 < a) || (a2 == a && 0 <= c2 < c)) && free_pair(m, cur, a2, c2) ==> best is Some && (match best {
                                Some((ba, bc)) => !precedes(m, a2, c2, ba as int, bc as int),
                                None => false,
                            }),
                    decreases nl - c,
                {
                    let ghost ai = a as int;
                    let ghost ci = c as int;
                    assert(cur[ai] == opt_int(assign@[ai]));
                    let score = table[saved[a]][live[c]];
                    assert(score == pair_score(m, ai, ci));
                    if !taken[c] && !used[c] && score.is_acceptable() {
                        assert(free_pair(m, cur, ai, ci));
                        let better = match best {
                            None => true,
                            Some((ba, bc)) => {
                                let bscore = table[saved[ba]][live[bc]];
                                assert(bscore == pair_score(m, ba as int, bc as int));
                                score.final_score > bscore.final_score || (score.final_score
                                    == bscore.final_score && (a < ba || (a == ba && c < bc)))
                            },
                        };
                        if better {
                            best = Some((a, c));
                        }
                    }
                    c = c + 1;
                }
            } else {
                proof {
                    assert forall|c2: int| !free_pair(m, cur, a as int, c2) by {
                        assert(cur[a as int] == opt_int(assign@[a as int]));
                    }
                }
            }
            a = a + 1;
        }
        match best {
            None => {
                proof {
                    assert forall|a2: int, c2: int| !is_next(m, cur, a2, c2) by {
                        if is_next(m, cur, a2, c2) {
                            assert(free_pair(m, cur, a2, c2));
                        }
                    }
                }
                break;
            },
            Some((ba, bc)) => {
                proof {
                    assert(is_next(m, cur, ba as int, bc as int));
                    lemma_greedy_step(m, cur, ba as int, bc as int);
                    lemma_num_unassigned_update(cur, ba as int, bc as int);
                }
                assign.set(ba, Some(bc));
                used.set(bc, true);
                proof {
                    let nxt = assign_view(assign@);
                    assert(nxt =~= cur.update(ba as int, Some(bc as int)));
                    assert forall|c: int| 0 <= c < nl implies (#[trigger] used@[c] <==> live_used(nxt, c)) by {
                        if c == bc as int {
                            assert(nxt[ba as int] == Some(c));
                        } else {
                            if live_used(nxt, c) {
                                let a3 = choose|a3: int| 0 <= a3 < nxt.len() && #[trigger] nxt[a3] == Some(c);
                                assert(cur[a3] == Some(c));
                            }
                            if live_used(cur, c) {
                                let a3 = choose|a3: int| 0 <= a3 < cur.len() && #[trigger] cur[a3] == Some(c);
                                assert(a3 != ba as int);
                                assert(nxt[a3] == Some(c));
                            }
                        }
                    }
                }
            },
        }
    }
    proof {
        let cur = assign_view(assign@);
        assert(!(exists|a: int, c: int| is_next(m, cur, a, c)));
        assert(greedy(m, cur) == cur);
    }
    assign
}

// ---------------------------------------------------------------------------
// Operations and plans
// ---------------------------------------------------------------------------

/// The concrete action the executor should attempt. Target frames of the
/// window-placing operations are those of the saved window the operation
/// names.
#[derive(Debug, Clone, PartialEq, Eq)]
pub enum OperationKind {
    /// Reuse an already open window and move/resize it.
    Reposition { live_pid: i32, live_window_id: u32 },
    /// The application is not running; launch it before any geometry work.
    LaunchApp { bundle_id: String },
    /// Ask the running application for a new window.
    CreateWindow { bundle_id: String },
    /// Rebuild a browser window from its captured tabs.
    RestoreChromeTabs { bundle_id: String },
    /// Reconcile mode: minimize a live window no saved window corresponds to.
    MinimizeConflict { live_pid: i32, live_window_id: u32 },
    /// Destructive mode: close a live window no saved window corresponds to.
    CloseConflict { live_pid: i32, live_window_id: u32 },
    /// The window is intentionally not restored.
    Skip { reason: String },
}

/// The characters of an operation kind.
pub enum OperationKindView {
    Reposition { live_pid: i32, live_window_id: u32 },
    LaunchApp { bundle_id: Seq<char> },
    CreateWindow { bundle_id: Seq<char> },
    RestoreChromeTabs { bundle_id: Seq<char> },
    MinimizeConflict { live_pid: i32, live_window_id: u32 },
    CloseConflict { live_pid: i32, live_window_id: u32 },
    Skip { reason: Seq<char> },
}

impl View for OperationKind {
    type V = OperationKindView;

    open spec fn view(&self) -> OperationKindView {
        match self {
            OperationKind::Reposition { live_pid, live_window_id } => OperationKindView::Reposition {
                live_pid: *live_pid,
                live_window_id: *live_window_id,
            },
            OperationKind::LaunchApp { bundle_id } => OperationKindView::LaunchApp { bundle_id: bundle_id@ },
            OperationKind::CreateWindow { bundle_id } => OperationKindView::CreateWindow { bundle_id: bundle_id@ },
            OperationKind::RestoreChromeTabs { bundle_id } => OperationKindView::RestoreChromeTabs {
                bundle_id: bundle_id@,
            },
            OperationKind::MinimizeConflict { live_pid, live_window_id } => OperationKindView::MinimizeConflict {
                live_pid: *live_pid,
                live_window_id: *live_window_id,
            },
            OperationKind::CloseConflict { live_pid, live_window_id } => OperationKindView::CloseConflict {
                live_pid: *live_pid,
                live_window_id: *live_window_id,
            },
            OperationKind::Skip { reason } => OperationKindView::Skip { reason: reason@ },
        }
    }
}

/// Minimizing or closing a window the user has open.
pub open spec fn spec_is_destructive(k: OperationKindView) -> bool {
    k is MinimizeConflict || k is CloseConflict
}

/// Short label of an operation kind.
pub open spec fn spec_short_name(k: OperationKindView) -> Seq<char> {
    match k {
        OperationKindView::Reposition { .. } => "reposition"@,
        OperationKindView::LaunchApp { .. } => "launch"@,
        OperationKindView::CreateWindow { .. } => "create"@,
        OperationKindView::RestoreChromeTabs { .. } => "chrome_tabs"@,
        OperationKindView::MinimizeConflict { .. } => "minimize"@,
        OperationKindView::CloseConflict { .. } => "close"@,
        OperationKindView::Skip { .. } => "skip"@,
    }
}

impl OperationKind {
    /// Closing or minimizing a conflicting window.
    pub fn is_destructive(&self) -> (r: bool)
        ensures
            r == spec_is_destructive(self@),
    {
        match self {
            OperationKind::CloseConflict { .. } => true,
            OperationKind::MinimizeConflict { .. } => true,
            _ => false,
        }
    }

    /// Short label used in listings and journals.
    pub fn short_name(&self) -> (r: &'static str)
        ensures
            r@ == spec_short_name(self@),
    {
        match self {
            OperationKind::Reposition { .. } => "reposition",
            OperationKind::LaunchApp { .. } => "launch",
            OperationKind::CreateWindow { .. } => "create",
            OperationKind::RestoreChromeTabs { .. } => "chrome_tabs",
            OperationKind::MinimizeConflict { .. } => "minimize",
            OperationKind::CloseConflict { .. } => "close",
            OperationKind::Skip { .. } => "skip",
        }
    }
}

/// One planned operation with its rationale.
#[derive(Debug, Clone, PartialEq, Eq)]
pub struct PlannedOperation {
    pub kind: OperationKind,
    pub saved_window_index: Option<usize>,
    pub app_name: String,
    pub bundle_id: Option<String>,
    pub rationale: String,
    pub match_score: Option<MatchScore>,
}

/// The characters of a planned operation.
pub struct PlannedOperationView {
    pub kind: OperationKindView,
    pub saved_window_index: Option<usize>,
    pub app_name: Seq<char>,
    pub bundle_id: Option<Seq<char>>,
    pub rationale: Seq<char>,
    pub match_score: Option<MatchScore>,
}

impl View for PlannedOperation {
    type V = PlannedOperationView;

    open spec fn view(&self) -> PlannedOperationView {
        PlannedOperationView {
            kind: self.kind@,
            saved_window_index: self.saved_window_index,
            app_name: self.app_name@,
            bundle_id: opt_view(self.bundle_id),
            rationale: self.rationale@,
            match_score: self.match_score,
        }
    }
}

/// The views of a list of operations.
pub open spec fn ops_view(v: Seq<PlannedOperation>) -> Seq<PlannedOperationView> {
    v.map_values(|o: PlannedOperation| o@)
}

/// A full restore plan.
#[derive(Debug, Clone, PartialEq, Eq)]
pub struct RestorePlan {
    pub mode: RestoreMode,
    pub operations: Vec<PlannedOperation>,
    /// Saved window indices that the planner could not satisfy.
    pub unmatched_saved: Vec<usize>,
    /// Number of destructive (close/minimize) operations in the plan.
    pub destructive_ops: usize,
    /// Live windows that look like conflicts but were left alone.
    pub left_alone_conflicts: usize,
}

/// The characters of a restore plan.
pub struct RestorePlanView {
    pub mode: RestoreMode,
    pub operations: Seq<PlannedOperationView>,
    pub unmatched_saved: Seq<int>,
    pub destructive_ops: int,
    pub left_alone_conflicts: int,
}

impl View for RestorePlan {
    type V = RestorePlanView;

    open spec fn view(&self) -> RestorePlanView {
        RestorePlanView {
            mode: self.mode,
            operations: ops_view(self.operations@),
            unmatched_saved: idx_view(self.unmatched_saved@),
            destructive_ops: self.destructive_ops as int,
            left_alone_conflicts: self.left_alone_conflicts as int,
        }
    }
}

/// Number of operations of each kind.
#[derive(Debug, Clone, Copy, Default, PartialEq, Eq, Structural)]
pub struct PlanSummary {
    pub reposition: usize,
    pub launch: usize,
    pub create: usize,
    pub chrome: usize,
    pub minimize: usize,
    pub close: usize,
    pub skip: usize,
}

/// Number of operations whose kind satisfies `p`.
pub open spec fn count_ops(ops: Seq<PlannedOperationView>, p: spec_fn(OperationKindView) -> bool) -> nat
    decreases ops.len(),
{
    if ops.len() == 0 {
        0
    } else {
        count_ops(ops.drop_last(), p) + if p(ops.last().kind) { 1nat } else { 0nat }
    }
}

/// The summary of a list of operations: one count per kind.
pub open spec fn spec_summary(ops: Seq<PlannedOperationView>) -> PlanSummary {
    PlanSummary {
        reposition: count_ops(ops, |k: OperationKindView| k is Reposition) as usize,
        launch: count_ops(ops, |k: OperationKindView| k is LaunchApp) as usize,
        create: count_ops(ops, |k: OperationKindView| k is CreateWindow) as usize,
        chrome: count_ops(ops, |k: OperationKindView| k is RestoreChromeTabs) as usize,
        minimize: count_ops(ops, |k: OperationKindView| k is MinimizeConflict) as usize,
        close: count_ops(ops, |k: OperationKindView| k is CloseConflict) as usize,
        skip: count_ops(ops, |k: OperationKindView| k is Skip) as usize,
    }
}

proof fn lemma_count_ops_bound(ops: Seq<PlannedOperationView>, p: spec_fn(OperationKindView) -> bool)
    ensures
        count_ops(ops, p) <= ops.len(),
    decreases ops.len(),
{
    if ops.len() > 0 {
        lemma_count_ops_bound(ops.drop_last(), p);
    }
}

impl RestorePlan {
    /// Number of operations of each kind.
    pub fn summary(&self) -> (r: PlanSummary)
        ensures
            r == spec_summary(ops_view(self.operations@)),
    {
        let ghost all = ops_view(self.operations@);
        let mut s = PlanSummary { reposition: 0, launch: 0, create: 0, chrome: 0, minimize: 0, close: 0, skip: 0 };
        let mut i: usize = 0;
        while i < self.operations.len()
            invariant
                i <= self.operations.len(),
                all == ops_view(self.operations@),
                s == spec_summary(all.subrange(0, i as int)),
            decreases self.operations.len() - i,
        {
            let ghost pre = all.subrange(0, i as int);
            let ghost nxt = all.subrange(0, i + 1);
            proof {
                assert(nxt.drop_last() =~= pre);
                assert(nxt.last() == self.operations@[i as int]@);
                lemma_count_ops_bound(pre, |k: OperationKindView| k is Reposition);
                lemma_count_ops_bound(pre, |k: OperationKindView| k is LaunchApp);
                lemma_count_ops_bound(pre, |k: OperationKindView| k is CreateWindow);
                lemma_count_ops_bound(pre, |k: OperationKindView| k is RestoreChromeTabs);
                lemma_count_ops_bound(pre, |k: OperationKindView| k is MinimizeConflict);
                lemma_count_ops_bound(pre, |k: OperationKindView| k is CloseConflict);
                lemma_count_ops_bound(pre, |k: OperationKindView| k is Skip);
            }
            match &self.operations[i].kind {
                OperationKind::Reposition { .. } => s.reposition = s.reposition + 1,
                OperationKind::LaunchApp { .. } => s.launch = s.launch + 1,
                OperationKind::CreateWindow { .. } => s.create = s.create + 1,
                OperationKind::RestoreChromeTabs { .. } => s.chrome = s.chrome + 1,
                OperationKind::MinimizeConflict { .. } => s.minimize = s.minimize + 1,
                OperationKind::CloseConflict { .. } => s.close = s.close + 1,
                OperationKind::Skip { .. } => s.skip = s.skip + 1,
            }
            i = i + 1;
        }
        assert(all.subrange(0, self.operations.len() as int) =~= all);
        s
    }
}

// ---------------------------------------------------------------------------
// Skip gates
// ---------------------------------------------------------------------------

/// Editors that `--dev-mode` never launches or disturbs.
pub open spec fn spec_dev_mode_protected(id: Seq<char>) -> bool {
    id == "com.microsoft.VSCode"@ || id == "com.todesktop.230313mzl4w4u92"@
}

/// Whether a bundle identifier is protected by `--dev-mode`.
pub fn is_dev_mode_protected_bundle(bundle_id: &str) -> (r: bool)
    ensures
        r == spec_dev_mode_protected(bundle_id@),
{
    str_eq(bundle_id, "com.microsoft.VSCode") || str_eq(bundle_id, "com.todesktop.230313mzl4w4u92")
}

/// Why a saved window is excluded from restore, if it is: disabled,
/// unsupported, or fullscreen, checked in that order.
pub open spec fn spec_skip_reason(w: WindowSnapshot) -> Option<Seq<char>> {
    if !w.enabled {
        Some("disabled in workspace configuration"@)
    } else if spec_support_for(bundle_of(w)).level != SupportLevel::FullRestore {
        Some(spec_support_for(bundle_of(w)).reason)
    } else if w.fullscreen {
        Some("fullscreen windows are not resized in this version"@)
    } else {
        None
    }
}

/// Why a saved window is excluded from restore, if it is. Shared by the
/// planner and verification so both skip the same windows.
pub fn restore_skip_reason(window: &WindowSnapshot) -> (r: Option<String>)
    ensures
        opt_view(r) == spec_skip_reason(*window),
{
    if !window.enabled {
        return Some(string_of("disabled in workspace configuration"));
    }
    let support = support_for_window(window);
    match support.level {
        SupportLevel::FullRestore => {},
        SupportLevel::Unsupported => {
            return Some(string_of(support.reason));
        },
    }
    if window.fullscreen {
        return Some(string_of("fullscreen windows are not resized in this version"));
    }
    None
}

// ---------------------------------------------------------------------------
// Planning specification
// ---------------------------------------------------------------------------

/// Everything the planner reads.
pub struct PlanInput {
    pub windows: Seq<WindowSnapshot>,
    pub live: Seq<LiveWindow>,
    pub running: Seq<RunningApp>,
    pub options: PlanOptions,
    pub table: Seq<Seq<MatchScore>>,
}

/// Skip operation for saved window `i`.
pub open spec fn skip_op(w: WindowSnapshot, i: int, reason: Seq<char>) -> PlannedOperationView {
    PlannedOperationView {
        kind: OperationKindView::Skip { reason },
        saved_window_index: Some(i as usize),
        app_name: w.app_name@,
        bundle_id: bundle_of(w),
        rationale: reason,
        match_score: None,
    }
}

/// Skip operations for the gated windows among `idx`, in order.
pub open spec fn gate_ops(inp: PlanInput, idx: Seq<int>) -> Seq<PlannedOperationView>
    decreases idx.len(),
{
    if idx.len() == 0 {
        seq![]
    } else {
        let i = idx.last();
        let prev = gate_ops(inp, idx.drop_last());
        match spec_skip_reason(inp.windows[i]) {
            Some(reason) => prev.push(skip_op(inp.windows[i], i, reason)),
            None => prev,
        }
    }
}

/// The windows among `idx` that pass the skip gates, in order.
pub open spec fn active_of(inp: PlanInput, idx: Seq<int>) -> Seq<int>
    decreases idx.len(),
{
    if idx.len() == 0 {
        seq![]
    } else {
        let i = idx.last();
        let prev = active_of(inp, idx.drop_last());
        if spec_skip_reason(inp.windows[i]) is None {
            prev.push(i)
        } else {
            prev
        }
    }
}

/// One skip operation with `reason` for each of `idx`.
pub open spec fn bulk_skip_ops(inp: PlanInput, idx: Seq<int>, reason: Seq<char>) -> Seq<PlannedOperationView>
    decreases idx.len(),
{
    if idx.len() == 0 {
        seq![]
    } else {
        bulk_skip_ops(inp, idx.drop_last(), reason).push(skip_op(inp.windows[idx.last()], idx.last(), reason))
    }
}

/// Live windows of bundle `b` among the first `n`, in order.
pub open spec fn candidates_upto(inp: PlanInput, b: Seq<char>, n: int) -> Seq<int>
    decreases n,
{
    if n <= 0 {
        seq![]
    } else {
        let prev = candidates_upto(inp, b, n - 1);
        if opt_view(inp.live[n - 1].bundle_id) == Some(b) {
            prev.push(n - 1)
        } else {
            prev
        }
    }
}

/// Whether each candidate was already claimed by an earlier group.
pub open spec fn taken_of(inp: PlanInput, cands: Seq<int>, consumed: Seq<u32>) -> Seq<bool> {
    Seq::new(cands.len(), |k: int| consumed.contains(inp.live[cands[k]].window_id))
}

/// Launch operation for a group whose application is not running.
pub open spec fn launch_op(first: WindowSnapshot, b: Seq<char>) -> PlannedOperationView {
    PlannedOperationView {
        kind: OperationKindView::LaunchApp { bundle_id: b },
        saved_window_index: None,
        app_name: first.app_name@,
        bundle_id: Some(b),
        rationale: first.app_name@ + " is not running; launching by bundle id"@,
        match_score: None,
    }
}

/// Why a live window is reused: its title as `{:?}` shows it, or `"?"`
/// when it has none.
pub open spec fn reuse_rationale(live: LiveWindow) -> Seq<char> {
    let title = match opt_view(live.title) {
        Some(t) => t,
        None => "?"@,
    };
    "reusing existing window (live title="@ + debug_quoted(title) + ")"@
}

/// The operation for saved window `i` of bundle `b`, given its match.
pub open spec fn window_op(inp: PlanInput, b: Seq<char>, i: int, matched: Option<int>) -> PlannedOperationView {
    let w = inp.windows[i];
    match matched {
        Some(l) => PlannedOperationView {
            kind: OperationKindView::Reposition {
                live_pid: inp.live[l].pid,
                live_window_id: inp.live[l].window_id,
            },
            saved_window_index: Some(i as usize),
            app_name: w.app_name@,
            bundle_id: Some(b),
            rationale: reuse_rationale(inp.live[l]),
            match_score: Some(inp.table[i][l]),
        },
        None => if spec_is_tab_capable(Some(b)) && w.browser_tabs.len() > 0 {
            PlannedOperationView {
                kind: OperationKindView::RestoreChromeTabs { bundle_id: b },
                saved_window_index: Some(i as usize),
                app_name: w.app_name@,
                bundle_id: Some(b),
                rationale: "creating browser window with "@ + decimal(w.browser_tabs.len() as nat) + " captured tabs"@,
                match_score: None,
            }
        } else {
            PlannedOperationView {
                kind: OperationKindView::CreateWindow { bundle_id: b },
                saved_window_index: Some(i as usize),
                app_name: w.app_name@,
                bundle_id: Some(b),
                rationale: "no matching live window; will create a new one"@,
                match_score: None,
            }
        },
    }
}

/// The live window matched to active position `k`, as a global index.
pub open spec fn matched_live(cands: Seq<int>, asg: Seq<Option<int>>, k: int) -> Option<int> {
    match asg[k] {
        Some(c) => Some(cands[c]),
        None => None,
    }
}

/// Operations for the first `n` active windows.
pub open spec fn window_ops_upto(
    inp: PlanInput,
    b: Seq<char>,
    active: Seq<int>,
    cands: Seq<int>,
    asg: Seq<Option<int>>,
    n: int,
) -> Seq<PlannedOperationView>
    decreases n,
{
    if n <= 0 {
        seq![]
    } else {
        window_ops_upto(inp, b, active, cands, asg, n - 1).push(
            window_op(inp, b, active[n - 1], matched_live(cands, asg, n - 1)),
        )
    }
}

/// Window identifiers claimed by the first `n` active windows, in order.
pub open spec fn claimed_upto(inp: PlanInput, cands: Seq<int>, asg: Seq<Option<int>>, n: int) -> Seq<u32>
    decreases n,
{
    if n <= 0 {
        seq![]
    } else {
        let prev = claimed_upto(inp, cands, asg, n - 1);
        match matched_live(cands, asg, n - 1) {
            Some(l) => prev.push(inp.live[l].window_id),
            None => prev,
        }
    }
}

/// What planning one group adds.
pub struct GroupOutcome {
    pub ops: Seq<PlannedOperationView>,
    pub unmatched: Seq<int>,
    pub consumed: Seq<u32>,
}

/// Planning of one group of saved windows (same group key), given the live
/// windows already claimed by earlier groups.
pub open spec fn spec_plan_group(inp: PlanInput, idx: Seq<int>, consumed: Seq<u32>) -> GroupOutcome {
    let gate = gate_ops(inp, idx);
    let active = active_of(inp, idx);
    let first = inp.windows[idx[0]];
    if active.len() == 0 {
        GroupOutcome { ops: gate, unmatched: seq![], consumed }
    } else {
        match bundle_of(first) {
            None => GroupOutcome {
                ops: gate + bulk_skip_ops(inp, active, "missing bundle identifier"@),
                unmatched: active,
                consumed,
            },
            Some(b) => {
                let running = spec_is_running(inp.running, b);
                if !running && inp.options.dev_mode && spec_dev_mode_protected(b) {
                    GroupOutcome {
                        ops: gate + bulk_skip_ops(inp, active, "dev-mode: not launching protected editor"@),
                        unmatched: active,
                        consumed,
                    }
                } else {
                    let launch = if running { seq![] } else { seq![launch_op(first, b)] };
                    let cands = candidates_upto(inp, b, inp.live.len() as int);
                    let m = MatchInput {
                        table: inp.table,
                        saved: active,
                        live: cands,
                        taken: taken_of(inp, cands, consumed),
                    };
                    let asg = spec_assign_matches(m);
                    GroupOutcome {
                        ops: gate + launch + window_ops_upto(inp, b, active, cands, asg, active.len() as int),
                        unmatched: seq![],
                        consumed: consumed + claimed_upto(inp, cands, asg, active.len() as int),
                    }
                }
            },
        }
    }
}

// ---------------------------------------------------------------------------
// Planning one group
// ---------------------------------------------------------------------------

/// The planner's input, read from its arguments.
pub open spec fn plan_input(
    snapshot: &crate::model::WorkspaceSnapshot,
    world: &WorldState,
    options: PlanOptions,
    scores: &Vec<Vec<MatchScore>>,
) -> PlanInput {
    PlanInput {
        windows: snapshot.windows@,
        live: world.windows@,
        running: world.running_pids@,
        options,
        table: table_view(scores),
    }
}

/// `x` occurs in `v`.
pub fn vec_contains_u32(v: &Vec<u32>, x: u32) -> (r: bool)
    ensures
        r == v@.contains(x),
{
    let mut i: usize = 0;
    while i < v.len()
        invariant
            i <= v.len(),
            forall|j: int| 0 <= j < i ==> v@[j] != x,
        decreases v.len() - i,
    {
        if v[i] == x {
            assert(v@[i as int] == x);
            return true;
        }
        i = i + 1;
    }
    false
}

fn skip_operation(window: &WindowSnapshot, index: usize, reason: String) -> (r: PlannedOperation)
    ensures
        r@ == skip_op(*window, index as int, reason@),
{
    PlannedOperation {
        kind: OperationKind::Skip { reason: reason.clone() },
        saved_window_index: Some(index),
        app_name: window.app_name.clone(),
        bundle_id: clone_opt(&window.bundle_id),
        rationale: reason,
        match_score: None,
    }
}

fn reuse_rationale_text(live: &LiveWindow) -> (r: String)
    ensures
        r@ == reuse_rationale(*live),
{
    let title = match &live.title {
        Some(t) => debug_str(t.as_str()),
        None => debug_str("?"),
    };
    let s = concat_str("reusing existing window (live title=", title.as_str());
    concat_str(s.as_str(), ")")
}

fn window_operation(
    snapshot: &crate::model::WorkspaceSnapshot,
    scores: &Vec<Vec<MatchScore>>,
    world: &WorldState,
    options: PlanOptions,
    bundle: &String,
    i: usize,
    matched: Option<usize>,
    tab_capable: bool,
) -> (r: PlannedOperation)
    requires
        i < snapshot.windows.len(),
        table_shape(table_view(scores), snapshot.windows.len() as nat, world.windows.len() as nat),
        matched is Some ==> matched->0 < world.windows.len(),
        tab_capable == spec_is_tab_capable(Some(bundle@)),
    ensures
        r@ == window_op(plan_input(snapshot, world, options, scores), bundle@, i as int, opt_int(matched)),
{
    let ghost inp = plan_input(snapshot, world, options, scores);
    let w = &snapshot.windows[i];
    match matched {
        Some(l) => {
            let live = &world.windows[l];
            let row = &scores[i];
            assert(table_view(scores)[i as int] == row@);
            let score = row[l];
            PlannedOperation {
                kind: OperationKind::Reposition { live_pid: live.pid, live_window_id: live.window_id },
                saved_window_index: Some(i),
                app_name: w.app_name.clone(),
                bundle_id: Some(bundle.clone()),
                rationale: reuse_rationale_text(live),
                match_score: Some(score),
            }
        },
        None => {
            if tab_capable && w.browser_tabs.len() > 0 {
                let mut rationale = string_of("creating browser window with ");
                let count = usize_decimal(w.browser_tabs.len());
                rationale.append(count.as_str());
                rationale.append(" captured tabs");
                PlannedOperation {
                    kind: OperationKind::RestoreChromeTabs { bundle_id: bundle.clone() },
                    saved_window_index: Some(i),
                    app_name: w.app_name.clone(),
                    bundle_id: Some(bundle.clone()),
                    rationale,
                    match_score: None,
                }
            } else {
                PlannedOperation {
                    kind: OperationKind::CreateWindow { bundle_id: bundle.clone() },
                    saved_window_index: Some(i),
                    app_name: w.app_name.clone(),
                    bundle_id: Some(bundle.clone()),
                    rationale: string_of("no matching live window; will create a new one"),
                    match_score: None,
                }
            }
        },
    }
}

proof fn lemma_ops_view_push(v: Seq<PlannedOperation>, x: PlannedOperation)
    ensures
        ops_view(v.push(x)) == ops_view(v).push(x@),
{
    assert(ops_view(v.push(x)) =~= ops_view(v).push(x@));
}

proof fn lemma_idx_view_push(v: Seq<usize>, x: usize)
    ensures
        idx_view(v.push(x)) == idx_view(v).push(x as int),
{
    assert(idx_view(v.push(x)) =~= idx_view(v).push(x as int));
}

proof fn lemma_prefix_last(s: Seq<int>, k: int)
    requires
        0 <= k < s.len(),
    ensures
        s.subrange(0, k + 1).drop_last() == s.subrange(0, k),
        s.subrange(0, k + 1).last() == s[k],
{
    assert(s.subrange(0, k + 1).drop_last() =~= s.subrange(0, k));
}

/// Pushes one skip operation with `reason` for each of `active` and records
/// them as unmatched.
fn skip_all(
    snapshot: &crate::model::WorkspaceSnapshot,
    scores: &Vec<Vec<MatchScore>>,
    world: &WorldState,
    options: PlanOptions,
    active: &Vec<usize>,
    reason: &str,
    operations: &mut Vec<PlannedOperation>,
    unmatched_saved: &mut Vec<usize>,
)
    requires
        forall|k: int| 0 <= k < active.len() ==> #[trigger] active@[k] < snapshot.windows.len(),
    ensures
        ops_view(final(operations)@) == ops_view(old(operations)@) + bulk_skip_ops(
            plan_input(snapshot, world, options, scores),
            idx_view(active@),
            reason@,
        ),
        idx_view(final(unmatched_saved)@) == idx_view(old(unmatched_saved)@) + idx_view(active@),
{
    let ghost inp = plan_input(snapshot, world, options, scores);
    let ghost av = idx_view(active@);
    let mut k: usize = 0;
    while k < active.len()
        invariant
            k <= active.len(),
            av == idx_view(active@),
            inp == plan_input(snapshot, world, options, scores),
            forall|k: int| 0 <= k < active.len() ==> #[trigger] active@[k] < snapshot.windows.len(),
            ops_view(operations@) == ops_view(old(operations)@) + bulk_skip_ops(inp, av.subrange(0, k as int), reason@),
            idx_view(unmatched_saved@) == idx_view(old(unmatched_saved)@) + av.subrange(0, k as int),
        decreases active.len() - k,
    {
        let i = active[k];
        proof {
            lemma_prefix_last(av, k as int);
        }
        let ghost pre_ops = operations@;
        let ghost pre_un = unmatched_saved@;
        unmatched_saved.push(i);
        let op = skip_operation(&snapshot.windows[i], i, string_of(reason));
        operations.push(op);
        proof {
            lemma_ops_view_push(pre_ops, op);
            lemma_idx_view_push(pre_un, i);
            assert(av[k as int] == i as int);
            assert(bulk_skip_ops(inp, av.subrange(0, k + 1), reason@) == bulk_skip_ops(inp, av.subrange(0, k as int), reason@).push(skip_op(inp.windows[i as int], i as int, reason@)));
        }
        assert(ops_view(operations@) =~= ops_view(old(operations)@) + bulk_skip_ops(inp, av.subrange(0, k + 1), reason@));
        assert(idx_view(unmatched_saved@) =~= idx_view(old(unmatched_saved)@) + av.subrange(0, k + 1));
        k = k + 1;
    }
    assert(av.subrange(0, active.len() as int) =~= av);
}

/// Plans one group of saved windows sharing a group key.
fn plan_group(
    snapshot: &crate::model::WorkspaceSnapshot,
    scores: &Vec<Vec<MatchScore>>,
    world: &WorldState,
    indices: &Vec<usize>,
    options: PlanOptions,
    operations: &mut Vec<PlannedOperation>,
    unmatched_saved: &mut Vec<usize>,
    consumed_live: &mut Vec<u32>,
)
    requires
        indices.len() > 0,
        forall|k: int| 0 <= k < indices.len() ==> #[trigger] indices@[k] < snapshot.windows.len(),
        table_shape(table_view(scores), snapshot.windows.len() as nat, world.windows.len() as nat),
    ensures
        ({
            let g = spec_plan_group(
                plan_input(snapshot, world, options, scores),
                idx_view(indices@),
                old(consumed_live)@,
            );
            &&& ops_view(final(operations)@) == ops_view(old(operations)@) + g.ops
            &&& idx_view(final(unmatched_saved)@) == idx_view(old(unmatched_saved)@) + g.unmatched
            &&& final(consumed_live)@ == g.consumed
        }),
{
    let ghost inp = plan_input(snapshot, world, options, scores);
    let ghost idx = idx_view(indices@);
    let ghost ops0 = ops_view(operations@);
    // Skip gates first.
    let mut active: Vec<usize> = Vec::new();
    let mut k: usize = 0;
    while k < indices.len()
        invariant
            k <= indices.len(),
            idx == idx_view(indices@),
            inp == plan_input(snapshot, world, options, scores),
            forall|k: int| 0 <= k < indices.len() ==> #[trigger] indices@[k] < snapshot.windows.len(),
            ops_view(operations@) == ops0 + gate_ops(inp, idx.subrange(0, k as int)),
            idx_view(active@) == active_of(inp, idx.subrange(0, k as int)),
            forall|j: int| 0 <= j < active.len() ==> #[trigger] active@[j] < snapshot.windows.len(),
        decreases indices.len() - k,
    {
        let i = indices[k];
        proof {
            lemma_prefix_last(idx, k as int);
        }
        let w = &snapshot.windows[i];
        match restore_skip_reason(w) {
            Some(reason) => {
                let ghost pre_ops = operations@;
                let op = skip_operation(w, i, reason);
                operations.push(op);
                proof {
                    lemma_ops_view_push(pre_ops, op);
                    assert(idx[k as int] == i as int);
                }
                assert(ops_view(operations@) =~= ops0 + gate_ops(inp, idx.subrange(0, k + 1)));
                assert(idx_view(active@) =~= active_of(inp, idx.subrange(0, k + 1)));
            },
            None => {
                let ghost pre_act = active@;
                active.push(i);
                proof {
                    lemma_idx_view_push(pre_act, i);
                    assert(idx[k as int] == i as int);
                }
                assert(ops_view(operations@) =~= ops0 + gate_ops(inp, idx.subrange(0, k + 1)));
                assert(idx_view(active@) =~= active_of(inp, idx.subrange(0, k + 1)));
            },
        }
        k = k + 1;
    }
    assert(idx.subrange(0, indices.len() as int) =~= idx);
    let ghost gate = gate_ops(inp, idx);
    let ghost act = idx_view(active@);
    if active.len() == 0 {
        return;
    }
    let first = &snapshot.windows[indices[0]];
    match &first.bundle_id {
        None => {
            skip_all(snapshot, scores, world, options, &active, "missing bundle identifier", operations, unmatched_saved);
            return;
        },
        Some(bundle) => {
            let running = world.is_running(bundle.as_str());
            let dev_protected = options.dev_mode && is_dev_mode_protected_bundle(bundle.as_str());
            if !running && dev_protected {
                skip_all(
                    snapshot,
                    scores,
                    world,
                    options,
                    &active,
                    "dev-mode: not launching protected editor",
                    operations,
                    unmatched_saved,
                );
                return;
            }
            let ghost b = bundle@;
            if !running {
                operations.push(PlannedOperation {
                    kind: OperationKind::LaunchApp { bundle_id: bundle.clone() },
                    saved_window_index: None,
                    app_name: first.app_name.clone(),
                    bundle_id: Some(bundle.clone()),
                    rationale: concat_str(first.app_name.as_str(), " is not running; launching by bundle id"),
                    match_score: None,
                });
            }
            let ghost launch = if running { seq![] } else { seq![launch_op(*first, b)] };
            assert(ops_view(operations@) =~= ops0 + gate + launch);
            // Live candidates of this bundle.
            let mut cands: Vec<usize> = Vec::new();
            let mut c: usize = 0;
            while c < world.windows.len()
                invariant
                    c <= world.windows.len(),
                    inp == plan_input(snapshot, world, options, scores),
                    b == bundle@,
                    idx_view(cands@) == candidates_upto(inp, b, c as int),
                    forall|j: int| 0 <= j < cands.len() ==> #[trigger] cands@[j] < world.windows.len(),
                decreases world.windows.len() - c,
            {
                if opt_str_eq(&world.windows[c].bundle_id, bundle.as_str()) {
                    cands.push(c);
                }
                assert(idx_view(cands@) =~= candidates_upto(inp, b, c + 1));
                c = c + 1;
            }
            let ghost cv = idx_view(cands@);
            // Which candidates earlier groups already claimed.
            let mut taken: Vec<bool> = Vec::new();
            let mut t: usize = 0;
            while t < cands.len()
                invariant
                    t <= cands.len(),
                    taken.len() == t,
                    inp == plan_input(snapshot, world, options, scores),
                    cv == idx_view(cands@),
                    forall|j: int| 0 <= j < cands.len() ==> #[trigger] cands@[j] < world.windows.len(),
                    forall|j: int| 0 <= j < t ==> #[trigger] taken@[j] == taken_of(inp, cv, old(consumed_live)@)[j],
                    consumed_live@ == old(consumed_live)@,
                decreases cands.len() - t,
            {
                let flag = vec_contains_u32(consumed_live, world.windows[cands[t]].window_id);
                taken.push(flag);
                t = t + 1;
            }
            assert(taken@ =~= taken_of(inp, cv, old(consumed_live)@));
            let ghost m = MatchInput {
                table: inp.table,
                saved: act,
                live: cv,
                taken: taken_of(inp, cv, old(consumed_live)@),
            };
            proof {
                assert forall|r: int, j: int|
                    #![trigger scores@[r], cands@[j]]
                    0 <= r < scores.len() && 0 <= j < cands.len() implies cands@[j] < scores@[r]@.len() by {
                    assert(table_view(scores)[r] == scores@[r]@);
                }
            }
            let asg = assign_matches(scores, &active, &cands, &taken);
            let ghost av = assign_view(asg@);
            assert(av == spec_assign_matches(m));
            let tab_capable = crate::app_support::is_tab_capable(Some(bundle.as_str()));
            let ghost ops1 = ops_view(operations@);
            let mut k: usize = 0;
            while k < active.len()
                invariant
                    k <= active.len(),
                    inp == plan_input(snapshot, world, options, scores),
                    b == bundle@,
                    act == idx_view(active@),
                    cv == idx_view(cands@),
                    av == assign_view(asg@),
                    asg.len() == active.len(),
                    forall|j: int| 0 <= j < asg.len() && (#[trigger] asg@[j]) is Some ==> asg@[j]->0 < cands.len(),
                    forall|j: int| 0 <= j < cands.len() ==> #[trigger] cands@[j] < world.windows.len(),
                    forall|j: int| 0 <= j < active.len() ==> #[trigger] active@[j] < snapshot.windows.len(),
                    table_shape(table_view(scores), snapshot.windows.len() as nat, world.windows.len() as nat),
                    tab_capable == spec_is_tab_capable(Some(bundle@)),
                    ops_view(operations@) == ops1 + window_ops_upto(inp, b, act, cv, av, k as int),
                    consumed_live@ == old(consumed_live)@ + claimed_upto(inp, cv, av, k as int),
                decreases active.len() - k,
            {
                let i = active[k];
                let matched: Option<usize> = match asg[k] {
                    Some(pos) => Some(cands[pos]),
                    None => None,
                };
                assert(opt_int(matched) == matched_live(cv, av, k as int));
                if let Some(l) = matched {
                    consumed_live.push(world.windows[l].window_id);
                }
                let op = window_operation(snapshot, scores, world, options, bundle, i, matched, tab_capable);
                let ghost pre_ops = operations@;
                operations.push(op);
                proof {
                    lemma_ops_view_push(pre_ops, op);
                    assert(act[k as int] == i as int);
                }
                assert(ops_view(operations@) =~= ops1 + window_ops_upto(inp, b, act, cv, av, k + 1));
                assert(consumed_live@ =~= old(consumed_live)@ + claimed_upto(inp, cv, av, k + 1));
                k = k + 1;
            }
            assert(ops_view(operations@) =~= ops0 + (gate + launch + window_ops_upto(inp, b, act, cv, av, act.len() as int)));
        },
    }
}

// ---------------------------------------------------------------------------
// Grouping, conflicts, and the whole plan
// ---------------------------------------------------------------------------

/// Group key of a saved window: its bundle identifier, or `pid:<pid>` when
/// it has none.
pub open spec fn spec_group_key(w: WindowSnapshot) -> Seq<char> {
    match bundle_of(w) {
        Some(b) => b,
        None => "pid:"@ + decimal_int(w.pid as int),
    }
}

/// Distinct group keys in order of first appearance.
pub open spec fn group_order(ws: Seq<WindowSnapshot>) -> Seq<Seq<char>>
    decreases ws.len(),
{
    if ws.len() == 0 {
        seq![]
    } else {
        let prev = group_order(ws.drop_last());
        let k = spec_group_key(ws.last());
        if prev.contains(k) {
            prev
        } else {
            prev.push(k)
        }
    }
}

/// Indices below `n` of the windows with group key `key`, ascending.
pub open spec fn group_members(ws: Seq<WindowSnapshot>, key: Seq<char>, n: int) -> Seq<int>
    decreases n,
{
    if n <= 0 {
        seq![]
    } else {
        let prev = group_members(ws, key, n - 1);
        if spec_group_key(ws[n - 1]) == key {
            prev.push(n - 1)
        } else {
            prev
        }
    }
}

/// Planning of the groups with keys `keys`, in that order, each seeing the
/// live windows claimed by the groups before it.
pub open spec fn plan_groups(inp: PlanInput, keys: Seq<Seq<char>>) -> GroupOutcome
    decreases keys.len(),
{
    if keys.len() == 0 {
        GroupOutcome { ops: seq![], unmatched: seq![], consumed: seq![] }
    } else {
        let prev = plan_groups(inp, keys.drop_last());
        let g = spec_plan_group(
            inp,
            group_members(inp.windows, keys.last(), inp.windows.len() as int),
            prev.consumed,
        );
        GroupOutcome { ops: prev.ops + g.ops, unmatched: prev.unmatched + g.unmatched, consumed: g.consumed }
    }
}

/// The workspace restores some window of bundle `b`: one that is enabled,
/// on the allowlist and not fullscreen.
pub open spec fn spec_owned(inp: PlanInput, b: Seq<char>) -> bool {
    exists|i: int| 0 <= i < inp.windows.len() && spec_skip_reason(#[trigger] inp.windows[i]) is None && bundle_of(inp.windows[i]) == Some(b)
}

/// Conflicting windows of bundle `b` may be minimized or closed: the
/// workspace restores the application, and `--dev-mode` does not protect it.
pub open spec fn spec_reconcilable(inp: PlanInput, b: Seq<char>) -> bool {
    spec_owned(inp, b) && !(inp.options.dev_mode && spec_dev_mode_protected(b))
}

/// Close operation for an extra window.
pub open spec fn close_op(live: LiveWindow, b: Seq<char>) -> PlannedOperationView {
    PlannedOperationView {
        kind: OperationKindView::CloseConflict { live_pid: live.pid, live_window_id: live.window_id },
        saved_window_index: None,
        app_name: live.app_name@,
        bundle_id: Some(b),
        rationale: "destructive mode: closing extra "@ + live.app_name@ + " window not present in snapshot"@,
        match_score: None,
    }
}

/// Minimize operation for an extra window.
pub open spec fn minimize_op(live: LiveWindow, b: Seq<char>) -> PlannedOperationView {
    PlannedOperationView {
        kind: OperationKindView::MinimizeConflict { live_pid: live.pid, live_window_id: live.window_id },
        saved_window_index: None,
        app_name: live.app_name@,
        bundle_id: Some(b),
        rationale: "reconcile mode: minimizing extra "@ + live.app_name@ + " window not present in snapshot"@,
        match_score: None,
    }
}

/// Conflict handling of the live windows.
pub struct ConflictOutcome {
    pub ops: Seq<PlannedOperationView>,
    pub destructive: int,
    pub left_alone: int,
}

/// Conflict handling of the first `n` live windows, when the mode allows
/// minimizing or closing: unclaimed windows of reconcilable bundles are
/// closed or minimized, every other unclaimed window is left alone.
pub open spec fn conflicts_upto(inp: PlanInput, consumed: Seq<u32>, n: int) -> ConflictOutcome
    decreases n,
{
    if n <= 0 {
        ConflictOutcome { ops: seq![], destructive: 0, left_alone: 0 }
    } else {
        let prev = conflicts_upto(inp, consumed, n - 1);
        let live = inp.live[n - 1];
        if consumed.contains(live.window_id) {
            prev
        } else {
            match opt_view(live.bundle_id) {
                None => ConflictOutcome { left_alone: prev.left_alone + 1, ..prev },
                Some(b) => if !spec_reconcilable(inp, b) {
                    ConflictOutcome { left_alone: prev.left_alone + 1, ..prev }
                } else if inp.options.mode.spec_allows_close() {
                    ConflictOutcome { ops: prev.ops.push(close_op(live, b)), destructive: prev.destructive + 1, ..prev }
                } else if inp.options.mode.spec_allows_minimize() {
                    ConflictOutcome { ops: prev.ops.push(minimize_op(live, b)), destructive: prev.destructive + 1, ..prev }
                } else {
                    ConflictOutcome { left_alone: prev.left_alone + 1, ..prev }
                },
            }
        }
    }
}

/// Number of unclaimed live windows of owned bundles among the first `n`.
pub open spec fn unclaimed_owned_upto(inp: PlanInput, consumed: Seq<u32>, n: int) -> int
    decreases n,
{
    if n <= 0 {
        0
    } else {
        let live = inp.live[n - 1];
        unclaimed_owned_upto(inp, consumed, n - 1) + if !consumed.contains(live.window_id) && match opt_view(
            live.bundle_id,
        ) {
            Some(b) => spec_owned(inp, b),
            None => false,
        } {
            1int
        } else {
            0int
        }
    }
}

/// The plan for a snapshot, an observed world, options and a score table.
pub open spec fn spec_plan_restore(inp: PlanInput) -> RestorePlanView {
    let g = plan_groups(inp, group_order(inp.windows));
    if inp.options.mode.spec_allows_minimize() || inp.options.mode.spec_allows_close() {
        let c = conflicts_upto(inp, g.consumed, inp.live.len() as int);
        RestorePlanView {
            mode: inp.options.mode,
            operations: g.ops + c.ops,
            unmatched_saved: g.unmatched,
            destructive_ops: c.destructive,
            left_alone_conflicts: c.left_alone,
        }
    } else {
        RestorePlanView {
            mode: inp.options.mode,
            operations: g.ops,
            unmatched_saved: g.unmatched,
            destructive_ops: 0,
            left_alone_conflicts: unclaimed_owned_upto(inp, g.consumed, inp.live.len() as int),
        }
    }
}

fn group_key(window: &WindowSnapshot) -> (r: String)
    ensures
        r@ == spec_group_key(*window),
{
    match &window.bundle_id {
        Some(b) => b.clone(),
        None => {
            let digits = i32_decimal(window.pid);
            concat_str("pid:", digits.as_str())
        },
    }
}

/// The characters of a list of strings.
pub open spec fn strings_view(v: Seq<String>) -> Seq<Seq<char>> {
    v.map_values(|s: String| s@)
}

proof fn lemma_order_covers(ws: Seq<WindowSnapshot>, i: int, t: int)
    requires
        0 <= t < i <= ws.len(),
    ensures
        group_order(ws.subrange(0, i)).contains(spec_group_key(ws[t])),
    decreases i,
{
    let pre = ws.subrange(0, i);
    assert(pre.drop_last() =~= ws.subrange(0, i - 1));
    assert(pre.last() == ws[i - 1]);
    let prev = group_order(ws.subrange(0, i - 1));
    let k = spec_group_key(ws[i - 1]);
    let x = spec_group_key(ws[t]);
    assert(group_order(pre) == if prev.contains(k) { prev } else { prev.push(k) });
    if t < i - 1 {
        lemma_order_covers(ws, i - 1, t);
        let w = choose|w: int| 0 <= w < prev.len() && prev[w] == x;
        if !prev.contains(k) {
            assert(prev.push(k)[w] == x);
        }
    } else {
        if !prev.contains(k) {
            assert(prev.push(k)[prev.len() as int] == k);
        }
    }
}

pub proof fn lemma_order_no_dups(ws: Seq<WindowSnapshot>)
    ensures
        group_order(ws).no_duplicates(),
    decreases ws.len(),
{
    if ws.len() > 0 {
        lemma_order_no_dups(ws.drop_last());
        let prev = group_order(ws.drop_last());
        let k = spec_group_key(ws.last());
        if !prev.contains(k) {
            let cur = prev.push(k);
            assert forall|a: int, b: int| 0 <= a < cur.len() && 0 <= b < cur.len() && a != b implies cur[a] != cur[b] by {
                if a == prev.len() {
                    assert(cur[b] == prev[b]);
                } else if b == prev.len() {
                    assert(cur[a] == prev[a]);
                }
            }
        }
    }
}

proof fn lemma_members_absent(ws: Seq<WindowSnapshot>, key: Seq<char>, i: int)
    requires
        0 <= i <= ws.len(),
        !group_order(ws.subrange(0, i)).contains(key),
    ensures
        group_members(ws, key, i) == Seq::<int>::empty(),
    decreases i,
{
    if i > 0 {
        lemma_order_covers(ws, i, i - 1);
        assert(group_order(ws.subrange(0, i)).contains(spec_group_key(ws[i - 1])));
        let pre = ws.subrange(0, i);
        assert(pre.drop_last() =~= ws.subrange(0, i - 1));
        assert(pre.last() == ws[i - 1]);
        let prev = group_order(ws.subrange(0, i - 1));
        let k = spec_group_key(ws[i - 1]);
        assert(group_order(pre) == if prev.contains(k) { prev } else { prev.push(k) });
        if prev.contains(key) {
            let w = choose|w: int| 0 <= w < prev.len() && prev[w] == key;
            if !prev.contains(k) {
                assert(prev.push(k)[w] == key);
            }
        }
        assert(k != key);
        lemma_members_absent(ws, key, i - 1);
    }
}

proof fn lemma_members_bounded(ws: Seq<WindowSnapshot>, key: Seq<char>, n: int)
    requires
        0 <= n <= ws.len(),
    ensures
        forall|j: int| 0 <= j < group_members(ws, key, n).len() ==> 0 <= #[trigger] group_members(ws, key, n)[j] < n,
    decreases n,
{
    if n > 0 {
        lemma_members_bounded(ws, key, n - 1);
        let prev = group_members(ws, key, n - 1);
        let cur = group_members(ws, key, n);
        assert forall|j: int| 0 <= j < cur.len() implies 0 <= #[trigger] cur[j] < n by {
            if j < prev.len() {
                assert(cur[j] == prev[j]);
            }
        }
    }
}

/// Whether the workspace restores a window of bundle `b`.
fn is_owned(snapshot: &crate::model::WorkspaceSnapshot, b: &str) -> (r: bool)
    ensures
        r == (exists|i: int| 0 <= i < snapshot.windows@.len() && spec_skip_reason(#[trigger] snapshot.windows@[i]) is None && bundle_of(snapshot.windows@[i]) == Some(b@)),
{
    let mut i: usize = 0;
    while i < snapshot.windows.len()
        invariant
            i <= snapshot.windows.len(),
            forall|j: int| 0 <= j < i ==> !(spec_skip_reason(#[trigger] snapshot.windows@[j]) is None && bundle_of(snapshot.windows@[j]) == Some(b@)),
        decreases snapshot.windows.len() - i,
    {
        let w = &snapshot.windows[i];
        if restore_skip_reason(w).is_none() && opt_str_eq(&w.bundle_id, b) {
            assert(spec_skip_reason(snapshot.windows@[i as int]) is None && bundle_of(snapshot.windows@[i as int]) == Some(b@));
            return true;
        }
        i = i + 1;
    }
    false
}

/// Builds a deterministic plan from a snapshot and an observed world.
///
/// `scores[i][j]` is the match score of saved window `i` against live
/// window `j`.
pub fn plan_restore(
    snapshot: &crate::model::WorkspaceSnapshot,
    world: &WorldState,
    options: PlanOptions,
    scores: &Vec<Vec<MatchScore>>,
) -> (r: RestorePlan)
    requires
        table_shape(table_view(scores), snapshot.windows.len() as nat, world.windows.len() as nat),
    ensures
        r@ == spec_plan_restore(plan_input(snapshot, world, options, scores)),
{
    let ghost inp = plan_input(snapshot, world, options, scores);
    let ghost ws = snapshot.windows@;
    let n = snapshot.windows.len();
    // Group saved windows by key, in order of first appearance.
    let mut keys: Vec<String> = Vec::new();
    let mut groups: Vec<Vec<usize>> = Vec::new();
    let mut i: usize = 0;
    while i < n
        invariant
            i <= n,
            n == snapshot.windows.len(),
            ws == snapshot.windows@,
            strings_view(keys@) == group_order(ws.subrange(0, i as int)),
            groups.len() == keys.len(),
            forall|j: int| 0 <= j < groups.len() ==> idx_view((#[trigger] groups@[j])@) == group_members(ws, keys@[j]@, i as int),
            forall|j: int| 0 <= j < groups.len() ==> (#[trigger] groups@[j]).len() > 0,
        decreases n - i,
    {
        let key = group_key(&snapshot.windows[i]);
        let ghost pre = ws.subrange(0, i as int);
        let ghost nxt = ws.subrange(0, i + 1);
        proof {
            assert(nxt.drop_last() =~= pre);
            assert(nxt.last() == ws[i as int]);
        }
        let mut found: Option<usize> = None;
        let mut j: usize = 0;
        while j < keys.len()
            invariant_except_break
                found is None,
            invariant
                j <= keys.len(),
                forall|t: int| 0 <= t < j ==> keys@[t]@ != key@,
            ensures
                found is Some ==> found->0 < keys.len() && keys@[found->0 as int]@ == key@,
                found is None ==> forall|t: int| 0 <= t < keys.len() ==> keys@[t]@ != key@,
            decreases keys.len() - j,
        {
            if keys[j] == key {
                found = Some(j);
                break;
            }
            j = j + 1;
        }
        proof {
            assert(found is Some ==> found->0 < keys.len() && keys@[found->0 as int]@ == key@);
            assert(found is None ==> forall|t: int| 0 <= t < keys.len() ==> keys@[t]@ != key@);
        }
        match found {
            Some(j) => {
                proof {
                    assert(strings_view(keys@)[j as int] == key@);
                    assert(group_order(pre).contains(key@));
                    assert(group_order(nxt) == group_order(pre));
                }
                let ghost old_groups = groups@;
                groups[j].push(i);
                proof {
                    lemma_order_no_dups(pre);
                    assert(strings_view(keys@).no_duplicates());
                    assert forall|t: int| 0 <= t < groups.len() implies idx_view((#[trigger] groups@[t])@)
                        == group_members(ws, keys@[t]@, i + 1) by {
                        if t == j as int {
                            assert(idx_view(groups@[t]@) =~= idx_view(old_groups[t]@).push(i as int));
                        } else {
                            assert(groups@[t] == old_groups[t]);
                            assert(strings_view(keys@)[t] != strings_view(keys@)[j as int]);
                        }
                    }
                }
            },
            None => {
                proof {
                    if group_order(pre).contains(key@) {
                        let t = choose|t: int| 0 <= t < group_order(pre).len() && group_order(pre)[t] == key@;
                        assert(strings_view(keys@)[t] == keys@[t]@);
                    }
                    lemma_members_absent(ws, key@, i as int);
                }
                let ghost old_keys = keys@;
                let ghost old_groups = groups@;
                keys.push(key);
                let mut g: Vec<usize> = Vec::new();
                g.push(i);
                groups.push(g);
                proof {
                    assert(strings_view(keys@) =~= strings_view(old_keys).push(key@));
                    assert forall|t: int| 0 <= t < groups.len() implies idx_view((#[trigger] groups@[t])@)
                        == group_members(ws, keys@[t]@, i + 1) by {
                        if t == old_groups.len() {
                            assert(idx_view(groups@[t]@) =~= seq![i as int]);
                            assert(group_members(ws, key@, i as int) == Seq::<int>::empty());
                        } else {
                            assert(groups@[t] == old_groups[t]);
                            assert(keys@[t] == old_keys[t]);
                        }
                    }
                }
            },
        }
        i = i + 1;
    }
    assert(ws.subrange(0, n as int) =~= ws);
    let ghost order = group_order(ws);
    // Plan each group in order.
    let mut operations: Vec<PlannedOperation> = Vec::new();
    let mut unmatched_saved: Vec<usize> = Vec::new();
    let mut consumed_live: Vec<u32> = Vec::new();
    let mut j: usize = 0;
    while j < groups.len()
        invariant
            j <= groups.len(),
            groups.len() == keys.len(),
            n == snapshot.windows.len(),
            ws == snapshot.windows@,
            inp == plan_input(snapshot, world, options, scores),
            table_shape(table_view(scores), snapshot.windows.len() as nat, world.windows.len() as nat),
            strings_view(keys@) == order,
            order == group_order(ws),
            forall|t: int| 0 <= t < groups.len() ==> idx_view((#[trigger] groups@[t])@) == group_members(ws, keys@[t]@, n as int),
            forall|t: int| 0 <= t < groups.len() ==> (#[trigger] groups@[t]).len() > 0,
            ({
                let g = plan_groups(inp, order.subrange(0, j as int));
                &&& ops_view(operations@) == g.ops
                &&& idx_view(unmatched_saved@) == g.unmatched
                &&& consumed_live@ == g.consumed
            }),
        decreases groups.len() - j,
    {
        proof {
            let pre = order.subrange(0, j as int);
            let nxt = order.subrange(0, j + 1);
            assert(nxt.drop_last() =~= pre);
            assert(nxt.last() == keys@[j as int]@);
            lemma_members_bounded(ws, keys@[j as int]@, n as int);
            assert forall|k: int| 0 <= k < groups@[j as int].len() implies #[trigger] groups@[j as int]@[k] < n by {
                assert(idx_view(groups@[j as int]@)[k] == groups@[j as int]@[k] as int);
            }
        }
        let ghost ops_before = ops_view(operations@);
        let ghost un_before = idx_view(unmatched_saved@);
        plan_group(
            snapshot,
            scores,
            world,
            &groups[j],
            options,
            &mut operations,
            &mut unmatched_saved,
            &mut consumed_live,
        );
        j = j + 1;
    }
    assert(order.subrange(0, groups.len() as int) =~= order);
    let ghost g = plan_groups(inp, order);
    // Conflicts.
    let mode = options.mode;
    let nl = world.windows.len();
    let mut destructive_ops: usize = 0;
    let mut left_alone_conflicts: usize = 0;
    if mode.allows_minimize() || mode.allows_close() {
        let ghost ops_g = ops_view(operations@);
        let mut c: usize = 0;
        while c < nl
            invariant
                c <= nl,
                nl == world.windows.len(),
                inp == plan_input(snapshot, world, options, scores),
                mode == options.mode,
                consumed_live@ == g.consumed,
                ({
                    let co = conflicts_upto(inp, g.consumed, c as int);
                    &&& ops_view(operations@) == ops_g + co.ops
                    &&& destructive_ops as int == co.destructive
                    &&& left_alone_conflicts as int == co.left_alone
                }),
                destructive_ops + left_alone_conflicts <= c,
            decreases nl - c,
        {
            let live = &world.windows[c];
            let ghost pre_ops = operations@;
            if vec_contains_u32(&consumed_live, live.window_id) {
            } else {
                match &live.bundle_id {
                    None => {
                        left_alone_conflicts = left_alone_conflicts + 1;
                    },
                    Some(bundle) => {
                        if !is_owned(snapshot, bundle.as_str()) || (options.dev_mode && is_dev_mode_protected_bundle(
                            bundle.as_str(),
                        )) {
                            left_alone_conflicts = left_alone_conflicts + 1;
                        } else if mode.allows_close() {
                            let mut rationale = concat_str("destructive mode: closing extra ", live.app_name.as_str());
                            rationale.append(" window not present in snapshot");
                            let op = PlannedOperation {
                                kind: OperationKind::CloseConflict { live_pid: live.pid, live_window_id: live.window_id },
                                saved_window_index: None,
                                app_name: live.app_name.clone(),
                                bundle_id: Some(bundle.clone()),
                                rationale,
                                match_score: None,
                            };
                            operations.push(op);
                            proof { lemma_ops_view_push(pre_ops, op); }
                            destructive_ops = destructive_ops + 1;
                        } else if mode.allows_minimize() {
                            let mut rationale = concat_str("reconcile mode: minimizing extra ", live.app_name.as_str());
                            rationale.append(" window not present in snapshot");
                            let op = PlannedOperation {
                                kind: OperationKind::MinimizeConflict { live_pid: live.pid, live_window_id: live.window_id },
                                saved_window_index: None,
                                app_name: live.app_name.clone(),
                                bundle_id: Some(bundle.clone()),
                                rationale,
                                match_score: None,
                            };
                            operations.push(op);
                            proof { lemma_ops_view_push(pre_ops, op); }
                            destructive_ops = destructive_ops + 1;
                        } else {
                            left_alone_conflicts = left_alone_conflicts + 1;
                        }
                    },
                }
            }
            assert(ops_view(operations@) =~= ops_g + conflicts_upto(inp, g.consumed, c + 1).ops);
            c = c + 1;
        }
    } else {
        let mut c: usize = 0;
        while c < nl
            invariant
                c <= nl,
                nl == world.windows.len(),
                inp == plan_input(snapshot, world, options, scores),
                consumed_live@ == g.consumed,
                left_alone_conflicts as int == unclaimed_owned_upto(inp, g.consumed, c as int),
                left_alone_conflicts <= c,
            decreases nl - c,
        {
            let live = &world.windows[c];
            if !vec_contains_u32(&consumed_live, live.window_id) {
                match &live.bundle_id {
                    Some(bundle) => {
                        if is_owned(snapshot, bundle.as_str()) {
                            left_alone_conflicts = left_alone_conflicts + 1;
                        }
                    },
                    None => {},
                }
            }
            c = c + 1;
        }
    }
    RestorePlan {
        mode,
        operations,
        unmatched_saved,
        destructive_ops,
        left_alone_conflicts,
    }
}

} // verus!

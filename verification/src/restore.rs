//! The window-by-window restore: which saved windows it acts on, the report
//! of what came of each, and placing a window right after its application
//! was launched.
//!
//! A freshly launched application may not have its windows ready when the
//! first placement is tried, so placement is retried a bounded number of
//! times with a wait in between; an application that was already running is
//! tried once.

use vstd::prelude::*;

use crate::app_support::{is_tab_capable, spec_is_tab_capable, spec_support_for, support_for_window, SupportLevel};
use crate::error::WorkspaceError;
use crate::model::{bundle_of, WindowSnapshot, WorkspaceSnapshot};
use crate::plan::{is_dev_mode_protected_bundle, spec_dev_mode_protected, RestoreMode};
use crate::text::{clone_opt, concat_str, opt_view, string_of};

verus! {

/// How a restore runs.
#[derive(Debug, Copy, Clone, Default, PartialEq, Eq, Structural)]
pub struct RestoreOptions {
    pub dry_run: bool,
    pub dev_mode: bool,
    pub mode: RestoreMode,
}

/// What came of one saved window.
#[derive(Debug, Clone, Copy, PartialEq, Eq, Structural)]
pub enum RestoreStatus {
    /// A dry run would restore it.
    Planned,
    Restored,
    Skipped,
    Failed,
}

/// One saved window of a restore report.
#[derive(Debug, Clone, PartialEq, Eq)]
pub struct RestoreAction {
    pub bundle_id: Option<String>,
    pub app_name: String,
    pub title: Option<String>,
    pub display_id: Option<String>,
    pub status: RestoreStatus,
    pub message: Option<String>,
}

/// What a restore did, one action per saved window in snapshot order.
#[derive(Debug, Clone, PartialEq, Eq)]
pub struct RestoreReport {
    pub snapshot: String,
    pub dry_run: bool,
    pub restored: usize,
    pub skipped: usize,
    pub failed: usize,
    pub actions: Vec<RestoreAction>,
}

/// Why the restore leaves a saved window alone: disabled, not on the
/// allowlist, or fullscreen, checked in that order.
pub open spec fn spec_restore_gate(w: WindowSnapshot) -> Option<Seq<char>> {
    if !w.enabled {
        Some("disabled in workspace configuration"@)
    } else if spec_support_for(bundle_of(w)).level != SupportLevel::FullRestore {
        Some(spec_support_for(bundle_of(w)).reason)
    } else if w.fullscreen {
        Some("fullscreen windows are recorded but not resized in the MVP"@)
    } else {
        None
    }
}

fn restore_gate(window: &WindowSnapshot) -> (r: Option<String>)
    ensures
        opt_view(r) == spec_restore_gate(*window),
{
    if !window.enabled {
        return Some(string_of("disabled in workspace configuration"));
    }
    let support = support_for_window(window);
    match support.level {
        SupportLevel::FullRestore => {},
        SupportLevel::Unsupported => {
            return Some(string_of(support.reason));
        },
    }
    if window.fullscreen {
        return Some(string_of("fullscreen windows are recorded but not resized in the MVP"));
    }
    None
}

/// Positions of the saved windows among the first `n` that no gate
/// excludes, in order.
pub open spec fn jobs_upto(ws: Seq<WindowSnapshot>, n: int) -> Seq<int>
    decreases n,
{
    if n <= 0 {
        seq![]
    } else if spec_restore_gate(ws[n - 1]) is None {
        jobs_upto(ws, n - 1).push(n - 1)
    } else {
        jobs_upto(ws, n - 1)
    }
}

/// The saved windows a restore places, in snapshot order: those no gate
/// excludes, and none in a dry run.
pub open spec fn spec_restore_jobs(ws: Seq<WindowSnapshot>, dry_run: bool) -> Seq<int> {
    if dry_run {
        seq![]
    } else {
        jobs_upto(ws, ws.len() as int)
    }
}

/// Positions as integers.
pub open spec fn positions(v: Seq<usize>) -> Seq<int> {
    v.map_values(|x: usize| x as int)
}

/// The saved windows a restore places; the caller places them and hands the
/// outcome of each, in this order, to `restore_workspace`.
pub fn restore_jobs(snapshot: &WorkspaceSnapshot, options: RestoreOptions) -> (r: Vec<usize>)
    ensures
        positions(r@) == spec_restore_jobs(snapshot.windows@, options.dry_run),
{
    let mut jobs: Vec<usize> = Vec::new();
    if options.dry_run {
        assert(positions(jobs@) =~= seq![]);
        return jobs;
    }
    let ghost ws = snapshot.windows@;
    let mut i: usize = 0;
    while i < snapshot.windows.len()
        invariant
            i <= snapshot.windows.len(),
            ws == snapshot.windows@,
            positions(jobs@) == jobs_upto(ws, i as int),
        decreases snapshot.windows.len() - i,
    {
        let gate = restore_gate(&snapshot.windows[i]);
        if gate.is_none() {
            jobs.push(i);
            assert(positions(jobs@) =~= jobs_upto(ws, i as int).push(i as int));
        }
        i = i + 1;
    }
    jobs
}

/// A placement outcome with its error text as a sequence.
pub open spec fn outcome_view(r: Result<(), String>) -> Result<(), Seq<char>> {
    match r {
        Ok(()) => Ok(()),
        Err(m) => Err(m@),
    }
}

/// Placement outcomes as sequences.
pub open spec fn outcomes_view(v: Seq<Result<(), String>>) -> Seq<Result<(), Seq<char>>> {
    v.map_values(|r: Result<(), String>| outcome_view(r))
}

/// Status and message of saved window `i`. An excluded window is skipped
/// with the reason; in a dry run a window is planned; otherwise it is
/// restored or failed by the placement outcome at its position among the
/// jobs, and failed when no outcome is at that position.
pub open spec fn spec_window_outcome(
    ws: Seq<WindowSnapshot>,
    dry_run: bool,
    results: Seq<Result<(), Seq<char>>>,
    i: int,
) -> (RestoreStatus, Option<Seq<char>>) {
    match spec_restore_gate(ws[i]) {
        Some(reason) => (RestoreStatus::Skipped, Some(reason)),
        None => if dry_run {
            (RestoreStatus::Planned, None)
        } else {
            let j = jobs_upto(ws, i).len() as int;
            if j < results.len() {
                match results[j] {
                    Ok(()) => (RestoreStatus::Restored, None),
                    Err(m) => (RestoreStatus::Failed, Some(m)),
                }
            } else {
                (RestoreStatus::Failed, Some("restore did not produce a result"@))
            }
        },
    }
}

/// The action of a saved window with the given outcome.
pub open spec fn action_of(a: RestoreAction, w: WindowSnapshot, outcome: (RestoreStatus, Option<Seq<char>>)) -> bool {
    &&& a.bundle_id == w.bundle_id
    &&& a.app_name@ == w.app_name@
    &&& a.title == w.title
    &&& a.display_id == w.display_id
    &&& a.status == outcome.0
    &&& opt_view(a.message) == outcome.1
}

/// Number of actions with status `s`.
pub open spec fn count_with_status(actions: Seq<RestoreAction>, s: RestoreStatus) -> nat
    decreases actions.len(),
{
    if actions.len() == 0 {
        0
    } else {
        count_with_status(actions.drop_last(), s) + if actions.last().status == s { 1nat } else { 0nat }
    }
}

proof fn lemma_count_with_status_bound(actions: Seq<RestoreAction>, s: RestoreStatus)
    ensures
        count_with_status(actions, s) <= actions.len(),
    decreases actions.len(),
{
    if actions.len() > 0 {
        lemma_count_with_status_bound(actions.drop_last(), s);
    }
}

/// The report of a restore: one action per saved window, in order, and the
/// number restored, skipped and failed. `results[j]` is the outcome of
/// placing job `j` of `restore_jobs`; a dry run places nothing.
pub fn restore_workspace(
    snapshot: &WorkspaceSnapshot,
    options: RestoreOptions,
    results: &Vec<Result<(), String>>,
) -> (r: RestoreReport)
    ensures
        r.snapshot@ == snapshot.name@,
        r.dry_run == options.dry_run,
        r.actions.len() == snapshot.windows.len(),
        forall|i: int| 0 <= i < snapshot.windows.len() ==> action_of(
            #[trigger] r.actions@[i],
            snapshot.windows@[i],
            spec_window_outcome(snapshot.windows@, options.dry_run, outcomes_view(results@), i),
        ),
        r.restored == count_with_status(r.actions@, RestoreStatus::Restored),
        r.skipped == count_with_status(r.actions@, RestoreStatus::Skipped),
        r.failed == count_with_status(r.actions@, RestoreStatus::Failed),
{
    let ghost ws = snapshot.windows@;
    let ghost rs = outcomes_view(results@);
    let mut actions: Vec<RestoreAction> = Vec::new();
    let mut restored: usize = 0;
    let mut skipped: usize = 0;
    let mut failed: usize = 0;
    let mut j: usize = 0;
    let mut i: usize = 0;
    while i < snapshot.windows.len()
        invariant
            i <= snapshot.windows.len(),
            ws == snapshot.windows@,
            rs == outcomes_view(results@),
            j == jobs_upto(ws, i as int).len(),
            j <= i,
            actions.len() == i,
            forall|k: int| 0 <= k < i ==> action_of(
                #[trigger] actions@[k],
                ws[k],
                spec_window_outcome(ws, options.dry_run, rs, k),
            ),
            restored == count_with_status(actions@, RestoreStatus::Restored),
            skipped == count_with_status(actions@, RestoreStatus::Skipped),
            failed == count_with_status(actions@, RestoreStatus::Failed),
        decreases snapshot.windows.len() - i,
    {
        let w = &snapshot.windows[i];
        let (status, message) = match restore_gate(w) {
            Some(reason) => (RestoreStatus::Skipped, Some(reason)),
            None => {
                let out = if options.dry_run {
                    (RestoreStatus::Planned, None)
                } else if j < results.len() {
                    match &results[j] {
                        Ok(()) => (RestoreStatus::Restored, None),
                        Err(m) => (RestoreStatus::Failed, Some(string_of(m.as_str()))),
                    }
                } else {
                    (RestoreStatus::Failed, Some(string_of("restore did not produce a result")))
                };
                j = j + 1;
                out
            },
        };
        proof {
            lemma_count_with_status_bound(actions@, RestoreStatus::Restored);
            lemma_count_with_status_bound(actions@, RestoreStatus::Skipped);
            lemma_count_with_status_bound(actions@, RestoreStatus::Failed);
        }
        let ghost before = actions@;
        actions.push(RestoreAction {
            bundle_id: clone_opt(&w.bundle_id),
            app_name: string_of(w.app_name.as_str()),
            title: clone_opt(&w.title),
            display_id: clone_opt(&w.display_id),
            status,
            message,
        });
        proof {
            assert(actions@.drop_last() =~= before);
        }
        match status {
            RestoreStatus::Restored => restored = restored + 1,
            RestoreStatus::Skipped => skipped = skipped + 1,
            RestoreStatus::Failed => failed = failed + 1,
            RestoreStatus::Planned => {},
        }
        i = i + 1;
    }
    RestoreReport { snapshot: string_of(snapshot.name.as_str()), dry_run: options.dry_run, restored, skipped, failed, actions }
}

/// How the windows of one application are placed.
#[derive(Debug, Clone, Copy, PartialEq, Eq, Structural)]
pub enum GroupRoute {
    /// No window to place.
    Nothing,
    /// Chromium-family browser windows are always rebuilt by the browser
    /// script, however many.
    Browser,
    /// A single window, placed on its own.
    Single,
    /// Several windows of one application, placed together.
    Group,
}

/// The route of a group of `n` windows of an application.
pub open spec fn spec_group_route(bundle_id: Option<Seq<char>>, n: usize) -> GroupRoute {
    if n == 0 {
        GroupRoute::Nothing
    } else if spec_is_tab_capable(bundle_id) {
        GroupRoute::Browser
    } else if n == 1 {
        GroupRoute::Single
    } else {
        GroupRoute::Group
    }
}

/// An optional string's characters.
pub open spec fn opt_str_view(o: Option<&str>) -> Option<Seq<char>> {
    match o {
        Some(s) => Some(s@),
        None => None,
    }
}

/// How to place a group of `n` windows of the application `bundle_id`.
pub fn group_route(bundle_id: Option<&str>, n: usize) -> (r: GroupRoute)
    ensures
        r == spec_group_route(opt_str_view(bundle_id), n),
{
    if n == 0 {
        return GroupRoute::Nothing;
    }
    if is_tab_capable(bundle_id) {
        return GroupRoute::Browser;
    }
    if n == 1 {
        GroupRoute::Single
    } else {
        GroupRoute::Group
    }
}

/// `--dev-mode` keeps a protected editor that is not running from being
/// launched.
pub open spec fn spec_launch_blocked(dev_mode: bool, bundle_id: Option<Seq<char>>, running: bool) -> bool {
    dev_mode && !running && match bundle_id {
        Some(b) => spec_dev_mode_protected(b),
        None => false,
    }
}

/// Whether `--dev-mode` keeps the application from being launched.
pub fn launch_blocked(dev_mode: bool, bundle_id: Option<&str>, running: bool) -> (r: bool)
    ensures
        r == spec_launch_blocked(dev_mode, opt_str_view(bundle_id), running),
{
    if !dev_mode || running {
        return false;
    }
    match bundle_id {
        Some(b) => is_dev_mode_protected_bundle(b),
        None => false,
    }
}

/// What placing a group of windows of one application came to: a result
/// per window (placed or not), no window found in time, or an error.
#[derive(Debug, Clone, PartialEq, Eq)]
pub enum GroupPlacement {
    Placed(Vec<bool>),
    NotFound,
    Failed(String),
}

/// `n` copies of one outcome.
pub open spec fn repeat_outcome(n: usize, o: Result<(), Seq<char>>) -> Seq<Result<(), Seq<char>>> {
    Seq::new(n as nat, |k: int| o)
}

fn repeat_result(n: usize, o: &Result<(), String>) -> (r: Vec<Result<(), String>>)
    ensures
        outcomes_view(r@) == repeat_outcome(n, outcome_view(*o)),
{
    let mut v: Vec<Result<(), String>> = Vec::new();
    let mut k: usize = 0;
    while k < n
        invariant
            k <= n,
            outcomes_view(v@) == repeat_outcome(k, outcome_view(*o)),
        decreases n - k,
    {
        let x = match o {
            Ok(()) => Ok(()),
            Err(m) => Err(string_of(m.as_str())),
        };
        let ghost before = v@;
        v.push(x);
        proof {
            assert(outcomes_view(v@) =~= outcomes_view(before).push(outcome_view(x)));
            assert(outcomes_view(v@) =~= repeat_outcome((k + 1) as usize, outcome_view(*o)));
        }
        k = k + 1;
    }
    v
}

/// The outcome of each window of a group of `n` windows of `app_name`
/// placed together: per window as placed, or all failing alike.
pub open spec fn spec_group_results(app_name: Seq<char>, n: usize, placement: GroupPlacement) -> Seq<
    Result<(), Seq<char>>,
> {
    match placement {
        GroupPlacement::Placed(placed) => Seq::new(
            placed@.len(),
            |k: int| if placed@[k] {
                Ok(())
            } else {
                Err("could not find a distinct matching live window for "@ + app_name)
            },
        ),
        GroupPlacement::NotFound => repeat_outcome(n, Err("could not find matching live windows for "@ + app_name)),
        GroupPlacement::Failed(m) => repeat_outcome(n, Err(m@)),
    }
}

/// The outcome of each window of a group placed together.
pub fn group_results(app_name: &str, n: usize, placement: &GroupPlacement) -> (r: Vec<Result<(), String>>)
    ensures
        outcomes_view(r@) == spec_group_results(app_name@, n, *placement),
{
    match placement {
        GroupPlacement::Placed(placed) => {
            let mut v: Vec<Result<(), String>> = Vec::new();
            let mut k: usize = 0;
            while k < placed.len()
                invariant
                    k <= placed.len(),
                    *placement == GroupPlacement::Placed(*placed),
                    outcomes_view(v@) == spec_group_results(app_name@, n, *placement).subrange(0, k as int),
                decreases placed.len() - k,
            {
                let x = if placed[k] {
                    Ok(())
                } else {
                    Err(concat_str("could not find a distinct matching live window for ", app_name))
                };
                let ghost before = v@;
                v.push(x);
                proof {
                    assert(outcomes_view(v@) =~= outcomes_view(before).push(outcome_view(x)));
                    assert(outcomes_view(v@) =~= spec_group_results(app_name@, n, *placement).subrange(0, k + 1));
                }
                k = k + 1;
            }
            assert(spec_group_results(app_name@, n, *placement).subrange(0, placed.len() as int)
                =~= spec_group_results(app_name@, n, *placement));
            v
        },
        GroupPlacement::NotFound => {
            let e: Result<(), String> = Err(concat_str("could not find matching live windows for ", app_name));
            repeat_result(n, &e)
        },
        GroupPlacement::Failed(m) => {
            let e: Result<(), String> = Err(string_of(m.as_str()));
            repeat_result(n, &e)
        },
    }
}

/// The outcome of each of `n` Chrome windows: all fail when `--dev-mode`
/// blocks the launch; otherwise all succeed when the browser script ran,
/// and all fail when it did not or erred.
pub open spec fn spec_chrome_results(n: usize, blocked: bool, script: Result<bool, Seq<char>>) -> Seq<
    Result<(), Seq<char>>,
> {
    if blocked {
        repeat_outcome(n, Err("Chrome is not running and --dev-mode is set; skipping launch"@))
    } else {
        match script {
            Ok(true) => repeat_outcome(n, Ok(())),
            Ok(false) => repeat_outcome(n, Err("Chrome restore script did not run"@)),
            Err(m) => repeat_outcome(n, Err(m)),
        }
    }
}

/// A script outcome with its error text as a sequence.
pub open spec fn script_view(r: Result<bool, String>) -> Result<bool, Seq<char>> {
    match r {
        Ok(b) => Ok(b),
        Err(m) => Err(m@),
    }
}

/// The outcome of each of `n` Chrome windows rebuilt by the browser script;
/// `script` is not consulted when the launch is blocked.
pub fn chrome_results(n: usize, blocked: bool, script: &Result<bool, String>) -> (r: Vec<Result<(), String>>)
    ensures
        outcomes_view(r@) == spec_chrome_results(n, blocked, script_view(*script)),
{
    let e: Result<(), String> = if blocked {
        Err(string_of("Chrome is not running and --dev-mode is set; skipping launch"))
    } else {
        match script {
            Ok(true) => Ok(()),
            Ok(false) => Err(string_of("Chrome restore script did not run")),
            Err(m) => Err(string_of(m.as_str())),
        }
    };
    repeat_result(n, &e)
}

/// Placement attempts after the first one for a launched application.
pub const WINDOW_READY_WAIT_ATTEMPTS: usize = 40;

/// How many more placement attempts follow the first failed one.
pub fn window_ready_retry_attempts(launched: bool) -> (r: usize)
    ensures
        r == (if launched { WINDOW_READY_WAIT_ATTEMPTS } else { 0 }),
{
    if launched {
        WINDOW_READY_WAIT_ATTEMPTS
    } else {
        0
    }
}

/// What follows an attempt to place a window.
#[derive(Debug, Clone, Copy, PartialEq, Eq, Structural)]
pub enum RetryStep {
    /// Wait, look the processes up again, and try once more.
    Retry,
    /// Report the last attempt's result.
    Stop,
}

/// After `retries_done` retries, with `last` the result of the latest
/// attempt: retry when that attempt found no window and the retry budget
/// (`WINDOW_READY_WAIT_ATTEMPTS` for a launched application, none for one
/// that was already running) is not spent; otherwise stop.
pub open spec fn spec_retry_step(launched: bool, retries_done: int, last: Result<bool, WorkspaceError>) -> RetryStep {
    if last == Ok::<bool, WorkspaceError>(false) && retries_done < (if launched {
        WINDOW_READY_WAIT_ATTEMPTS
    } else {
        0
    }) {
        RetryStep::Retry
    } else {
        RetryStep::Stop
    }
}

/// Whether to retry placing a window after `retries_done` retries, the
/// latest attempt having returned `last`.
pub fn retry_step(launched: bool, retries_done: usize, last: &Result<bool, WorkspaceError>) -> (r: RetryStep)
    ensures
        r == spec_retry_step(launched, retries_done as int, *last),
{
    match last {
        Ok(false) => {
            if retries_done < window_ready_retry_attempts(launched) {
                RetryStep::Retry
            } else {
                RetryStep::Stop
            }
        },
        _ => RetryStep::Stop,
    }
}

/// One request made while placing a window.
pub enum PlacementCall {
    /// A placement attempt with these processes, and what it returned.
    Place { pids: Seq<i32>, result: Result<bool, WorkspaceError> },
    /// A pause before the next attempt.
    Wait,
    /// A fresh lookup of the application's processes, and what it found.
    Lookup { pids: Seq<i32> },
}

/// What placing a window asks of the desktop: an attempt to place it with
/// the windows of some processes, a pause, and a fresh lookup of the
/// application's processes.
///
/// An implementation may keep, as ghost state, the requests made of it in
/// order; one that does (`tracks_calls`) appends each request together with
/// its reply.
pub trait WindowPlacement {
    /// Whether this implementation keeps its requests in `placement_calls`.
    open spec fn tracks_calls() -> bool {
        false
    }

    /// The requests made so far, in order, when they are kept.
    open spec fn placement_calls(&self) -> Seq<PlacementCall> {
        seq![]
    }

    /// Whether requests may be made of it.
    open spec fn ready(&self) -> bool {
        true
    }

    /// Tries to place the window with the windows of `pids`: `Ok(true)`
    /// when it was placed, `Ok(false)` when no window matched.
    fn set_frame(&mut self, pids: &[i32]) -> (r: Result<bool, WorkspaceError>)
        requires
            old(self).ready(),
        ensures
            final(self).ready(),
            Self::tracks_calls() ==> final(self).placement_calls() == old(self).placement_calls().push(
                PlacementCall::Place { pids: pids@, result: r },
            ),
    ;

    /// The processes of the application now.
    fn current_pids(&mut self) -> (r: Vec<i32>)
        requires
            old(self).ready(),
        ensures
            final(self).ready(),
            Self::tracks_calls() ==> final(self).placement_calls() == old(self).placement_calls().push(
                PlacementCall::Lookup { pids: r@ },
            ),
    ;

    /// Gives the application time to bring its windows up.
    fn wait(&mut self)
        requires
            old(self).ready(),
        ensures
            final(self).ready(),
            Self::tracks_calls() ==> final(self).placement_calls() == old(self).placement_calls().push(
                PlacementCall::Wait,
            ),
    ;
}

/// The requests of a placement that first tried `initial`, whose retries
/// looked up `lookups` in turn and whose attempts returned `outs` in turn:
/// the first attempt, then for each retry a pause, a lookup and an attempt
/// with what the lookup found.
pub open spec fn placement_run(
    initial: Seq<i32>,
    lookups: Seq<Seq<i32>>,
    outs: Seq<Result<bool, WorkspaceError>>,
) -> Seq<PlacementCall>
    decreases lookups.len(),
{
    if lookups.len() == 0 {
        seq![PlacementCall::Place { pids: initial, result: outs[0] }]
    } else {
        placement_run(initial, lookups.drop_last(), outs.drop_last()) + seq![
            PlacementCall::Wait,
            PlacementCall::Lookup { pids: lookups.last() },
            PlacementCall::Place { pids: lookups.last(), result: outs.last() },
        ]
    }
}

/// Attempts that returned `outs` in turn obey the retry rule: `retry_step`
/// asked for a retry after each of them but the last, and to stop after the
/// last.
pub open spec fn follows_retry_rule(launched: bool, outs: Seq<Result<bool, WorkspaceError>>) -> bool {
    &&& outs.len() >= 1
    &&& forall|j: int|
        0 <= j < outs.len() - 1 ==> spec_retry_step(launched, j, #[trigger] outs[j]) == RetryStep::Retry
    &&& spec_retry_step(launched, outs.len() - 1, outs.last()) == RetryStep::Stop
}

/// `run` is the whole of a placement that first tried `initial`, obeyed the
/// retry rule, and reported `r`, the result of its last attempt.
pub open spec fn is_placement_run(
    launched: bool,
    initial: Seq<i32>,
    run: Seq<PlacementCall>,
    r: Result<bool, WorkspaceError>,
) -> bool {
    exists|lookups: Seq<Seq<i32>>, outs: Seq<Result<bool, WorkspaceError>>|
        {
            &&& lookups.len() + 1 == outs.len()
            &&& follows_retry_rule(launched, outs)
            &&& r == outs.last()
            &&& run == #[trigger] placement_run(initial, lookups, outs)
        }
}

/// Tries to place a window with the processes in `initial_pids`; while an
/// attempt finds no window and `retry_step` allows it, waits, looks up the
/// processes again and retries with them, so a launched application gets
/// up to `WINDOW_READY_WAIT_ATTEMPTS` retries and one that was already
/// running none.
///
/// Returns `Ok(true)` as soon as one attempt places the window, the first
/// error any attempt returns, and `Ok(false)` when every attempt found no
/// window. The requests it makes are exactly such a placement run.
pub fn set_frame_with_window_ready_retry<E: WindowPlacement>(
    initial_pids: &[i32],
    launched: bool,
    env: &mut E,
) -> (r: Result<bool, WorkspaceError>)
    requires
        old(env).ready(),
    ensures
        final(env).ready(),
        E::tracks_calls() ==> exists|run: Seq<PlacementCall>|
            {
                &&& final(env).placement_calls() == old(env).placement_calls() + run
                &&& #[trigger] is_placement_run(launched, initial_pids@, run, r)
            },
{
    let ghost before = env.placement_calls();
    let mut res = env.set_frame(initial_pids);
    let ghost mut lookups: Seq<Seq<i32>> = seq![];
    let ghost mut outs: Seq<Result<bool, WorkspaceError>> = seq![res];
    proof {
        if E::tracks_calls() {
            assert(env.placement_calls() =~= before + placement_run(initial_pids@, lookups, outs));
        }
    }
    let mut k: usize = 0;
    loop
        invariant
            k <= (if launched { WINDOW_READY_WAIT_ATTEMPTS } else { 0 }),
            before == old(env).placement_calls(),
            env.ready(),
            lookups.len() == k,
            outs.len() == k + 1,
            res == outs.last(),
            forall|j: int| 0 <= j < k ==> spec_retry_step(launched, j, #[trigger] outs[j]) == RetryStep::Retry,
            E::tracks_calls() ==> env.placement_calls() == before + placement_run(initial_pids@, lookups, outs),
        decreases (if launched { WINDOW_READY_WAIT_ATTEMPTS } else { 0 }) - k,
    {
        match retry_step(launched, k, &res) {
            RetryStep::Stop => {
                proof {
                    assert(follows_retry_rule(launched, outs));
                    if E::tracks_calls() {
                        let run = placement_run(initial_pids@, lookups, outs);
                        assert(is_placement_run(launched, initial_pids@, run, res));
                        assert(env.placement_calls() == before + run);
                    }
                }
                return res;
            },
            RetryStep::Retry => {},
        }
        env.wait();
        let pids = env.current_pids();
        let ps = pids.as_slice();
        let ghost mid = env.placement_calls();
        res = env.set_frame(ps);
        proof {
            let l2 = lookups.push(pids@);
            let o2 = outs.push(res);
            assert(l2.drop_last() =~= lookups);
            assert(o2.drop_last() =~= outs);
            if E::tracks_calls() {
                assert(env.placement_calls() =~= before + placement_run(initial_pids@, l2, o2));
            }
            assert forall|j: int| 0 <= j < k + 1 implies spec_retry_step(launched, j, #[trigger] o2[j])
                == RetryStep::Retry by {
                if j < k {
                    assert(o2[j] == outs[j]);
                }
            }
            lookups = l2;
            outs = o2;
        }
        k = k + 1;
    }
}

/// Placement requests answered by three closures: one that tries to place
/// the window, one that looks the processes up, and one that waits. It
/// keeps the requests made of it.
pub struct ClosurePlacement<P, S, W> {
    lookup: P,
    place: S,
    pause: W,
    log: Ghost<Seq<PlacementCall>>,
}

impl<P, S, W> ClosurePlacement<P, S, W> where
    P: FnMut() -> Vec<i32>,
    S: FnMut(&[i32]) -> Result<bool, WorkspaceError>,
    W: FnMut(),
 {
    /// Placement requests answered by `current_pids`, `set_frame` and
    /// `wait`, with none made yet.
    pub fn new(current_pids: P, set_frame: S, wait: W) -> (r: Self)
        requires
            call_requires(current_pids, ()),
            call_requires(wait, ()),
            forall|pids: &[i32]| call_requires(set_frame, (pids,)),
        ensures
            r.ready(),
            r.placement_calls() == Seq::<PlacementCall>::empty(),
    {
        ClosurePlacement { lookup: current_pids, place: set_frame, pause: wait, log: Ghost(Seq::empty()) }
    }
}

impl<P, S, W> WindowPlacement for ClosurePlacement<P, S, W> where
    P: FnMut() -> Vec<i32>,
    S: FnMut(&[i32]) -> Result<bool, WorkspaceError>,
    W: FnMut(),
 {
    open spec fn tracks_calls() -> bool {
        true
    }

    closed spec fn placement_calls(&self) -> Seq<PlacementCall> {
        self.log@
    }

    closed spec fn ready(&self) -> bool {
        &&& call_requires(self.lookup, ())
        &&& call_requires(self.pause, ())
        &&& forall|pids: &[i32]| call_requires(self.place, (pids,))
    }

    fn set_frame(&mut self, pids: &[i32]) -> (r: Result<bool, WorkspaceError>) {
        let r = (self.place)(pids);
        proof {
            self.log@ = self.log@.push(PlacementCall::Place { pids: pids@, result: r });
        }
        r
    }

    fn current_pids(&mut self) -> (r: Vec<i32>) {
        let r = (self.lookup)();
        proof {
            self.log@ = self.log@.push(PlacementCall::Lookup { pids: r@ });
        }
        r
    }

    fn wait(&mut self) {
        (self.pause)();
        proof {
            self.log@ = self.log@.push(PlacementCall::Wait);
        }
    }
}

} // verus!

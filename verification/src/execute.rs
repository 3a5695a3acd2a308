//! Executing a restore plan against an executor, with a journal.
//!
//! Every operation of the plan is run (or, in a dry run, only described) in
//! order and recorded with its status, timing and message. An executor
//! carries out the window operations; it knows the target frame of every
//! saved window, so operations name saved windows by index.

use vstd::prelude::*;

use crate::error::WorkspaceError;
use crate::model::{WindowSnapshot, WorkspaceSnapshot};
use crate::plan::{ops_view, spec_short_name, OperationKind, OperationKindView, PlannedOperation,
    PlannedOperationView, RestorePlan, WorldState};
use crate::text::{clone_opt, concat_str, decimal, opt_view, string_of, usize_decimal};

verus! {

// ---------------------------------------------------------------------------
// Clock
// ---------------------------------------------------------------------------

/// Monotonic instants for durations.
#[verifier::external_type_specification]
#[verifier::external_body]
pub struct ExInstant(std::time::Instant);

/// Wall-clock times.
#[verifier::external_type_specification]
#[verifier::external_body]
pub struct ExSystemTime(std::time::SystemTime);

/// The error of a time before a reference time.
#[verifier::external_type_specification]
#[verifier::external_body]
pub struct ExSystemTimeError(std::time::SystemTimeError);

/// The current wall-clock time, from `SystemTime::now`; it depends on the
/// clock, so nothing is stated of it.
#[verifier::external_body]
fn system_time_now() -> (r: std::time::SystemTime) {
    std::time::SystemTime::now()
}

/// `SystemTime::duration_since` the Unix epoch: the time since the epoch,
/// or an error when `t` is before it. Nothing is stated of the values.
#[verifier::external_body]
fn since_epoch(t: &std::time::SystemTime) -> (r: Result<std::time::Duration, std::time::SystemTimeError>) {
    t.duration_since(std::time::UNIX_EPOCH)
}

/// `SystemTimeError::duration`: how far before the reference time the time
/// was. Nothing is stated of the value.
#[verifier::external_body]
fn time_error_duration(e: &std::time::SystemTimeError) -> (r: std::time::Duration) {
    e.duration()
}

/// Nanoseconds from the epoch to a wall-clock time, negative before it,
/// saturated to `i64`.
fn epoch_nanos(t: &std::time::SystemTime) -> (r: i64) {
    match since_epoch(t) {
        Ok(d) => {
            let ns = duration_nanos(d);
            if ns > i64::MAX as u128 {
                i64::MAX
            } else {
                ns as i64
            }
        },
        Err(e) => {
            let ns = duration_nanos(time_error_duration(&e));
            if ns > i64::MAX as u128 {
                -i64::MAX
            } else {
                -(ns as i64)
            }
        },
    }
}

/// The current time as nanoseconds since the Unix epoch, negative before
/// it; it depends on the clock.
fn utc_now_nanos() -> (r: i64) {
    let now = system_time_now();
    epoch_nanos(&now)
}

/// The current monotonic instant, from `std::time::Instant::now`.
#[verifier::external_body]
fn instant_now() -> (r: std::time::Instant) {
    std::time::Instant::now()
}

/// The time since `start`, from `Instant::elapsed`; it depends on the clock.
#[verifier::external_body]
fn elapsed_since(start: &std::time::Instant) -> (r: std::time::Duration) {
    start.elapsed()
}

/// Name for the result of `Duration::as_millis`: the whole milliseconds of a
/// duration.
pub uninterp spec fn whole_millis(d: std::time::Duration) -> u128;

/// Trusted: `Duration::as_millis` returns the total number of whole
/// milliseconds the duration holds, a function of the duration alone.
#[verifier::external_body]
fn duration_millis(d: std::time::Duration) -> (r: u128)
    ensures
        r == whole_millis(d),
{
    d.as_millis()
}

/// Name for the result of `Duration::as_nanos`: the whole nanoseconds of a
/// duration.
pub uninterp spec fn whole_nanos(d: std::time::Duration) -> u128;

/// Trusted: `Duration::as_nanos` returns the total number of nanoseconds
/// the duration holds, a function of the duration alone.
#[verifier::external_body]
fn duration_nanos(d: std::time::Duration) -> (r: u128)
    ensures
        r == whole_nanos(d),
{
    d.as_nanos()
}

/// Whole milliseconds, saturated to `u64`.
pub open spec fn saturated_millis(ms: u128) -> u64 {
    if ms > u64::MAX as u128 {
        u64::MAX
    } else {
        ms as u64
    }
}

/// The whole milliseconds of a duration, saturating at `u64::MAX`.
pub fn duration_ms(d: std::time::Duration) -> (r: u64)
    ensures
        r == saturated_millis(whole_millis(d)),
{
    let ms = duration_millis(d);
    if ms > u64::MAX as u128 {
        u64::MAX
    } else {
        ms as u64
    }
}

// ---------------------------------------------------------------------------
// Journal
// ---------------------------------------------------------------------------

/// What came of one operation.
#[derive(Debug, Clone, Copy, PartialEq, Eq, Structural)]
pub enum JournalStatus {
    /// The operation ran and its effect was observed.
    Success,
    /// The operation ran but its effect could not be observed.
    PartialSuccess,
    /// The operation was intentionally not run.
    Skipped,
    /// The operation was attempted and failed.
    Failed,
}

/// One journal line.
#[derive(Debug, Clone)]
pub struct JournalEntry {
    pub op_index: usize,
    pub op: String,
    pub app_name: String,
    pub bundle_id: Option<String>,
    pub saved_window_index: Option<usize>,
    pub status: JournalStatus,
    /// Nanoseconds since the Unix epoch, UTC.
    pub started_at: i64,
    pub duration_ms: u64,
    pub message: String,
    pub attempts: u32,
}

/// The journal of one execution of a plan.
#[derive(Debug, Clone)]
pub struct ExecutionJournal {
    pub snapshot: String,
    /// Nanoseconds since the Unix epoch, UTC.
    pub started_at: i64,
    pub duration_ms: u64,
    pub entries: Vec<JournalEntry>,
}

/// Number of entries per status.
#[derive(Debug, Default, Clone, Copy, PartialEq, Eq, Structural)]
pub struct JournalCounts {
    pub success: usize,
    pub partial: usize,
    pub skipped: usize,
    pub failed: usize,
}

/// Number of entries with status `s`.
pub open spec fn count_status(es: Seq<JournalEntry>, s: JournalStatus) -> nat
    decreases es.len(),
{
    if es.len() == 0 {
        0
    } else {
        count_status(es.drop_last(), s) + if es.last().status == s { 1nat } else { 0nat }
    }
}

proof fn lemma_count_status_bound(es: Seq<JournalEntry>, s: JournalStatus)
    ensures
        count_status(es, s) <= es.len(),
    decreases es.len(),
{
    if es.len() > 0 {
        lemma_count_status_bound(es.drop_last(), s);
    }
}

impl ExecutionJournal {
    /// Number of entries per status.
    pub fn counts(&self) -> (r: JournalCounts)
        ensures
            r.success == count_status(self.entries@, JournalStatus::Success),
            r.partial == count_status(self.entries@, JournalStatus::PartialSuccess),
            r.skipped == count_status(self.entries@, JournalStatus::Skipped),
            r.failed == count_status(self.entries@, JournalStatus::Failed),
    {
        let mut c = JournalCounts { success: 0, partial: 0, skipped: 0, failed: 0 };
        let mut i: usize = 0;
        while i < self.entries.len()
            invariant
                i <= self.entries.len(),
                c.success == count_status(self.entries@.subrange(0, i as int), JournalStatus::Success),
                c.partial == count_status(self.entries@.subrange(0, i as int), JournalStatus::PartialSuccess),
                c.skipped == count_status(self.entries@.subrange(0, i as int), JournalStatus::Skipped),
                c.failed == count_status(self.entries@.subrange(0, i as int), JournalStatus::Failed),
            decreases self.entries.len() - i,
        {
            let ghost pre = self.entries@.subrange(0, i as int);
            proof {
                assert(self.entries@.subrange(0, i + 1).drop_last() =~= pre);
                lemma_count_status_bound(pre, JournalStatus::Success);
                lemma_count_status_bound(pre, JournalStatus::PartialSuccess);
                lemma_count_status_bound(pre, JournalStatus::Skipped);
                lemma_count_status_bound(pre, JournalStatus::Failed);
            }
            match self.entries[i].status {
                JournalStatus::Success => c.success = c.success + 1,
                JournalStatus::PartialSuccess => c.partial = c.partial + 1,
                JournalStatus::Skipped => c.skipped = c.skipped + 1,
                JournalStatus::Failed => c.failed = c.failed + 1,
            }
            i = i + 1;
        }
        assert(self.entries@.subrange(0, self.entries.len() as int) =~= self.entries@);
        c
    }
}

// ---------------------------------------------------------------------------
// Outcomes
// ---------------------------------------------------------------------------

/// The outcome of one executor call; `attempts` carries the executor's
/// internal retry count into the journal.
#[derive(Debug, Clone)]
pub struct OpOutcome {
    pub status: JournalStatus,
    pub message: String,
    pub attempts: u32,
}

/// An outcome with the given status, message and attempts.
pub open spec fn outcome_is(o: OpOutcome, status: JournalStatus, message: Seq<char>, attempts: u32) -> bool {
    o.status == status && o.message@ == message && o.attempts == attempts
}

impl OpOutcome {
    /// The operation took effect, in one attempt.
    pub fn success(msg: String) -> (r: Self)
        ensures
            outcome_is(r, JournalStatus::Success, msg@, 1),
    {
        OpOutcome { status: JournalStatus::Success, message: msg, attempts: 1 }
    }

    /// The operation ran but its effect was not observed, in one attempt.
    pub fn partial(msg: String) -> (r: Self)
        ensures
            outcome_is(r, JournalStatus::PartialSuccess, msg@, 1),
    {
        OpOutcome { status: JournalStatus::PartialSuccess, message: msg, attempts: 1 }
    }

    /// The operation was not attempted.
    pub fn skipped(msg: String) -> (r: Self)
        ensures
            outcome_is(r, JournalStatus::Skipped, msg@, 0),
    {
        OpOutcome { status: JournalStatus::Skipped, message: msg, attempts: 0 }
    }

    /// The operation failed, in one attempt.
    pub fn failed(msg: String) -> (r: Self)
        ensures
            outcome_is(r, JournalStatus::Failed, msg@, 1),
    {
        OpOutcome { status: JournalStatus::Failed, message: msg, attempts: 1 }
    }

    /// The same outcome with another attempt count.
    pub fn with_attempts(self, attempts: u32) -> (r: Self)
        ensures
            r.status == self.status,
            r.message == self.message,
            r.attempts == attempts,
    {
        let mut out = self;
        out.attempts = attempts;
        out
    }
}

// ---------------------------------------------------------------------------
// Executors
// ---------------------------------------------------------------------------

/// A request made of an executor: which method was called, with what.
pub enum ExecutorCall {
    LaunchApp { bundle_id: Seq<char> },
    CreateWindow { bundle_id: Seq<char>, saved: WindowSnapshot, saved_index: usize },
    Reposition { pid: i32, window_id: u32, saved: WindowSnapshot, saved_index: usize },
    RestoreChromeTabs { bundle_id: Seq<char>, saved: WindowSnapshot, saved_index: usize },
    MinimizeWindow { pid: i32, window_id: u32 },
    CloseWindow { pid: i32, window_id: u32 },
}

/// Carries out the operations of a plan. Target frames are the executor's
/// own: it is told which saved window an operation places.
///
/// An executor may keep, as ghost state, the requests it was asked to carry
/// out and its replies, in order. One that does (`tracks_calls`) appends its
/// request and its reply in each method that acts on the desktop; of one
/// that does not, nothing is known.
pub trait Executor {
    /// Whether this executor keeps its requests in `calls`.
    open spec fn tracks_calls() -> bool {
        false
    }

    /// The requests made of this executor so far, in order, when it tracks
    /// them.
    open spec fn calls(&self) -> Seq<ExecutorCall> {
        seq![]
    }

    /// What this executor answered to each of its requests, in order, when
    /// it tracks them.
    open spec fn replies(&self) -> Seq<Result<OpOutcome, WorkspaceError>> {
        seq![]
    }

    fn launch_app(&mut self, bundle_id: &str) -> (r: Result<OpOutcome, WorkspaceError>)
        ensures
            Self::tracks_calls() ==> final(self).replies() == old(self).replies().push(r),
            Self::tracks_calls() ==> final(self).calls() == old(self).calls().push(ExecutorCall::LaunchApp { bundle_id: bundle_id@ }),
    ;

    fn create_window(&mut self, bundle_id: &str, saved: &WindowSnapshot, saved_index: usize) -> (r: Result<
        OpOutcome,
        WorkspaceError,
    >)
        ensures
            Self::tracks_calls() ==> final(self).replies() == old(self).replies().push(r),
            Self::tracks_calls() ==> final(self).calls() == old(self).calls().push(
                ExecutorCall::CreateWindow { bundle_id: bundle_id@, saved: *saved, saved_index },
            ),
    ;

    fn reposition(&mut self, pid: i32, window_id: u32, saved: &WindowSnapshot, saved_index: usize) -> (r: Result<
        OpOutcome,
        WorkspaceError,
    >)
        ensures
            Self::tracks_calls() ==> final(self).replies() == old(self).replies().push(r),
            Self::tracks_calls() ==> final(self).calls() == old(self).calls().push(
                ExecutorCall::Reposition { pid, window_id, saved: *saved, saved_index },
            ),
    ;

    /// Rebuilds exactly one saved browser window at its target frame.
    fn restore_chrome_tabs(&mut self, bundle_id: &str, saved: &WindowSnapshot, saved_index: usize) -> (r: Result<
        OpOutcome,
        WorkspaceError,
    >)
        ensures
            Self::tracks_calls() ==> final(self).replies() == old(self).replies().push(r),
            Self::tracks_calls() ==> final(self).calls() == old(self).calls().push(
                ExecutorCall::RestoreChromeTabs { bundle_id: bundle_id@, saved: *saved, saved_index },
            ),
    ;

    fn minimize_window(&mut self, pid: i32, window_id: u32) -> (r: Result<OpOutcome, WorkspaceError>)
        ensures
            Self::tracks_calls() ==> final(self).replies() == old(self).replies().push(r),
            Self::tracks_calls() ==> final(self).calls() == old(self).calls().push(ExecutorCall::MinimizeWindow { pid, window_id }),
    ;

    fn close_window(&mut self, pid: i32, window_id: u32) -> (r: Result<OpOutcome, WorkspaceError>)
        ensures
            Self::tracks_calls() ==> final(self).replies() == old(self).replies().push(r),
            Self::tracks_calls() ==> final(self).calls() == old(self).calls().push(ExecutorCall::CloseWindow { pid, window_id }),
    ;

    /// The target frame of a saved window, as shown to the user.
    fn target_label(&self, saved_index: usize) -> String;

    /// Re-observes the world after a batch of mutations; executors whose
    /// state is already authoritative return nothing, which is what the
    /// default does.
    fn observe(&mut self) -> (r: Result<Option<WorldState>, WorkspaceError>)
        default_ensures
            r matches Ok(None),
    {
        Ok(None)
    }
}

/// Whether operations are run or only described.
#[derive(Debug, Clone, Copy, Default, PartialEq, Eq, Structural)]
pub struct ExecuteOptions {
    pub dry_run: bool,
}

/// What an operation would do, in words; `target` is the target frame of a
/// reposition.
pub open spec fn spec_describe(k: OperationKindView, app_name: Seq<char>, target: Seq<char>) -> Seq<char> {
    match k {
        OperationKindView::Reposition { .. } => "reposition "@ + app_name + " to "@ + target,
        OperationKindView::LaunchApp { bundle_id } => "launch "@ + bundle_id,
        OperationKindView::CreateWindow { bundle_id } => "create window for "@ + bundle_id,
        OperationKindView::RestoreChromeTabs { .. } => "restore Chrome tabs"@,
        OperationKindView::MinimizeConflict { .. } => "minimize conflicting window"@,
        OperationKindView::CloseConflict { .. } => "close conflicting window"@,
        OperationKindView::Skip { reason } => "skip: "@ + reason,
    }
}

/// What an operation would do, in words.
pub fn describe(op: &PlannedOperation, target: &str) -> (r: String)
    ensures
        r@ == spec_describe(op.kind@, op.app_name@, target@),
{
    match &op.kind {
        OperationKind::Reposition { .. } => {
            let s = concat_str("reposition ", op.app_name.as_str());
            let s = concat_str(s.as_str(), " to ");
            concat_str(s.as_str(), target)
        },
        OperationKind::LaunchApp { bundle_id } => concat_str("launch ", bundle_id.as_str()),
        OperationKind::CreateWindow { bundle_id } => concat_str("create window for ", bundle_id.as_str()),
        OperationKind::RestoreChromeTabs { .. } => string_of("restore Chrome tabs"),
        OperationKind::MinimizeConflict { .. } => string_of("minimize conflicting window"),
        OperationKind::CloseConflict { .. } => string_of("close conflicting window"),
        OperationKind::Skip { reason } => concat_str("skip: ", reason.as_str()),
    }
}

/// The saved window an operation names: an error outcome when it names none,
/// or an index past the snapshot.
pub open spec fn spec_saved_for_op(windows: Seq<WindowSnapshot>, op: PlannedOperationView) -> Result<int, Seq<char>> {
    match op.saved_window_index {
        None => Err(spec_short_name(op.kind) + " op missing saved index"@),
        Some(i) => if i < windows.len() {
            Ok(i as int)
        } else {
            Err(spec_short_name(op.kind) + " op references invalid saved index "@ + decimal(i as nat))
        },
    }
}

/// Looks up the saved window an operation places.
pub fn saved_for_op<'a>(snapshot: &'a WorkspaceSnapshot, op: &PlannedOperation) -> (r: Result<
    &'a WindowSnapshot,
    OpOutcome,
>)
    ensures
        match spec_saved_for_op(snapshot.windows@, op@) {
            Ok(i) => r matches Ok(w) && *w == snapshot.windows@[i],
            Err(m) => r matches Err(o) && outcome_is(o, JournalStatus::Failed, m, 1),
        },
{
    match op.saved_window_index {
        None => {
            let m = concat_str(op.kind.short_name(), " op missing saved index");
            Err(OpOutcome::failed(m))
        },
        Some(i) => {
            if i < snapshot.windows.len() {
                Ok(&snapshot.windows[i])
            } else {
                let m = concat_str(op.kind.short_name(), " op references invalid saved index ");
                let n = usize_decimal(i);
                let m = concat_str(m.as_str(), n.as_str());
                Err(OpOutcome::failed(m))
            }
        },
    }
}

/// A status, message and attempt count that record an executor's reply to
/// `action`: the outcome it returned, or, when it returned an error, a
/// failure in one attempt whose message names the action and then the
/// error (exactly the error's message where that is fixed).
pub open spec fn records_reply(
    action: Seq<char>,
    reply: Result<OpOutcome, WorkspaceError>,
    status: JournalStatus,
    message: Seq<char>,
    attempts: u32,
) -> bool {
    match reply {
        Ok(x) => status == x.status && message == x.message@ && attempts == x.attempts,
        Err(e) => status == JournalStatus::Failed && attempts == 1 && message.len() >= action.len()
            + " failed: "@.len() && message.subrange(0, (action.len() + " failed: "@.len()) as int) == action
            + " failed: "@ && (crate::error::spec_plain_message(e) matches Some(m) ==> message == action
            + " failed: "@ + m),
    }
}

/// The outcome recorded for an executor call: its outcome, or a failure
/// naming the action when the call returned an error.
pub fn call_outcome(action: &str, r: Result<OpOutcome, WorkspaceError>) -> (o: OpOutcome)
    ensures
        r matches Ok(x) ==> o == x,
        records_reply(action@, r, o.status, o.message@, o.attempts),
{
    match r {
        Ok(x) => x,
        Err(e) => {
            let head = concat_str(action, " failed: ");
            let msg = e.message();
            let m = concat_str(head.as_str(), msg.as_str());
            proof {
                assert(m@.subrange(0, (action@.len() + " failed: "@.len()) as int) =~= action@ + " failed: "@);
            }
            OpOutcome::failed(m)
        },
    }
}

/// The request an operation makes of the executor: none for a skip or for
/// an operation that places a saved window the snapshot does not have,
/// otherwise the one method for the operation's kind, with its process,
/// window, bundle and saved window.
pub open spec fn spec_op_calls(ws: Seq<WindowSnapshot>, op: PlannedOperationView) -> Seq<ExecutorCall> {
    match op.kind {
        OperationKindView::Skip { .. } => seq![],
        OperationKindView::LaunchApp { bundle_id } => seq![ExecutorCall::LaunchApp { bundle_id }],
        OperationKindView::MinimizeConflict { live_pid, live_window_id } => seq![
            ExecutorCall::MinimizeWindow { pid: live_pid, window_id: live_window_id },
        ],
        OperationKindView::CloseConflict { live_pid, live_window_id } => seq![
            ExecutorCall::CloseWindow { pid: live_pid, window_id: live_window_id },
        ],
        OperationKindView::CreateWindow { bundle_id } => match spec_saved_for_op(ws, op) {
            Ok(i) => seq![ExecutorCall::CreateWindow { bundle_id, saved: ws[i], saved_index: i as usize }],
            Err(_) => seq![],
        },
        OperationKindView::Reposition { live_pid, live_window_id } => match spec_saved_for_op(ws, op) {
            Ok(i) => seq![
                ExecutorCall::Reposition {
                    pid: live_pid,
                    window_id: live_window_id,
                    saved: ws[i],
                    saved_index: i as usize,
                },
            ],
            Err(_) => seq![],
        },
        OperationKindView::RestoreChromeTabs { bundle_id } => match spec_saved_for_op(ws, op) {
            Ok(i) => seq![ExecutorCall::RestoreChromeTabs { bundle_id, saved: ws[i], saved_index: i as usize }],
            Err(_) => seq![],
        },
    }
}

/// The requests a run of the operations makes, in order.
pub open spec fn plan_calls(ws: Seq<WindowSnapshot>, ops: Seq<PlannedOperationView>) -> Seq<ExecutorCall>
    decreases ops.len(),
{
    if ops.len() == 0 {
        seq![]
    } else {
        plan_calls(ws, ops.drop_last()) + spec_op_calls(ws, ops.last())
    }
}

/// The action an operation's executor call is named by in the journal.
pub open spec fn spec_action(k: OperationKindView) -> Seq<char> {
    match k {
        OperationKindView::LaunchApp { .. } => "launch"@,
        OperationKindView::CreateWindow { .. } => "create_window"@,
        OperationKindView::Reposition { .. } => "reposition"@,
        OperationKindView::RestoreChromeTabs { .. } => "chrome restore"@,
        OperationKindView::MinimizeConflict { .. } => "minimize"@,
        OperationKindView::CloseConflict { .. } => "close"@,
        OperationKindView::Skip { .. } => seq![],
    }
}

/// Where the reply to operation `k` stands among the replies of a run of
/// `ops`: after those of the operations before it.
pub open spec fn reply_index(ws: Seq<WindowSnapshot>, ops: Seq<PlannedOperationView>, k: int) -> int {
    plan_calls(ws, ops.subrange(0, k)).len() as int
}

proof fn lemma_reply_index(ws: Seq<WindowSnapshot>, ops: Seq<PlannedOperationView>, k: int, n: int)
    requires
        0 <= k < n <= ops.len(),
    ensures
        reply_index(ws, ops, k) + spec_op_calls(ws, ops[k]).len() <= reply_index(ws, ops, n),
    decreases n,
{
    let nxt = ops.subrange(0, n);
    assert(nxt.drop_last() =~= ops.subrange(0, n - 1));
    assert(nxt.last() == ops[n - 1]);
    if k < n - 1 {
        lemma_reply_index(ws, ops, k, n - 1);
    }
}

/// Runs one operation: makes exactly the request `spec_op_calls` names of
/// the executor and records what came of it. A skip is recorded as skipped
/// with its reason; an operation that places a saved window fails without
/// touching the executor when it names no saved window of the snapshot.
pub fn run_op<E: Executor>(executor: &mut E, snapshot: &WorkspaceSnapshot, op: &PlannedOperation) -> (r: OpOutcome)
    ensures
        E::tracks_calls() ==> final(executor).calls() == old(executor).calls() + spec_op_calls(snapshot.windows@, op@),
        E::tracks_calls() ==> final(executor).replies().len() == old(executor).replies().len() + spec_op_calls(
            snapshot.windows@,
            op@,
        ).len(),
        E::tracks_calls() ==> final(executor).replies().subrange(0, old(executor).replies().len() as int) == old(
            executor,
        ).replies(),
        E::tracks_calls() && spec_op_calls(snapshot.windows@, op@).len() == 1 ==> records_reply(
            spec_action(op.kind@),
            final(executor).replies().last(),
            r.status,
            r.message@,
            r.attempts,
        ),
        spec_op_calls(snapshot.windows@, op@).len() == 0 ==> *final(executor) == *old(executor),
        op.kind@ matches OperationKindView::Skip { reason } ==> outcome_is(r, JournalStatus::Skipped, reason, 0),
        (op.kind@ is CreateWindow || op.kind@ is Reposition || op.kind@ is RestoreChromeTabs) ==> (
        spec_saved_for_op(snapshot.windows@, op@) matches Err(m) ==> outcome_is(r, JournalStatus::Failed, m, 1)),
{
    match &op.kind {
        OperationKind::Skip { reason } => OpOutcome::skipped(reason.clone()),
        OperationKind::LaunchApp { bundle_id } => {
            let res = executor.launch_app(bundle_id.as_str());
            call_outcome("launch", res)
        },
        OperationKind::CreateWindow { bundle_id } => {
            let saved = match saved_for_op(snapshot, op) {
                Ok(saved) => saved,
                Err(outcome) => return outcome,
            };
            let index = op.saved_window_index.unwrap();
            let res = executor.create_window(bundle_id.as_str(), saved, index);
            call_outcome("create_window", res)
        },
        OperationKind::Reposition { live_pid, live_window_id } => {
            let saved = match saved_for_op(snapshot, op) {
                Ok(saved) => saved,
                Err(outcome) => return outcome,
            };
            let index = op.saved_window_index.unwrap();
            let res = executor.reposition(*live_pid, *live_window_id, saved, index);
            call_outcome("reposition", res)
        },
        OperationKind::RestoreChromeTabs { bundle_id } => {
            // One operation rebuilds exactly one saved window; rebuilding the
            // whole bundle would rewrite windows other operations matched.
            let saved = match saved_for_op(snapshot, op) {
                Ok(saved) => saved,
                Err(outcome) => return outcome,
            };
            let index = op.saved_window_index.unwrap();
            let res = executor.restore_chrome_tabs(bundle_id.as_str(), saved, index);
            call_outcome("chrome restore", res)
        },
        OperationKind::MinimizeConflict { live_pid, live_window_id } => {
            let res = executor.minimize_window(*live_pid, *live_window_id);
            call_outcome("minimize", res)
        },
        OperationKind::CloseConflict { live_pid, live_window_id } => {
            let res = executor.close_window(*live_pid, *live_window_id);
            call_outcome("close", res)
        },
    }
}

/// The outcome recorded for an operation in a dry run.
pub fn dry_run_outcome(op: &PlannedOperation, target: &str) -> (r: OpOutcome)
    ensures
        outcome_is(r, JournalStatus::Skipped, "dry-run: would "@ + spec_describe(op.kind@, op.app_name@, target@), 0),
{
    let d = describe(op, target);
    OpOutcome { status: JournalStatus::Skipped, message: concat_str("dry-run: would ", d.as_str()), attempts: 0 }
}

/// The journal line of operation `index` of a plan.
pub open spec fn entry_matches(e: JournalEntry, index: int, op: PlannedOperationView) -> bool {
    &&& e.op_index == index
    &&& e.op@ == spec_short_name(op.kind)
    &&& e.app_name@ == op.app_name
    &&& opt_view(e.bundle_id) == op.bundle_id
    &&& e.saved_window_index == op.saved_window_index
}

/// The journal entry of `op` in a dry run: skipped, with no attempt and the
/// operation's description. The target of a reposition is the executor's
/// label, so only the words before it are fixed.
pub open spec fn dry_run_entry_ok(e: JournalEntry, op: PlannedOperationView) -> bool {
    &&& e.status == JournalStatus::Skipped
    &&& e.attempts == 0
    &&& if op.kind is Reposition {
        let head = "dry-run: would "@ + "reposition "@ + op.app_name + " to "@;
        e.message@.len() >= head.len() && e.message@.subrange(0, head.len() as int) == head
    } else {
        e.message@ == "dry-run: would "@ + spec_describe(op.kind, op.app_name, seq![])
    }
}

/// The journal entry of `op` in a run, as far as it does not depend on the
/// executor: a skip is skipped with its reason, and an operation that
/// places a saved window the snapshot does not have fails without calling
/// the executor.
pub open spec fn run_entry_ok(e: JournalEntry, op: PlannedOperationView, windows: Seq<WindowSnapshot>) -> bool {
    &&& (op.kind matches OperationKindView::Skip { reason } ==> e.status == JournalStatus::Skipped && e.message@
        == reason && e.attempts == 0)
    &&& ((op.kind is CreateWindow || op.kind is Reposition || op.kind is RestoreChromeTabs) ==> (spec_saved_for_op(
        windows,
        op,
    ) matches Err(m) ==> e.status == JournalStatus::Failed && e.message@ == m && e.attempts == 1))
}

/// Runs a plan, or in a dry run describes it, and records every operation.
///
/// The journal has one entry per operation, in order. In a dry run no
/// executor method that changes anything is called and every entry is
/// skipped with the operation's description; otherwise a skip operation is
/// recorded as skipped with its reason.
pub fn execute_plan<E: Executor>(
    snapshot: &WorkspaceSnapshot,
    plan: &RestorePlan,
    executor: &mut E,
    options: ExecuteOptions,
) -> (r: ExecutionJournal)
    ensures
        r.snapshot@ == snapshot.name@,
        r.entries.len() == plan.operations.len(),
        forall|k: int| 0 <= k < plan.operations.len() ==> entry_matches(
            #[trigger] r.entries@[k],
            k,
            plan.operations@[k]@,
        ),
        options.dry_run ==> forall|k: int| 0 <= k < plan.operations.len() ==> dry_run_entry_ok(
            #[trigger] r.entries@[k],
            plan.operations@[k]@,
        ),
        !options.dry_run ==> forall|k: int| 0 <= k < plan.operations.len() ==> run_entry_ok(
            #[trigger] r.entries@[k],
            plan.operations@[k]@,
            snapshot.windows@,
        ),
        options.dry_run ==> *final(executor) == *old(executor),
        !options.dry_run && E::tracks_calls() ==> final(executor).calls() == old(executor).calls() + plan_calls(
            snapshot.windows@,
            ops_view(plan.operations@),
        ),
        !options.dry_run && E::tracks_calls() ==> final(executor).replies().len() == old(executor).replies().len()
            + plan_calls(snapshot.windows@, ops_view(plan.operations@)).len(),
        !options.dry_run && E::tracks_calls() ==> forall|k: int|
            0 <= k < plan.operations.len() && spec_op_calls(snapshot.windows@, plan.operations@[k]@).len() == 1
                ==> records_reply(
                spec_action(plan.operations@[k].kind@),
                final(executor).replies()[old(executor).replies().len() + reply_index(
                    snapshot.windows@,
                    ops_view(plan.operations@),
                    k,
                )],
                (#[trigger] r.entries@[k]).status,
                r.entries@[k].message@,
                r.entries@[k].attempts,
            ),
{
    let ghost e0 = *executor;
    let ghost ops = ops_view(plan.operations@);
    let started_at = utc_now_nanos();
    let start = instant_now();
    let mut entries: Vec<JournalEntry> = Vec::new();
    let mut index: usize = 0;
    while index < plan.operations.len()
        invariant
            index <= plan.operations.len(),
            entries.len() == index,
            forall|k: int| 0 <= k < index ==> entry_matches(#[trigger] entries@[k], k, plan.operations@[k]@),
            options.dry_run ==> forall|k: int| 0 <= k < index ==> dry_run_entry_ok(
                #[trigger] entries@[k],
                plan.operations@[k]@,
            ),
            !options.dry_run ==> forall|k: int| 0 <= k < index ==> run_entry_ok(
                #[trigger] entries@[k],
                plan.operations@[k]@,
                snapshot.windows@,
            ),
            ops == ops_view(plan.operations@),
            options.dry_run ==> *executor == e0,
            !options.dry_run && E::tracks_calls() ==> executor.calls() == e0.calls() + plan_calls(
                snapshot.windows@,
                ops.subrange(0, index as int),
            ),
            !options.dry_run && E::tracks_calls() ==> executor.replies().len() == e0.replies().len() + reply_index(
                snapshot.windows@,
                ops,
                index as int,
            ),
            !options.dry_run && E::tracks_calls() ==> forall|k: int|
                0 <= k < index && spec_op_calls(snapshot.windows@, ops[k]).len() == 1 ==> records_reply(
                    spec_action(ops[k].kind),
                    executor.replies()[e0.replies().len() + reply_index(snapshot.windows@, ops, k)],
                    (#[trigger] entries@[k]).status,
                    entries@[k].message@,
                    entries@[k].attempts,
                ),
        decreases plan.operations.len() - index,
    {
        let op = &plan.operations[index];
        let op_start = instant_now();
        let op_started_at = utc_now_nanos();
        let outcome = if options.dry_run {
            let label = match op.saved_window_index {
                Some(i) => executor.target_label(i),
                None => String::new(),
            };
            let o = dry_run_outcome(op, label.as_str());
            proof {
                if op.kind@ is Reposition {
                    let head = "dry-run: would "@ + "reposition "@ + op.app_name@ + " to "@;
                    assert(o.message@ =~= head + label@);
                    assert(o.message@.subrange(0, head.len() as int) =~= head);
                }
            }
            o
        } else {
            proof {
                let pre = ops.subrange(0, index as int);
                let nxt = ops.subrange(0, index + 1);
                assert(nxt.drop_last() =~= pre);
                assert(nxt.last() == op@);
                assert(ops[index as int] == op@);
            }
            let ghost rb = executor.replies();
            let o = run_op(executor, snapshot, op);
            proof {
                if E::tracks_calls() {
                    let n0 = e0.replies().len();
                    assert forall|k: int|
                        0 <= k < index && spec_op_calls(snapshot.windows@, ops[k]).len() == 1 implies executor.replies()[n0
                        + reply_index(snapshot.windows@, ops, k)] == rb[n0 + reply_index(snapshot.windows@, ops, k)] by {
                        lemma_reply_index(snapshot.windows@, ops, k, index as int);
                        let j = n0 + reply_index(snapshot.windows@, ops, k);
                        assert(executor.replies().subrange(0, rb.len() as int)[j] == executor.replies()[j]);
                    }
                }
            }
            o
        };
        let entry = JournalEntry {
            op_index: index,
            op: string_of(op.kind.short_name()),
            app_name: op.app_name.clone(),
            bundle_id: clone_opt(&op.bundle_id),
            saved_window_index: op.saved_window_index,
            status: outcome.status,
            started_at: op_started_at,
            duration_ms: duration_ms(elapsed_since(&op_start)),
            message: outcome.message,
            attempts: outcome.attempts,
        };
        entries.push(entry);
        index = index + 1;
    }
    assert(ops.subrange(0, plan.operations.len() as int) =~= ops);
    ExecutionJournal {
        snapshot: snapshot.name.clone(),
        started_at,
        duration_ms: duration_ms(elapsed_since(&start)),
        entries,
    }
}

} // verus!

//! The observed world and environment diagnostics.
//!
//! The caller enumerates windows and processes; this module builds the
//! world state from them, orders the saved windows for z-order replay, and
//! turns the environment checks into a diagnostic report.

use vstd::prelude::*;

use crate::app_support::{known_apps, spec_known_apps};
use crate::model::{z_key, WindowSnapshot, WorkspaceSnapshot};
use crate::order::{is_permutation, stable_order_by_key, stably_sorted};
use crate::plan::{copy_pids, restore_skip_reason, spec_pids_for, spec_skip_reason, LiveWindow, RunningApp, WorldState};
use crate::filter::{should_capture, spec_is_skipped_owner};
use crate::text::{clone_opt, concat_str, str_eq, string_of};

verus! {

// ---------------------------------------------------------------------------
// Building the world state
// ---------------------------------------------------------------------------

/// No two entries share a bundle identifier, and no entry lists a process
/// twice.
pub open spec fn running_wf(apps: Seq<RunningApp>) -> bool {
    &&& forall|a: int, b: int| 0 <= a < b < apps.len() ==> (#[trigger] apps[a]).bundle_id@ != (
    #[trigger] apps[b]).bundle_id@
    &&& forall|a: int| 0 <= a < apps.len() ==> (#[trigger] apps[a]).pids@.no_duplicates()
}

/// The processes of `id` after recording `pid` for it: appended once.
pub open spec fn pids_after(apps: Seq<RunningApp>, id: Seq<char>, pid: i32) -> Seq<i32> {
    let old_pids = spec_pids_for(apps, id);
    if old_pids.contains(pid) {
        old_pids
    } else {
        old_pids.push(pid)
    }
}

proof fn lemma_pids_for_index(apps: Seq<RunningApp>, id: Seq<char>, k: int)
    requires
        running_wf(apps),
        0 <= k < apps.len(),
        apps[k].bundle_id@ == id,
    ensures
        spec_pids_for(apps, id) == apps[k].pids@,
    decreases apps.len(),
{
    if k > 0 {
        assert(apps[0].bundle_id@ != id) by {
            assert(apps[0].bundle_id@ != apps[k].bundle_id@);
        }
        let rest = apps.drop_first();
        assert(rest[k - 1] == apps[k]);
        assert forall|a: int, b: int| 0 <= a < b < rest.len() implies (#[trigger] rest[a]).bundle_id@ != (
        #[trigger] rest[b]).bundle_id@ by {
            assert(rest[a] == apps[a + 1] && rest[b] == apps[b + 1]);
        }
        assert forall|a: int| 0 <= a < rest.len() implies (#[trigger] rest[a]).pids@.no_duplicates() by {
            assert(rest[a] == apps[a + 1]);
        }
        lemma_pids_for_index(rest, id, k - 1);
    }
}

proof fn lemma_pids_for_absent(apps: Seq<RunningApp>, id: Seq<char>)
    requires
        forall|a: int| 0 <= a < apps.len() ==> (#[trigger] apps[a]).bundle_id@ != id,
    ensures
        spec_pids_for(apps, id) == Seq::<i32>::empty(),
    decreases apps.len(),
{
    if apps.len() > 0 {
        let rest = apps.drop_first();
        assert forall|a: int| 0 <= a < rest.len() implies (#[trigger] rest[a]).bundle_id@ != id by {
            assert(rest[a] == apps[a + 1]);
        }
        lemma_pids_for_absent(rest, id);
    }
}

proof fn lemma_pids_for_other(apps: Seq<RunningApp>, k: int, entry: RunningApp, id: Seq<char>)
    requires
        0 <= k < apps.len(),
        apps[k].bundle_id@ != id,
        entry.bundle_id@ == apps[k].bundle_id@,
    ensures
        spec_pids_for(apps.update(k, entry), id) == spec_pids_for(apps, id),
    decreases apps.len(),
{
    let upd = apps.update(k, entry);
    if k == 0 {
        assert(upd.drop_first() =~= apps.drop_first());
    } else {
        assert(upd[0] == apps[0]);
        assert(upd.drop_first() =~= apps.drop_first().update(k - 1, entry));
        lemma_pids_for_other(apps.drop_first(), k - 1, entry, id);
    }
}

proof fn lemma_pids_for_push(apps: Seq<RunningApp>, entry: RunningApp, id: Seq<char>)
    requires
        forall|a: int| 0 <= a < apps.len() ==> (#[trigger] apps[a]).bundle_id@ != entry.bundle_id@,
        entry.bundle_id@ != id,
    ensures
        spec_pids_for(apps.push(entry), id) == spec_pids_for(apps, id),
    decreases apps.len(),
{
    if apps.len() == 0 {
        assert(apps.push(entry)[0] == entry);
        assert(apps.push(entry).drop_first() =~= Seq::<RunningApp>::empty());
        assert(spec_pids_for(Seq::<RunningApp>::empty(), id) =~= Seq::<i32>::empty());
        assert(spec_pids_for(apps, id) =~= Seq::<i32>::empty());
    } else {
        assert(apps.push(entry)[0] == apps[0]);
        assert(apps.push(entry).drop_first() =~= apps.drop_first().push(entry));
        assert forall|a: int| 0 <= a < apps.drop_first().len() implies (#[trigger] apps.drop_first()[a]).bundle_id@
            != entry.bundle_id@ by {
            assert(apps.drop_first()[a] == apps[a + 1]);
        }
        lemma_pids_for_push(apps.drop_first(), entry, id);
        assert(spec_pids_for(apps.push(entry).drop_first(), id) == spec_pids_for(apps.drop_first(), id));
    }
}

fn contains_pid(v: &Vec<i32>, pid: i32) -> (r: bool)
    ensures
        r == v@.contains(pid),
{
    let mut i: usize = 0;
    while i < v.len()
        invariant
            i <= v.len(),
            forall|k: int| 0 <= k < i ==> v@[k] != pid,
        decreases v.len() - i,
    {
        if v[i] == pid {
            assert(v@[i as int] == pid);
            return true;
        }
        i = i + 1;
    }
    false
}

/// Records that `pid` runs `bundle_id`, once.
pub fn register_pid(running: &mut Vec<RunningApp>, bundle_id: &str, pid: i32)
    requires
        running_wf(old(running)@),
    ensures
        running_wf(final(running)@),
        spec_pids_for(final(running)@, bundle_id@) == pids_after(old(running)@, bundle_id@, pid),
        forall|id: Seq<char>| id != bundle_id@ ==> spec_pids_for(final(running)@, id) == spec_pids_for(
            old(running)@,
            id,
        ),
{
    let mut i: usize = 0;
    while i < running.len()
        invariant
            i <= running.len(),
            running@ == old(running)@,
            running_wf(running@),
            forall|a: int| 0 <= a < i ==> (#[trigger] running@[a]).bundle_id@ != bundle_id@,
        decreases running.len() - i,
    {
        if str_eq(running[i].bundle_id.as_str(), bundle_id) {
            proof {
                lemma_pids_for_index(running@, bundle_id@, i as int);
            }
            if !contains_pid(&running[i].pids, pid) {
                let ghost before = running@;
                let mut entry = RunningApp { bundle_id: running[i].bundle_id.clone(), pids: copy_pids(&running[i].pids) };
                entry.pids.push(pid);
                proof {
                    assert forall|a: int, b: int| 0 <= a < b < entry.pids@.len() implies entry.pids@[a]
                        != entry.pids@[b] by {
                        if b == entry.pids@.len() - 1 {
                            assert(entry.pids@[a] == before[i as int].pids@[a]);
                            assert(before[i as int].pids@.contains(entry.pids@[a]));
                        } else {
                            assert(entry.pids@[a] == before[i as int].pids@[a]);
                            assert(entry.pids@[b] == before[i as int].pids@[b]);
                        }
                    }
                }
                running.set(i, entry);
                proof {
                    let after = running@;
                    assert(after == before.update(i as int, entry));
                    assert forall|a: int, b: int| 0 <= a < b < after.len() implies (#[trigger] after[a]).bundle_id@
                        != (#[trigger] after[b]).bundle_id@ by {
                        assert(before[a].bundle_id@ != before[b].bundle_id@);
                    }
                    assert forall|a: int| 0 <= a < after.len() implies (#[trigger] after[a]).pids@.no_duplicates() by {
                        if a != i {
                            assert(after[a] == before[a]);
                        }
                    }
                    lemma_pids_for_index(after, bundle_id@, i as int);
                    assert forall|id: Seq<char>| id != bundle_id@ implies spec_pids_for(after, id) == spec_pids_for(
                        before,
                        id,
                    ) by {
                        lemma_pids_for_other(before, i as int, entry, id);
                    }
                }
            }
            return;
        }
        i = i + 1;
    }
    proof {
        lemma_pids_for_absent(running@, bundle_id@);
    }
    let ghost before = running@;
    let mut pids: Vec<i32> = Vec::new();
    pids.push(pid);
    let entry = RunningApp { bundle_id: string_of(bundle_id), pids };
    running.push(entry);
    proof {
        let after = running@;
        assert(after == before.push(entry));
        assert forall|a: int, b: int| 0 <= a < b < after.len() implies (#[trigger] after[a]).bundle_id@ != (
        #[trigger] after[b]).bundle_id@ by {
            if b == before.len() {
                assert(after[a] == before[a]);
            } else {
                assert(after[a] == before[a] && after[b] == before[b]);
            }
        }
        assert forall|a: int| 0 <= a < after.len() implies (#[trigger] after[a]).pids@.no_duplicates() by {
            if a < before.len() {
                assert(after[a] == before[a]);
            }
        }
        lemma_pids_for_index(after, bundle_id@, before.len() as int);
        assert(entry.pids@ =~= seq![pid]);
        assert(Seq::<i32>::empty().push(pid) =~= seq![pid]);
        assert forall|id: Seq<char>| id != bundle_id@ implies spec_pids_for(after, id) == spec_pids_for(before, id) by {
            lemma_pids_for_push(before, entry, id);
        }
    }
}

/// What the system reports about a running application.
#[derive(Debug, Clone, PartialEq, Eq)]
pub struct RunningAppInfo {
    pub bundle_id: Option<String>,
    pub localized_name: Option<String>,
    pub process_name: Option<String>,
}

/// A window as the accessibility interface reports it.
#[derive(Debug, Clone, PartialEq, Eq)]
pub struct AxWindowState {
    pub title: Option<String>,
    pub minimized: bool,
}

/// One running process of a supported application and the windows the
/// accessibility interface reports for it (none when it could not be read).
#[derive(Debug, Clone, PartialEq, Eq)]
pub struct ProcessWindows {
    pub pid: i32,
    pub windows: Vec<AxWindowState>,
}

/// The running processes of one supported application.
#[derive(Debug, Clone, PartialEq, Eq)]
pub struct AppProcesses {
    pub bundle_id: String,
    pub name: String,
    pub processes: Vec<ProcessWindows>,
}

/// Process registrations, in the order they are made.
pub open spec fn registrations(captured: Seq<LiveWindow>, apps: Seq<AppProcesses>) -> Seq<(Seq<char>, i32)> {
    captured_registrations(captured) + app_registrations(apps)
}

/// A captured window with a bundle identifier registers its process.
pub open spec fn captured_registrations(captured: Seq<LiveWindow>) -> Seq<(Seq<char>, i32)>
    decreases captured.len(),
{
    if captured.len() == 0 {
        seq![]
    } else {
        let prev = captured_registrations(captured.drop_last());
        match captured.last().bundle_id {
            Some(b) => prev.push((b@, captured.last().pid)),
            None => prev,
        }
    }
}

/// Every process of a supported application is registered.
pub open spec fn app_registrations(apps: Seq<AppProcesses>) -> Seq<(Seq<char>, i32)>
    decreases apps.len(),
{
    if apps.len() == 0 {
        seq![]
    } else {
        app_registrations(apps.drop_last()) + apps.last().processes@.map_values(
            |p: ProcessWindows| (apps.last().bundle_id@, p.pid),
        )
    }
}

/// The processes registered for `id`, each once, in first-registration
/// order.
pub open spec fn registered_pids(events: Seq<(Seq<char>, i32)>, id: Seq<char>) -> Seq<i32>
    decreases events.len(),
{
    if events.len() == 0 {
        seq![]
    } else {
        let prev = registered_pids(events.drop_last(), id);
        let (b, pid) = events.last();
        if b == id && !prev.contains(pid) {
            prev.push(pid)
        } else {
            prev
        }
    }
}

/// The minimized windows the accessibility interface reports for a list of
/// supported applications, as live windows without their identifiers:
/// (bundle identifier, application name, process, title).
pub open spec fn minimized_windows(apps: Seq<AppProcesses>) -> Seq<(Seq<char>, Seq<char>, i32, Option<Seq<char>>)>
    decreases apps.len(),
{
    if apps.len() == 0 {
        seq![]
    } else {
        minimized_windows(apps.drop_last()) + minimized_of_app(apps.last(), apps.last().processes@.len() as int)
    }
}

/// The minimized windows of the first `n` processes of one application.
pub open spec fn minimized_of_app(app: AppProcesses, n: int) -> Seq<(Seq<char>, Seq<char>, i32, Option<Seq<char>>)>
    decreases n,
{
    if n <= 0 {
        seq![]
    } else {
        let p = app.processes@[n - 1];
        minimized_of_app(app, n - 1) + minimized_of_process(app, p, p.windows@.len() as int)
    }
}

/// The minimized windows among the first `n` windows of one process.
pub open spec fn minimized_of_process(app: AppProcesses, p: ProcessWindows, n: int) -> Seq<
    (Seq<char>, Seq<char>, i32, Option<Seq<char>>),
>
    decreases n,
{
    if n <= 0 {
        seq![]
    } else {
        let prev = minimized_of_process(app, p, n - 1);
        let w = p.windows@[n - 1];
        if w.minimized {
            prev.push((app.bundle_id@, app.name@, p.pid, crate::text::opt_view(w.title)))
        } else {
            prev
        }
    }
}

/// The live window of a reported minimized window with identifier `id`.
pub open spec fn minimized_live(m: (Seq<char>, Seq<char>, i32, Option<Seq<char>>), id: u32, w: LiveWindow) -> bool {
    &&& crate::text::opt_view(w.bundle_id) == Some(m.0)
    &&& w.app_name@ == m.1
    &&& w.pid == m.2
    &&& crate::text::opt_view(w.title) == m.3
    &&& w.window_id == id
    &&& w.minimized
}
fn copy_live(w: &LiveWindow) -> (r: LiveWindow)
    ensures
        r == *w,
{
    LiveWindow {
        bundle_id: crate::text::clone_opt(&w.bundle_id),
        app_name: w.app_name.clone(),
        pid: w.pid,
        window_id: w.window_id,
        title: crate::text::clone_opt(&w.title),
        minimized: w.minimized,
    }
}

/// The registration of the processes of the first `n` processes of `app`.
pub open spec fn process_registrations(app: AppProcesses, n: int) -> Seq<(Seq<char>, i32)> {
    app.processes@.subrange(0, n).map_values(|p: ProcessWindows| (app.bundle_id@, p.pid))
}

proof fn lemma_registered_step(ev: Seq<(Seq<char>, i32)>, e: (Seq<char>, i32), id: Seq<char>)
    ensures
        registered_pids(ev.push(e), id) == (if e.0 == id && !registered_pids(ev, id).contains(e.1) {
            registered_pids(ev, id).push(e.1)
        } else {
            registered_pids(ev, id)
        }),
{
    assert(ev.push(e).drop_last() =~= ev);
}

proof fn lemma_registered_no_dups(ev: Seq<(Seq<char>, i32)>, id: Seq<char>)
    ensures
        registered_pids(ev, id).no_duplicates(),
    decreases ev.len(),
{
    if ev.len() > 0 {
        lemma_registered_no_dups(ev.drop_last(), id);
        let prev = registered_pids(ev.drop_last(), id);
        let cur = registered_pids(ev, id);
        let (b, pid) = ev.last();
        if b == id && !prev.contains(pid) {
            assert forall|x: int, y: int| 0 <= x < y < cur.len() implies cur[x] != cur[y] by {
                if y == cur.len() - 1 {
                    assert(prev.contains(prev[x]));
                }
            }
        }
    }
}

proof fn lemma_registered_contains(ev: Seq<(Seq<char>, i32)>, id: Seq<char>, pid: i32)
    requires
        ev.contains((id, pid)),
    ensures
        registered_pids(ev, id).contains(pid),
    decreases ev.len(),
{
    let prev = registered_pids(ev.drop_last(), id);
    if ev.last() == (id, pid) {
        if !prev.contains(pid) {
            assert(registered_pids(ev, id) == prev.push(pid));
            assert(registered_pids(ev, id)[prev.len() as int] == pid);
        }
    } else {
        let i = choose|i: int| 0 <= i < ev.len() && ev[i] == (id, pid);
        assert(ev.drop_last()[i] == (id, pid));
        lemma_registered_contains(ev.drop_last(), id, pid);
        let q = choose|q: int| 0 <= q < prev.len() && prev[q] == pid;
        let (b, p) = ev.last();
        if b == id && !prev.contains(p) {
            assert(registered_pids(ev, id)[q] == pid);
        }
    }
}

proof fn lemma_captured_registered(captured: Seq<LiveWindow>, k: int)
    requires
        0 <= k < captured.len(),
        captured[k].bundle_id is Some,
    ensures
        captured_registrations(captured).contains((captured[k].bundle_id->0@, captured[k].pid)),
    decreases captured.len(),
{
    let prev = captured_registrations(captured.drop_last());
    if k == captured.len() - 1 {
        assert(captured_registrations(captured) == prev.push((captured[k].bundle_id->0@, captured[k].pid)));
        assert(captured_registrations(captured)[prev.len() as int] == (captured[k].bundle_id->0@, captured[k].pid));
    } else {
        assert(captured.drop_last()[k] == captured[k]);
        lemma_captured_registered(captured.drop_last(), k);
        let i = choose|i: int| 0 <= i < prev.len() && prev[i] == (captured[k].bundle_id->0@, captured[k].pid);
        assert(captured_registrations(captured)[i] == prev[i]);
    }
}

proof fn lemma_minimized_of_process(app: AppProcesses, p: ProcessWindows, n: int)
    ensures
        forall|e: int| 0 <= e < minimized_of_process(app, p, n).len() ==> (#[trigger] minimized_of_process(app, p, n)[e]).0
            == app.bundle_id@ && minimized_of_process(app, p, n)[e].2 == p.pid,
    decreases n,
{
    if n > 0 {
        lemma_minimized_of_process(app, p, n - 1);
        let prev = minimized_of_process(app, p, n - 1);
        let cur = minimized_of_process(app, p, n);
        assert forall|e: int| 0 <= e < cur.len() implies (#[trigger] cur[e]).0 == app.bundle_id@ && cur[e].2 == p.pid by {
            if e < prev.len() {
                assert(cur[e] == prev[e]);
            }
        }
    }
}

proof fn lemma_minimized_of_app(app: AppProcesses, n: int)
    requires
        0 <= n <= app.processes@.len(),
    ensures
        forall|e: int| 0 <= e < minimized_of_app(app, n).len() ==> (#[trigger] minimized_of_app(app, n)[e]).0
            == app.bundle_id@ && exists|q: int| 0 <= q < n && minimized_of_app(app, n)[e].2 == (
            #[trigger] app.processes@[q]).pid,
    decreases n,
{
    if n > 0 {
        lemma_minimized_of_app(app, n - 1);
        let p = app.processes@[n - 1];
        lemma_minimized_of_process(app, p, p.windows@.len() as int);
        let prev = minimized_of_app(app, n - 1);
        let mine = minimized_of_process(app, p, p.windows@.len() as int);
        let cur = minimized_of_app(app, n);
        assert(cur == prev + mine);
        assert forall|e: int| 0 <= e < cur.len() implies (#[trigger] cur[e]).0 == app.bundle_id@ && exists|q: int|
            0 <= q < n && cur[e].2 == (#[trigger] app.processes@[q]).pid by {
            if e < prev.len() {
                assert(cur[e] == prev[e]);
            } else {
                assert(cur[e] == mine[e - prev.len()]);
                assert(cur[e].2 == app.processes@[n - 1].pid);
            }
        }
    }
}

proof fn lemma_minimized_registered(apps: Seq<AppProcesses>, j: int)
    requires
        0 <= j < minimized_windows(apps).len(),
    ensures
        app_registrations(apps).contains((minimized_windows(apps)[j].0, minimized_windows(apps)[j].2)),
    decreases apps.len(),
{
    let rest = apps.drop_last();
    let last = apps.last();
    let prev = minimized_windows(rest);
    let mine = minimized_of_app(last, last.processes@.len() as int);
    let regs_prev = app_registrations(rest);
    let mapped = last.processes@.map_values(|p: ProcessWindows| (last.bundle_id@, p.pid));
    assert(minimized_windows(apps) == prev + mine);
    assert(app_registrations(apps) == regs_prev + mapped);
    let m = minimized_windows(apps)[j];
    if j < prev.len() {
        assert(m == prev[j]);
        lemma_minimized_registered(rest, j);
        let i = choose|i: int| 0 <= i < regs_prev.len() && regs_prev[i] == (m.0, m.2);
        assert(app_registrations(apps)[i] == regs_prev[i]);
    } else {
        assert(m == mine[j - prev.len()]);
        lemma_minimized_of_app(last, last.processes@.len() as int);
        let q = choose|q: int| 0 <= q < last.processes@.len() && m.2 == (#[trigger] last.processes@[q]).pid;
        assert(mapped[q] == (last.bundle_id@, last.processes@[q].pid));
        assert(app_registrations(apps)[regs_prev.len() + q] == mapped[q]);
    }
}

proof fn lemma_concat_contains<T>(a: Seq<T>, b: Seq<T>, x: T)
    ensures
        a.contains(x) ==> (a + b).contains(x),
        b.contains(x) ==> (a + b).contains(x),
{
    if a.contains(x) {
        let i = choose|i: int| 0 <= i < a.len() && a[i] == x;
        assert((a + b)[i] == x);
    }
    if b.contains(x) {
        let i = choose|i: int| 0 <= i < b.len() && b[i] == x;
        assert((a + b)[a.len() + i] == x);
    }
}

/// Every window of the observed world finds its process registered under its
/// bundle identifier, and no bundle registers a process twice: a captured
/// window with a bundle identifier, and each minimized window the
/// accessibility interface reports, registers its process, and the
/// registrations keep each process once per bundle (`build_world` lists
/// exactly these under each bundle).
pub proof fn law_observed_processes_registered_once(captured: Seq<LiveWindow>, apps: Seq<AppProcesses>)
    ensures
        forall|id: Seq<char>| (#[trigger] registered_pids(registrations(captured, apps), id)).no_duplicates(),
        forall|k: int| 0 <= k < captured.len() && (#[trigger] captured[k]).bundle_id is Some ==> registered_pids(
            registrations(captured, apps),
            captured[k].bundle_id->0@,
        ).contains(captured[k].pid),
        forall|j: int| 0 <= j < minimized_windows(apps).len() ==> registered_pids(
            registrations(captured, apps),
            (#[trigger] minimized_windows(apps)[j]).0,
        ).contains(minimized_windows(apps)[j].2),
{
    let regs = registrations(captured, apps);
    assert forall|id: Seq<char>| (#[trigger] registered_pids(regs, id)).no_duplicates() by {
        lemma_registered_no_dups(regs, id);
    }
    assert forall|k: int| 0 <= k < captured.len() && (#[trigger] captured[k]).bundle_id is Some implies registered_pids(
        regs,
        captured[k].bundle_id->0@,
    ).contains(captured[k].pid) by {
        let e = (captured[k].bundle_id->0@, captured[k].pid);
        lemma_captured_registered(captured, k);
        lemma_concat_contains(captured_registrations(captured), app_registrations(apps), e);
        lemma_registered_contains(regs, e.0, e.1);
    }
    assert forall|j: int| 0 <= j < minimized_windows(apps).len() implies registered_pids(
        regs,
        (#[trigger] minimized_windows(apps)[j]).0,
    ).contains(minimized_windows(apps)[j].2) by {
        let m = minimized_windows(apps)[j];
        lemma_minimized_registered(apps, j);
        lemma_concat_contains(captured_registrations(captured), app_registrations(apps), (m.0, m.2));
        lemma_registered_contains(regs, m.0, m.2);
    }
}

/// The world as observed: the captured windows, then the minimized windows
/// of the supported applications with identifiers counting down from
/// `u32::MAX` (the window list does not report minimized windows), and
/// every process registered once per bundle identifier: each window with a
/// bundle identifier finds its process listed under it, and no bundle lists
/// a process twice.
pub fn build_world(captured: &Vec<LiveWindow>, apps: &Vec<AppProcesses>) -> (r: WorldState)
    requires
        minimized_windows(apps@).len() <= u32::MAX,
    ensures
        r.windows.len() == captured.len() + minimized_windows(apps@).len(),
        forall|k: int| 0 <= k < captured.len() ==> #[trigger] r.windows@[k] == captured@[k],
        forall|j: int| 0 <= j < minimized_windows(apps@).len() ==> minimized_live(
            #[trigger] minimized_windows(apps@)[j],
            (u32::MAX - j) as u32,
            r.windows@[captured.len() + j],
        ),
        running_wf(r.running_pids@),
        forall|id: Seq<char>| #[trigger] spec_pids_for(r.running_pids@, id) == registered_pids(
            registrations(captured@, apps@),
            id,
        ),
        forall|k: int| 0 <= k < r.windows.len() && (#[trigger] r.windows@[k]).bundle_id is Some ==> spec_pids_for(
            r.running_pids@,
            r.windows@[k].bundle_id->0@,
        ).contains(r.windows@[k].pid),
        forall|id: Seq<char>| (#[trigger] spec_pids_for(r.running_pids@, id)).no_duplicates(),
{
    let mut running: Vec<RunningApp> = Vec::new();
    let mut windows: Vec<LiveWindow> = Vec::new();
    let ghost mut ev: Seq<(Seq<char>, i32)> = seq![];
    let mut k: usize = 0;
    while k < captured.len()
        invariant
            k <= captured.len(),
            windows.len() == k,
            forall|q: int| 0 <= q < k ==> #[trigger] windows@[q] == captured@[q],
            running_wf(running@),
            ev == captured_registrations(captured@.subrange(0, k as int)),
            forall|id: Seq<char>| #[trigger] spec_pids_for(running@, id) == registered_pids(ev, id),
        decreases captured.len() - k,
    {
        let w = &captured[k];
        assert(captured@.subrange(0, k + 1).drop_last() =~= captured@.subrange(0, k as int));
        match &w.bundle_id {
            Some(b) => {
                let ghost old_running = running@;
                register_pid(&mut running, b.as_str(), w.pid);
                proof {
                    let e = (b@, w.pid);
                    assert forall|id: Seq<char>| #[trigger] spec_pids_for(running@, id) == registered_pids(ev.push(e), id) by {
                        lemma_registered_step(ev, e, id);
                    }
                    ev = ev.push(e);
                }
            },
            None => {},
        }
        windows.push(copy_live(w));
        k = k + 1;
    }
    assert(captured@.subrange(0, captured.len() as int) =~= captured@);
    let ghost cap_ev = ev;
    let ghost mut mw: Seq<(Seq<char>, Seq<char>, i32, Option<Seq<char>>)> = seq![];
    let mut next_id: u32 = u32::MAX;
    let mut a: usize = 0;
    while a < apps.len()
        invariant
            a <= apps.len(),
            minimized_windows(apps@).len() <= u32::MAX,
            windows.len() == captured.len() + mw.len(),
            forall|q: int| 0 <= q < captured.len() ==> #[trigger] windows@[q] == captured@[q],
            mw == minimized_windows(apps@.subrange(0, a as int)),
            next_id == u32::MAX - mw.len(),
            forall|j: int| 0 <= j < mw.len() ==> minimized_live(
                #[trigger] mw[j],
                (u32::MAX - j) as u32,
                windows@[captured.len() + j],
            ),
            running_wf(running@),
            cap_ev == captured_registrations(captured@),
            ev == cap_ev + app_registrations(apps@.subrange(0, a as int)),
            forall|id: Seq<char>| #[trigger] spec_pids_for(running@, id) == registered_pids(ev, id),
        decreases apps.len() - a,
    {
        proof {
            assert(apps@.subrange(0, a + 1).drop_last() =~= apps@.subrange(0, a as int));
            assert(apps@.subrange(0, a + 1).last() == apps@[a as int]);
        }
        let app = &apps[a];
        let ghost ev_a = ev;
        let ghost mw_a = mw;
        let mut pi: usize = 0;
        while pi < app.processes.len()
            invariant
                a < apps.len(),
                *app == apps@[a as int],
                pi <= app.processes.len(),
                minimized_windows(apps@).len() <= u32::MAX,
                windows.len() == captured.len() + mw.len(),
                forall|q: int| 0 <= q < captured.len() ==> #[trigger] windows@[q] == captured@[q],
                mw == mw_a + minimized_of_app(*app, pi as int),
                mw_a == minimized_windows(apps@.subrange(0, a as int)),
                next_id == u32::MAX - mw.len(),
                forall|j: int| 0 <= j < mw.len() ==> minimized_live(
                    #[trigger] mw[j],
                    (u32::MAX - j) as u32,
                    windows@[captured.len() + j],
                ),
                running_wf(running@),
                ev == ev_a + process_registrations(*app, pi as int),
                forall|id: Seq<char>| #[trigger] spec_pids_for(running@, id) == registered_pids(ev, id),
            decreases app.processes.len() - pi,
        {
            let p = &app.processes[pi];
            register_pid(&mut running, app.bundle_id.as_str(), p.pid);
            proof {
                let e = (app.bundle_id@, p.pid);
                assert forall|id: Seq<char>| #[trigger] spec_pids_for(running@, id) == registered_pids(ev.push(e), id) by {
                    lemma_registered_step(ev, e, id);
                }
                assert(process_registrations(*app, pi + 1) =~= process_registrations(*app, pi as int).push(e));
                assert(ev_a + process_registrations(*app, pi + 1) =~= (ev_a + process_registrations(*app, pi as int)).push(e));
                ev = ev.push(e);
            }
            let ghost mw_p = mw;
            let mut wi: usize = 0;
            while wi < p.windows.len()
                invariant
                    a < apps.len(),
                    *app == apps@[a as int],
                    pi < app.processes.len(),
                    *p == app.processes@[pi as int],
                    wi <= p.windows.len(),
                    minimized_windows(apps@).len() <= u32::MAX,
                    windows.len() == captured.len() + mw.len(),
                    forall|q: int| 0 <= q < captured.len() ==> #[trigger] windows@[q] == captured@[q],
                    mw == mw_p + minimized_of_process(*app, *p, wi as int),
                    mw_p == mw_a + minimized_of_app(*app, pi as int),
                    mw_a == minimized_windows(apps@.subrange(0, a as int)),
                    next_id == u32::MAX - mw.len(),
                    forall|j: int| 0 <= j < mw.len() ==> minimized_live(
                        #[trigger] mw[j],
                        (u32::MAX - j) as u32,
                        windows@[captured.len() + j],
                    ),
                decreases p.windows.len() - wi,
            {
                let st = &p.windows[wi];
                if st.minimized {
                    proof {
                        lemma_minimized_prefix_bound(apps@, a as int, pi as int, wi as int);
                    }
                    let live = LiveWindow {
                        bundle_id: Some(app.bundle_id.clone()),
                        app_name: app.name.clone(),
                        pid: p.pid,
                        window_id: next_id,
                        title: crate::text::clone_opt(&st.title),
                        minimized: true,
                    };
                    let ghost m = (app.bundle_id@, app.name@, p.pid, crate::text::opt_view(st.title));
                    let ghost old_windows = windows@;
                    windows.push(live);
                    proof {
                        assert(minimized_of_process(*app, *p, wi + 1) =~= minimized_of_process(*app, *p, wi as int).push(m));
                        assert forall|j: int| 0 <= j < mw.push(m).len() implies minimized_live(
                            #[trigger] mw.push(m)[j],
                            (u32::MAX - j) as u32,
                            windows@[captured.len() + j],
                        ) by {
                            if j < mw.len() {
                                assert(mw.push(m)[j] == mw[j]);
                                assert(windows@[captured.len() + j] == old_windows[captured.len() + j]);
                            }
                        }
                        assert(forall|q: int| 0 <= q < captured.len() ==> windows@[q] == old_windows[q]);
                        mw = mw.push(m);
                    }
                    next_id = next_id - 1;
                } else {
                    proof {
                        assert(minimized_of_process(*app, *p, wi + 1) =~= minimized_of_process(*app, *p, wi as int));
                    }
                }
                wi = wi + 1;
            }
            proof {
                assert(minimized_of_app(*app, pi + 1) =~= minimized_of_app(*app, pi as int) + minimized_of_process(
                    *app,
                    *p,
                    p.windows@.len() as int,
                ));
                assert(mw =~= mw_a + minimized_of_app(*app, pi + 1));
            }
            pi = pi + 1;
        }
        proof {
            assert(app.processes@.subrange(0, app.processes@.len() as int) =~= app.processes@);
            assert(app_registrations(apps@.subrange(0, a + 1)) =~= app_registrations(apps@.subrange(0, a as int))
                + process_registrations(*app, app.processes@.len() as int));
            assert(ev =~= cap_ev + app_registrations(apps@.subrange(0, a + 1)));
            assert(mw =~= minimized_windows(apps@.subrange(0, a + 1)));
        }
        a = a + 1;
    }
    proof {
        assert(apps@.subrange(0, apps.len() as int) =~= apps@);
        let regs = registrations(captured@, apps@);
        assert forall|k: int| 0 <= k < windows.len() && (#[trigger] windows@[k]).bundle_id is Some implies spec_pids_for(
            running@,
            windows@[k].bundle_id->0@,
        ).contains(windows@[k].pid) by {
            let b = windows@[k].bundle_id->0@;
            let pid = windows@[k].pid;
            if k < captured.len() {
                assert(windows@[k] == captured@[k]);
                lemma_captured_registered(captured@, k);
                lemma_concat_contains(captured_registrations(captured@), app_registrations(apps@), (b, pid));
            } else {
                let j = k - captured.len();
                let m = minimized_windows(apps@)[j];
                assert(minimized_live(m, (u32::MAX - j) as u32, windows@[k]));
                lemma_minimized_registered(apps@, j);
                lemma_concat_contains(captured_registrations(captured@), app_registrations(apps@), (b, pid));
            }
            lemma_registered_contains(regs, b, pid);
        }
        assert forall|id: Seq<char>| (#[trigger] spec_pids_for(running@, id)).no_duplicates() by {
            lemma_registered_no_dups(regs, id);
        }
    }
    WorldState { windows, running_pids: running }
}

/// A window as the window list reports it: its owner, the application that
/// owns it as far as it is known, and the checks on its geometry already
/// made (on screen, layer, visible, of a reasonable size).
#[derive(Debug, Clone, PartialEq, Eq)]
pub struct ListedWindow {
    pub window_id: u32,
    pub pid: i32,
    pub owner_name: String,
    pub title: Option<String>,
    pub bundle_id: Option<String>,
    pub localized_name: Option<String>,
    pub is_onscreen: bool,
    pub layer: i32,
    pub visible: bool,
    pub reasonable_size: bool,
}

/// A listed window is captured: on screen, in the normal layer, visible, of
/// a reasonable size, and not a system surface.
pub open spec fn listed_kept(w: ListedWindow) -> bool {
    w.is_onscreen && w.layer == 0 && w.visible && w.reasonable_size && !spec_is_skipped_owner(w.owner_name@)
}

/// Positions of the captured windows among the first `n` listed ones, in
/// order.
pub open spec fn kept_positions(ws: Seq<ListedWindow>, n: int) -> Seq<int>
    decreases n,
{
    if n <= 0 {
        seq![]
    } else if listed_kept(ws[n - 1]) {
        kept_positions(ws, n - 1).push(n - 1)
    } else {
        kept_positions(ws, n - 1)
    }
}

/// `l` is the live window of listed window `w`: its application's name, or
/// the owner's when the application has none, and not minimized.
pub open spec fn listed_live(w: ListedWindow, l: LiveWindow) -> bool {
    &&& l.bundle_id == w.bundle_id
    &&& l.app_name@ == (match w.localized_name {
        Some(n) => n@,
        None => w.owner_name@,
    })
    &&& l.pid == w.pid
    &&& l.window_id == w.window_id
    &&& l.title == w.title
    &&& !l.minimized
}

/// The world observed from the window list and the processes of the
/// supported applications: the captured listed windows in order, none of
/// them minimized, then the minimized windows with identifiers counting
/// down from `u32::MAX`; every process registered once per bundle
/// identifier. Also returns the position in `listed` of each captured
/// window.
pub fn world_from_observation(listed: &Vec<ListedWindow>, apps: &Vec<AppProcesses>) -> (r: (WorldState, Vec<usize>))
    requires
        minimized_windows(apps@).len() <= u32::MAX,
    ensures
        r.1@.map_values(|x: usize| x as int) == kept_positions(listed@, listed.len() as int),
        r.0.windows.len() == r.1.len() + minimized_windows(apps@).len(),
        forall|j: int| 0 <= j < r.1.len() ==> listed_live(listed@[r.1@[j] as int], #[trigger] r.0.windows@[j]),
        forall|j: int| 0 <= j < minimized_windows(apps@).len() ==> minimized_live(
            #[trigger] minimized_windows(apps@)[j],
            (u32::MAX - j) as u32,
            r.0.windows@[r.1.len() + j],
        ),
        running_wf(r.0.running_pids@),
        forall|k: int| 0 <= k < r.0.windows.len() && (#[trigger] r.0.windows@[k]).bundle_id is Some ==> spec_pids_for(
            r.0.running_pids@,
            r.0.windows@[k].bundle_id->0@,
        ).contains(r.0.windows@[k].pid),
        forall|id: Seq<char>| (#[trigger] spec_pids_for(r.0.running_pids@, id)).no_duplicates(),
{
    let mut captured: Vec<LiveWindow> = Vec::new();
    let mut kept: Vec<usize> = Vec::new();
    let mut i: usize = 0;
    while i < listed.len()
        invariant
            i <= listed.len(),
            captured.len() == kept.len(),
            kept@.map_values(|x: usize| x as int) == kept_positions(listed@, i as int),
            forall|q: int| 0 <= q < kept.len() ==> 0 <= #[trigger] kept@[q] < i,
            forall|q: int| 0 <= q < kept.len() ==> listed_live(listed@[kept@[q] as int], #[trigger] captured@[q]),
        decreases listed.len() - i,
    {
        let w = &listed[i];
        let ghost before = kept@;
        if should_capture(w.is_onscreen, w.layer, w.visible, w.reasonable_size, w.owner_name.as_str()) {
            let app_name = match &w.localized_name {
                Some(n) => n.clone(),
                None => w.owner_name.clone(),
            };
            captured.push(LiveWindow {
                bundle_id: clone_opt(&w.bundle_id),
                app_name,
                pid: w.pid,
                window_id: w.window_id,
                title: clone_opt(&w.title),
                minimized: false,
            });
            kept.push(i);
            assert(kept@.map_values(|x: usize| x as int) =~= before.map_values(|x: usize| x as int).push(i as int));
        }
        i = i + 1;
    }
    assert forall|j: int| 0 <= j < kept.len() implies #[trigger] kept@[j] as int == kept@.map_values(
        |x: usize| x as int,
    )[j] by {}
    let world = build_world(&captured, apps);
    (world, kept)
}


// ---------------------------------------------------------------------------
// Z-order replay
// ---------------------------------------------------------------------------

/// The saved windows restore touches, in order.
pub open spec fn restorable_indices(ws: Seq<WindowSnapshot>, n: int) -> Seq<usize>
    decreases n,
{
    if n <= 0 {
        seq![]
    } else if spec_skip_reason(ws[n - 1]) is None {
        restorable_indices(ws, n - 1).push((n - 1) as usize)
    } else {
        restorable_indices(ws, n - 1)
    }
}

/// The replay key of a saved window: larger z-orders (further back) first,
/// windows without a z-order first of all.
pub open spec fn replay_key(w: WindowSnapshot) -> u32 {
    (u32::MAX - z_key(w)) as u32
}

/// The order in which saved windows are raised to replay their stacking:
/// the restorable windows back to front, so the frontmost saved window ends
/// up frontmost; windows of equal z-order keep their saved order.
pub fn z_order_replay_order(snapshot: &WorkspaceSnapshot) -> (r: Vec<usize>)
    ensures
        ({
            let f = restorable_indices(snapshot.windows@, snapshot.windows.len() as int);
            exists|p: Seq<usize>| #![trigger is_permutation(p, f.len())]
                is_permutation(p, f.len()) && stably_sorted(
                    f.map_values(|i: usize| replay_key(snapshot.windows@[i as int])),
                    p,
                ) && r@.len() == p.len() && forall|k: int| 0 <= k < r@.len() ==> #[trigger] r@[k] == f[p[k] as int]
        }),
{
    let ghost ws = snapshot.windows@;
    let mut idx: Vec<usize> = Vec::new();
    let mut i: usize = 0;
    while i < snapshot.windows.len()
        invariant
            i <= snapshot.windows.len(),
            ws == snapshot.windows@,
            idx@ == restorable_indices(ws, i as int),
        decreases snapshot.windows.len() - i,
    {
        if restore_skip_reason(&snapshot.windows[i]).is_none() {
            idx.push(i);
        }
        i = i + 1;
    }
    proof {
        lemma_restorable_bounds(ws, ws.len() as int);
    }
    let ghost f = idx@;
    let ghost fk = f.map_values(|i: usize| replay_key(ws[i as int]));
    let mut keys: Vec<u32> = Vec::new();
    let mut k: usize = 0;
    while k < idx.len()
        invariant
            k <= idx.len(),
            f == idx@,
            ws == snapshot.windows@,
            forall|q: int| 0 <= q < f.len() ==> (#[trigger] f[q]) < ws.len(),
            fk == f.map_values(|i: usize| replay_key(ws[i as int])),
            keys@ == fk.subrange(0, k as int),
        decreases idx.len() - k,
    {
        let w = &snapshot.windows[idx[k]];
        let z = match w.z_order {
            Some(z) => z,
            None => u32::MAX,
        };
        keys.push(u32::MAX - z);
        assert(keys@ =~= fk.subrange(0, k + 1));
        k = k + 1;
    }
    assert(keys@ =~= fk);
    let order = stable_order_by_key(&keys);
    let mut out: Vec<usize> = Vec::new();
    let mut q: usize = 0;
    while q < order.len()
        invariant
            q <= order.len(),
            f == idx@,
            is_permutation(order@, f.len()),
            out.len() == q,
            forall|t: int| 0 <= t < q ==> #[trigger] out@[t] == f[order@[t] as int],
        decreases order.len() - q,
    {
        out.push(idx[order[q]]);
        q = q + 1;
    }
    proof {
        assert(is_permutation(order@, f.len()));
    }
    out
}

proof fn lemma_restorable_bounds(ws: Seq<WindowSnapshot>, n: int)
    requires
        0 <= n <= ws.len(),
    ensures
        forall|q: int| 0 <= q < restorable_indices(ws, n).len() ==> (#[trigger] restorable_indices(ws, n)[q]) < n,
    decreases n,
{
    if n > 0 {
        lemma_restorable_bounds(ws, n - 1);
        let prev = restorable_indices(ws, n - 1);
        let cur = restorable_indices(ws, n);
        assert forall|q: int| 0 <= q < cur.len() implies (#[trigger] cur[q]) < n by {
            if q < prev.len() {
                assert(cur[q] == prev[q]);
            }
        }
    }
}

// ---------------------------------------------------------------------------
// Diagnostics
// ---------------------------------------------------------------------------

/// Environment health.
#[derive(Debug, Clone, PartialEq, Eq)]
pub struct DoctorReport {
    pub data_dir: String,
    pub data_dir_writable: bool,
    pub accessibility_trusted: bool,
    pub display_count: usize,
    pub supported_bundles: Vec<String>,
    pub warnings: Vec<String>,
}

/// What the environment checks found.
#[derive(Debug, Clone, PartialEq, Eq)]
pub struct EnvironmentFacts {
    pub data_dir: String,
    pub data_dir_writable: bool,
    pub accessibility_trusted: bool,
    pub display_count: usize,
    /// Windows the capture filter keeps.
    pub visible_windows: usize,
    /// Those of them that have a title.
    pub titled_windows: usize,
}

/// The warnings for a set of findings, in order.
pub open spec fn spec_doctor_warnings(f: EnvironmentFacts) -> Seq<Seq<char>> {
    let w1: Seq<Seq<char>> = if !f.data_dir_writable {
        seq!["data dir "@ + f.data_dir@ + " is not writable"@]
    } else {
        seq![]
    };
    let w2: Seq<Seq<char>> = if !f.accessibility_trusted {
        seq!["Accessibility permission is not granted; restore will not be able to move windows."@]
    } else {
        seq![]
    };
    let w3: Seq<Seq<char>> = if f.display_count == 0 {
        seq!["no displays detected"@]
    } else {
        seq![]
    };
    let w4: Seq<Seq<char>> = if f.visible_windows > 0 && f.titled_windows == 0 {
        seq![
            "no window titles are visible; grant Screen Recording permission (System Settings → Privacy & Security → Screen Recording) for reliable window matching"@,
        ]
    } else {
        seq![]
    };
    w1 + w2 + w3 + w4
}

/// The diagnostic report for a set of findings: the findings, every bundle
/// identifier on the allowlist, and a warning for each failed check.
pub fn doctor(facts: &EnvironmentFacts) -> (r: DoctorReport)
    ensures
        r.data_dir@ == facts.data_dir@,
        r.data_dir_writable == facts.data_dir_writable,
        r.accessibility_trusted == facts.accessibility_trusted,
        r.display_count == facts.display_count,
        r.supported_bundles@.map_values(|b: String| b@) == spec_known_apps().map_values(
            |a: crate::app_support::KnownAppView| a.bundle_id,
        ),
        r.warnings@.map_values(|w: String| w@) == spec_doctor_warnings(*facts),
{
    let mut warnings: Vec<String> = Vec::new();
    let ghost mut expect: Seq<Seq<char>> = seq![];
    if !facts.data_dir_writable {
        let m = concat_str("data dir ", facts.data_dir.as_str());
        warnings.push(concat_str(m.as_str(), " is not writable"));
    }
    if !facts.accessibility_trusted {
        warnings.push(string_of("Accessibility permission is not granted; restore will not be able to move windows."));
    }
    if facts.display_count == 0 {
        warnings.push(string_of("no displays detected"));
    }
    if facts.visible_windows > 0 && facts.titled_windows == 0 {
        warnings.push(string_of(
            "no window titles are visible; grant Screen Recording permission (System Settings → Privacy & Security → Screen Recording) for reliable window matching",
        ));
    }
    proof {
        assert(warnings@.map_values(|w: String| w@) =~= spec_doctor_warnings(*facts));
    }
    let apps = known_apps();
    let mut supported: Vec<String> = Vec::new();
    let mut i: usize = 0;
    while i < apps.len()
        invariant
            i <= apps.len(),
            apps@.map_values(|a: crate::app_support::KnownApp| a@) == spec_known_apps(),
            supported@.map_values(|b: String| b@) == spec_known_apps().map_values(
                |a: crate::app_support::KnownAppView| a.bundle_id,
            ).subrange(0, i as int),
        decreases apps.len() - i,
    {
        let ghost before = supported@;
        let ghost bids = spec_known_apps().map_values(|a: crate::app_support::KnownAppView| a.bundle_id);
        supported.push(string_of(apps[i].bundle_id));
        proof {
            assert(apps@.map_values(|a: crate::app_support::KnownApp| a@)[i as int] == apps@[i as int]@);
            assert(apps@.map_values(|a: crate::app_support::KnownApp| a@).len() == apps@.len());
            assert(bids[i as int] == spec_known_apps()[i as int].bundle_id);
            assert(supported@.last()@ == bids[i as int]);
            assert(supported@.map_values(|b: String| b@) =~= before.map_values(|b: String| b@).push(bids[i as int]));
            assert(bids.subrange(0, i + 1) =~= bids.subrange(0, i as int).push(bids[i as int]));
            assert(supported@.map_values(|b: String| b@) =~= spec_known_apps().map_values(
                |a: crate::app_support::KnownAppView| a.bundle_id,
            ).subrange(0, i + 1));
        }
        i = i + 1;
    }
    proof {
        assert(spec_known_apps().map_values(|a: crate::app_support::KnownAppView| a.bundle_id).subrange(
            0,
            apps.len() as int,
        ) =~= spec_known_apps().map_values(|a: crate::app_support::KnownAppView| a.bundle_id));
    }
    DoctorReport {
        data_dir: facts.data_dir.clone(),
        data_dir_writable: facts.data_dir_writable,
        accessibility_trusted: facts.accessibility_trusted,
        display_count: facts.display_count,
        supported_bundles: supported,
        warnings,
    }
}

proof fn lemma_minimized_monotone(apps: Seq<AppProcesses>, a: int)
    requires
        0 <= a <= apps.len(),
    ensures
        minimized_windows(apps.subrange(0, a)).len() <= minimized_windows(apps).len(),
    decreases apps.len() - a,
{
    if a < apps.len() {
        lemma_minimized_monotone(apps, a + 1);
        assert(apps.subrange(0, a + 1).drop_last() =~= apps.subrange(0, a));
    } else {
        assert(apps.subrange(0, a) =~= apps);
    }
}

proof fn lemma_app_monotone(app: AppProcesses, pi: int)
    requires
        0 <= pi <= app.processes@.len(),
    ensures
        minimized_of_app(app, pi).len() <= minimized_of_app(app, app.processes@.len() as int).len(),
    decreases app.processes@.len() - pi,
{
    if pi < app.processes@.len() {
        lemma_app_monotone(app, pi + 1);
    }
}

proof fn lemma_process_monotone(app: AppProcesses, p: ProcessWindows, wi: int)
    requires
        0 <= wi <= p.windows@.len(),
    ensures
        minimized_of_process(app, p, wi).len() <= minimized_of_process(app, p, p.windows@.len() as int).len(),
    decreases p.windows@.len() - wi,
{
    if wi < p.windows@.len() {
        lemma_process_monotone(app, p, wi + 1);
    }
}

/// The minimized windows found before window `wi` of process `pi` of
/// application `a`, plus the one at that window, are among all of them.
proof fn lemma_minimized_prefix_bound(apps: Seq<AppProcesses>, a: int, pi: int, wi: int)
    requires
        0 <= a < apps.len(),
        0 <= pi < apps[a].processes@.len(),
        0 <= wi < apps[a].processes@[pi].windows@.len(),
        apps[a].processes@[pi].windows@[wi].minimized,
    ensures
        minimized_windows(apps.subrange(0, a)).len() + minimized_of_app(apps[a], pi).len()
            + minimized_of_process(apps[a], apps[a].processes@[pi], wi).len() < minimized_windows(apps).len(),
{
    let app = apps[a];
    let p = app.processes@[pi];
    lemma_process_monotone(app, p, wi + 1);
    assert(minimized_of_process(app, p, wi + 1).len() == minimized_of_process(app, p, wi).len() + 1);
    lemma_app_monotone(app, pi + 1);
    assert(minimized_of_app(app, pi + 1).len() == minimized_of_app(app, pi).len() + minimized_of_process(
        app,
        p,
        p.windows@.len() as int,
    ).len());
    lemma_minimized_monotone(apps, a + 1);
    assert(apps.subrange(0, a + 1).drop_last() =~= apps.subrange(0, a));
    assert(apps.subrange(0, a + 1).last() == app);
}

} // verus!

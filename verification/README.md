# workspace

Saves the window layout of a macOS desktop and puts it back: which
applications, which windows, their titles, browser tabs and stacking order.

The decisions are made by a library verified with Verus (`src/`): the
planner that turns a saved snapshot and the observed desktop into restore
operations, the matcher behind it, verification of a restore, the execution
journal, browser-tab attribution at capture, title comparison, snapshot
names and schema checks, re-opening the tabs a browser window lost, the
interactive configuration and the reports.
Each public function states its result in its contract, and the properties
that span functions (safe mode never closes or minimizes anything, a
window is moved only on an acceptable match, each live window is claimed at
most once, launches happen at most once per application, a freshly launched
application's window is retried at most `WINDOW_READY_WAIT_ATTEMPTS` times,
and so on) are proved in `src/plan_laws.rs` and `src/laws.rs`.

Window geometry is floating point and stays with the command (`app/`),
together with the macOS system calls, file storage, JSON and the terminal
interface. The command measures the observed windows, scores each saved
window against each live window, and hands the library plain records and
the score table.

Layout:

```
src/        verified library
tests/      tests of the library
app/        the `workspace` command: CLI, macOS calls, storage, printing
```

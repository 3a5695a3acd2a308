//! Re-opening the saved tabs that a matched browser window lost.
//!
//! After a browser window was moved back into place, the saved tabs whose
//! address it no longer has open are opened in it again. Nothing the user
//! has open is closed, and nothing is added unless exactly one window of
//! the browser stands where the window was put, so tabs are never grafted
//! onto some other window.

use vstd::prelude::*;

use crate::execute::{outcome_is, JournalStatus, OpOutcome};
use crate::model::BrowserTab;
use crate::text::{concat_str, decimal, str_eq, string_of, usize_decimal};

verus! {

/// The position of the one candidate that qualifies, when exactly one does.
pub open spec fn spec_sole_candidate(qualifies: Seq<bool>) -> Option<int> {
    if exists|i: int|
        0 <= i < qualifies.len() && qualifies[i] && forall|j: int|
            0 <= j < qualifies.len() && j != i ==> !qualifies[j] {
        Some(
            choose|i: int|
                0 <= i < qualifies.len() && qualifies[i] && forall|j: int|
                    0 <= j < qualifies.len() && j != i ==> !qualifies[j],
        )
    } else {
        None
    }
}

/// The one window that stands where the moved window was put, if exactly
/// one does; none when no window or several do.
pub fn sole_candidate(qualifies: &Vec<bool>) -> (r: Option<usize>)
    ensures
        match r {
            Some(i) => spec_sole_candidate(qualifies@) == Some(i as int),
            None => spec_sole_candidate(qualifies@) is None,
        },
{
    let mut found: Option<usize> = None;
    let mut i: usize = 0;
    while i < qualifies.len()
        invariant
            i <= qualifies.len(),
            match found {
                Some(f) => f < i && qualifies@[f as int] && forall|j: int|
                    0 <= j < i && j != f ==> !qualifies@[j],
                None => forall|j: int| 0 <= j < i ==> !qualifies@[j],
            },
        decreases qualifies.len() - i,
    {
        if qualifies[i] {
            match found {
                Some(f) => {
                    proof {
                        assert forall|k: int|
                            0 <= k < qualifies@.len() && qualifies@[k] implies exists|j: int|
                            0 <= j < qualifies@.len() && j != k && qualifies@[j] by {
                            if k == f {
                                assert(qualifies@[i as int]);
                            } else {
                                assert(qualifies@[f as int]);
                            }
                        }
                    }
                    return None;
                },
                None => {
                    found = Some(i);
                },
            }
        }
        i = i + 1;
    }
    match found {
        Some(f) => {
            proof {
                let w = choose|k: int|
                    0 <= k < qualifies@.len() && qualifies@[k] && forall|j: int|
                        0 <= j < qualifies@.len() && j != k ==> !qualifies@[j];
                assert(w == f as int);
            }
            Some(f)
        },
        None => None,
    }
}

/// The addresses of the saved tabs that are not open among `live`, in
/// saved order.
pub open spec fn spec_missing_urls(saved: Seq<Seq<char>>, live: Seq<Seq<char>>) -> Seq<Seq<char>> {
    saved.filter(not_open_in(live))
}

/// An address is not among `live`.
pub open spec fn not_open_in(live: Seq<Seq<char>>) -> spec_fn(Seq<char>) -> bool {
    |u: Seq<char>| !live.contains(u)
}

/// Re-opening adds a saved address exactly when the window does not have
/// it open: nothing that is open is opened twice, and nothing that was not
/// saved is added.
pub proof fn law_reopening_adds_exactly_the_missing_tabs(saved: Seq<Seq<char>>, live: Seq<Seq<char>>, u: Seq<char>)
    ensures
        spec_missing_urls(saved, live).contains(u) <==> (saved.contains(u) && !live.contains(u)),
{
    let f = saved.filter(not_open_in(live));
    if f.contains(u) {
        saved.lemma_filter_contains_rev(not_open_in(live), u);
        let i = choose|i: int| 0 <= i < f.len() && f[i] == u;
        saved.lemma_filter_pred(not_open_in(live), i);
    }
    if saved.contains(u) && !live.contains(u) {
        let i = choose|i: int| 0 <= i < saved.len() && saved[i] == u;
        saved.lemma_filter_contains(not_open_in(live), i);
    }
}

/// The addresses of the saved tabs.
pub open spec fn tab_urls(tabs: Seq<BrowserTab>) -> Seq<Seq<char>> {
    tabs.map_values(|t: BrowserTab| t.url@)
}

/// The characters of each string.
pub open spec fn strings_view(v: Seq<String>) -> Seq<Seq<char>> {
    v.map_values(|s: String| s@)
}

fn contains_str(v: &Vec<String>, s: &str) -> (r: bool)
    ensures
        r == strings_view(v@).contains(s@),
{
    let mut i: usize = 0;
    while i < v.len()
        invariant
            i <= v.len(),
            forall|j: int| 0 <= j < i ==> v@[j]@ != s@,
        decreases v.len() - i,
    {
        if str_eq(v[i].as_str(), s) {
            assert(strings_view(v@)[i as int] == s@);
            return true;
        }
        i = i + 1;
    }
    proof {
        if strings_view(v@).contains(s@) {
            let j = choose|j: int| 0 <= j < strings_view(v@).len() && strings_view(v@)[j] == s@;
            assert(v@[j]@ == s@);
        }
    }
    false
}

/// The addresses of the saved tabs that the live window does not have
/// open, in saved order: what re-opening adds, and all it adds.
pub fn missing_tab_urls(saved: &Vec<BrowserTab>, live_urls: &Vec<String>) -> (r: Vec<String>)
    ensures
        strings_view(r@) == spec_missing_urls(tab_urls(saved@), strings_view(live_urls@)),
{
    let ghost live = strings_view(live_urls@);
    let mut out: Vec<String> = Vec::new();
    let mut i: usize = 0;
    while i < saved.len()
        invariant
            i <= saved.len(),
            live == strings_view(live_urls@),
            strings_view(out@) == spec_missing_urls(tab_urls(saved@).subrange(0, i as int), live),
        decreases saved.len() - i,
    {
        let ghost prefix = tab_urls(saved@).subrange(0, i as int);
        let ghost next = tab_urls(saved@).subrange(0, i + 1);
        assert(next =~= prefix.push(saved@[i as int].url@));
        proof {
            prefix.lemma_filter_push(saved@[i as int].url@, not_open_in(live));
        }
        let url = &saved[i].url;
        if !contains_str(live_urls, url.as_str()) {
            let ghost before = out@;
            out.push(string_of(url.as_str()));
            assert(strings_view(out@) =~= strings_view(before).push(url@));
        }
        i = i + 1;
    }
    assert(tab_urls(saved@).subrange(0, saved.len() as int) =~= tab_urls(saved@));
    out
}

/// What came of re-opening the missing tabs of a window just moved into
/// place: how many were opened, that the window could not be located, or
/// the error met.
pub open spec fn spec_reconcile_outcome(r: Result<Option<usize>, Seq<char>>) -> (JournalStatus, Seq<char>) {
    match r {
        Ok(Some(n)) => if n == 0 {
            (JournalStatus::Success, "repositioned"@)
        } else {
            (JournalStatus::Success, "repositioned; reopened "@ + decimal(n as nat) + " missing tab(s)"@)
        },
        Ok(None) => (JournalStatus::PartialSuccess, "repositioned; could not locate window to reconcile tabs"@),
        Err(e) => (JournalStatus::PartialSuccess, "repositioned; tab reconcile failed: "@ + e),
    }
}

/// A reconcile result with its error text as characters.
pub open spec fn reconcile_view(r: Result<Option<usize>, String>) -> Result<Option<usize>, Seq<char>> {
    match r {
        Ok(o) => Ok(o),
        Err(e) => Err(e@),
    }
}

/// The outcome of a reposition of a browser window after its missing tabs
/// were re-opened, in one attempt.
pub fn reconcile_outcome(r: &Result<Option<usize>, String>) -> (o: OpOutcome)
    ensures
        outcome_is(o, spec_reconcile_outcome(reconcile_view(*r)).0, spec_reconcile_outcome(reconcile_view(*r)).1, 1),
{
    match r {
        Ok(Some(n)) => {
            if *n == 0 {
                OpOutcome::success(string_of("repositioned"))
            } else {
                let head = concat_str("repositioned; reopened ", usize_decimal(*n).as_str());
                let msg = concat_str(head.as_str(), " missing tab(s)");
                OpOutcome::success(msg)
            }
        },
        Ok(None) => OpOutcome::partial(string_of("repositioned; could not locate window to reconcile tabs")),
        Err(e) => OpOutcome::partial(concat_str("repositioned; tab reconcile failed: ", e.as_str())),
    }
}

} // verus!

//! How alike two window titles are.
//!
//! Titles are compared exactly, then after normalization (trimmed,
//! lowercased, ASCII punctuation dropped, whitespace collapsed), then by
//! containment, and last by the overlap of their sets of words. The caller
//! turns the outcome into the title similarity of a match score.

use vstd::prelude::*;
use vstd::set_lib::*;

use crate::text::{chars_of, collapse_whitespace, is_ascii_punct, is_ascii_punctuation,
    is_substring, is_unicode_whitespace, is_whitespace, join_space, str_contains, str_eq,
    string_from_chars, to_lowercase, trim, trim_chars, unicode_lowercase, words};

verus! {

/// `s` without its ASCII punctuation.
pub open spec fn strip_punct(s: Seq<char>) -> Seq<char>
    decreases s.len(),
{
    if s.len() == 0 {
        seq![]
    } else if is_ascii_punct(s.last()) {
        strip_punct(s.drop_last())
    } else {
        strip_punct(s.drop_last()).push(s.last())
    }
}

/// A title trimmed, lowercased, without ASCII punctuation, and with its
/// words joined by single spaces.
pub open spec fn spec_normalize_title(s: Seq<char>) -> Seq<char> {
    join_space(words(strip_punct(unicode_lowercase(trim(s)))))
}

/// The distinct words of a normalized title.
pub open spec fn word_set(s: Seq<char>) -> Set<Seq<char>> {
    words(s).to_set()
}

/// How two titles compare.
#[derive(Debug, Copy, Clone, PartialEq, Eq, Structural)]
pub enum TitleComparison {
    /// Both present and equal.
    Identical,
    /// Both present, equal once normalized, and not blank.
    SameWhenNormalized,
    /// Both present, and one is blank once normalized.
    NormalizedBlank,
    /// Both present, and one normalized title contains the other.
    Contained,
    /// Both present: `shared` distinct words in common out of `total`
    /// distinct words in either.
    WordOverlap { shared: usize, total: usize },
    /// Neither window has a title.
    BothMissing,
    /// Only one window has a title.
    OneMissing,
}

/// The comparison of two titles, in the order the checks are made.
pub open spec fn spec_compare_titles(left: Option<Seq<char>>, right: Option<Seq<char>>) -> TitleComparison {
    match (left, right) {
        (Some(a), Some(b)) => {
            let na = spec_normalize_title(a);
            let nb = spec_normalize_title(b);
            if a == b {
                TitleComparison::Identical
            } else if na == nb && na.len() > 0 {
                TitleComparison::SameWhenNormalized
            } else if na.len() == 0 || nb.len() == 0 {
                TitleComparison::NormalizedBlank
            } else if is_substring(nb, na) || is_substring(na, nb) {
                TitleComparison::Contained
            } else {
                TitleComparison::WordOverlap {
                    shared: word_set(na).intersect(word_set(nb)).len() as usize,
                    total: word_set(na).union(word_set(nb)).len() as usize,
                }
            }
        },
        (None, None) => TitleComparison::BothMissing,
        _ => TitleComparison::OneMissing,
    }
}

fn strip_punct_chars(s: &Vec<char>) -> (r: Vec<char>)
    ensures
        r@ == strip_punct(s@),
{
    let mut out: Vec<char> = Vec::new();
    let mut i: usize = 0;
    while i < s.len()
        invariant
            i <= s.len(),
            out@ == strip_punct(s@.subrange(0, i as int)),
        decreases s.len() - i,
    {
        let ghost next = s@.subrange(0, i + 1);
        assert(next.drop_last() =~= s@.subrange(0, i as int));
        if !is_ascii_punctuation(s[i]) {
            out.push(s[i]);
        }
        i = i + 1;
    }
    assert(s@.subrange(0, s.len() as int) =~= s@);
    out
}

/// Normalizes a title for comparison.
pub fn normalize_title(value: &str) -> (r: String)
    ensures
        r@ == spec_normalize_title(value@),
{
    let chars = chars_of(value);
    let trimmed = trim_chars(&chars);
    let trimmed_s = string_from_chars(&trimmed);
    let lower = to_lowercase(trimmed_s.as_str());
    let lower_chars = chars_of(lower.as_str());
    let stripped = strip_punct_chars(&lower_chars);
    let collapsed = collapse_whitespace(&stripped);
    string_from_chars(&collapsed)
}

// ---------------------------------------------------------------------------
// Word sets
// ---------------------------------------------------------------------------

/// The characters of each word.
pub open spec fn words_view(v: Seq<Vec<char>>) -> Seq<Seq<char>> {
    v.map_values(|w: Vec<char>| w@)
}

fn copy_chars(v: &Vec<char>) -> (r: Vec<char>)
    ensures
        r@ == v@,
{
    let mut out: Vec<char> = Vec::new();
    let mut i: usize = 0;
    while i < v.len()
        invariant
            i <= v.len(),
            out@ == v@.subrange(0, i as int),
        decreases v.len() - i,
    {
        out.push(v[i]);
        assert(out@ =~= v@.subrange(0, i + 1));
        i = i + 1;
    }
    assert(out@ =~= v@);
    out
}

fn chars_eq(a: &Vec<char>, b: &Vec<char>) -> (r: bool)
    ensures
        r == (a@ == b@),
{
    if a.len() != b.len() {
        return false;
    }
    let mut i: usize = 0;
    while i < a.len()
        invariant
            a.len() == b.len(),
            i <= a.len(),
            forall|j: int| 0 <= j < i ==> a@[j] == b@[j],
        decreases a.len() - i,
    {
        if a[i] != b[i] {
            return false;
        }
        i = i + 1;
    }
    assert(a@ =~= b@);
    true
}

proof fn lemma_words_view_push(v: Seq<Vec<char>>, w: Vec<char>)
    ensures
        words_view(v.push(w)) == words_view(v).push(w@),
{
    assert(words_view(v.push(w)) =~= words_view(v).push(w@));
}

/// The words of `s`, as `split_whitespace` yields them.
fn split_words(s: &Vec<char>) -> (r: Vec<Vec<char>>)
    ensures
        words_view(r@) == words(s@),
{
    let mut out: Vec<Vec<char>> = Vec::new();
    let mut cur: Vec<char> = Vec::new();
    let mut open = false;
    let mut i: usize = 0;
    while i < s.len()
        invariant
            i <= s.len(),
            open ==> i > 0 && !is_unicode_whitespace(s@[i - 1]),
            !open ==> (i == 0 || is_unicode_whitespace(s@[i - 1])),
            open ==> words(s@.subrange(0, i as int)) == words_view(out@).push(cur@),
            !open ==> words(s@.subrange(0, i as int)) == words_view(out@),
        decreases s.len() - i,
    {
        let c = s[i];
        let ghost prefix = s@.subrange(0, i as int);
        let ghost next = s@.subrange(0, i + 1);
        assert(next.drop_last() =~= prefix);
        assert(next.last() == c);
        if i > 0 {
            assert(next[next.len() - 2] == s@[i - 1]);
        }
        if is_whitespace(c) {
            if open {
                proof {
                    lemma_words_view_push(out@, cur);
                }
                out.push(cur);
                cur = Vec::new();
                open = false;
            }
        } else {
            if open {
                proof {
                    let w = words(prefix);
                    assert(w.drop_last() =~= words_view(out@));
                }
                cur.push(c);
                proof {
                    let w = words(prefix);
                    assert(words(next) == w.drop_last().push(w.last().push(c)));
                    assert(words(next) =~= words_view(out@).push(cur@));
                }
            } else {
                cur = Vec::new();
                cur.push(c);
                proof {
                    assert(cur@ =~= seq![c]);
                }
                open = true;
            }
        }
        i = i + 1;
    }
    assert(s@.subrange(0, s.len() as int) =~= s@);
    if open {
        proof {
            lemma_words_view_push(out@, cur);
        }
        out.push(cur);
    }
    out
}

proof fn lemma_push_to_set<A>(s: Seq<A>, x: A)
    ensures
        s.push(x).to_set() == s.to_set().insert(x),
{
    assert forall|y: A| s.push(x).to_set().contains(y) <==> s.to_set().insert(x).contains(y) by {
        if s.push(x).contains(y) {
            let k = choose|k: int| 0 <= k < s.push(x).len() && s.push(x)[k] == y;
            if k < s.len() {
                assert(s[k] == y);
            }
        }
        if s.contains(y) {
            let k = choose|k: int| 0 <= k < s.len() && s[k] == y;
            assert(s.push(x)[k] == y);
        }
        if y == x {
            assert(s.push(x)[s.len() as int] == x);
        }
    }
    assert(s.push(x).to_set() =~= s.to_set().insert(x));
}

/// The distinct words of a list, in first-seen order.
fn distinct_words(ws: &Vec<Vec<char>>) -> (r: Vec<Vec<char>>)
    ensures
        words_view(r@).no_duplicates(),
        words_view(r@).to_set() == words_view(ws@).to_set(),
{
    let mut out: Vec<Vec<char>> = Vec::new();
    let mut i: usize = 0;
    while i < ws.len()
        invariant
            i <= ws.len(),
            words_view(out@).no_duplicates(),
            words_view(out@).to_set() == words_view(ws@.subrange(0, i as int)).to_set(),
        decreases ws.len() - i,
    {
        let ghost pre = ws@.subrange(0, i as int);
        assert(ws@.subrange(0, i + 1) =~= pre.push(ws@[i as int]));
        proof {
            lemma_words_view_push(pre, ws@[i as int]);
            lemma_push_to_set(words_view(pre), ws@[i as int]@);
        }
        let mut seen = false;
        let mut j: usize = 0;
        while j < out.len()
            invariant
                i < ws.len(),
                j <= out.len(),
                seen == exists|k: int| 0 <= k < j && out@[k]@ == ws@[i as int]@,
            decreases out.len() - j,
        {
            if chars_eq(&out[j], &ws[i]) {
                seen = true;
            }
            j = j + 1;
        }
        if !seen {
            let ghost old_out = out@;
            let w = copy_chars(&ws[i]);
            proof {
                lemma_words_view_push(old_out, w);
                lemma_push_to_set(words_view(old_out), w@);
                assert forall|a: int, b: int| 0 <= a < b < words_view(old_out.push(w)).len() implies
                    words_view(old_out.push(w))[a] != words_view(old_out.push(w))[b] by {
                    if b == old_out.len() {
                        assert(words_view(old_out.push(w))[a] == old_out[a]@);
                    } else {
                        assert(words_view(old_out.push(w))[a] == words_view(old_out)[a]);
                        assert(words_view(old_out.push(w))[b] == words_view(old_out)[b]);
                    }
                }
            }
            out.push(w);
        } else {
            proof {
                let k = choose|k: int| 0 <= k < out@.len() && out@[k]@ == ws@[i as int]@;
                assert(words_view(out@)[k] == ws@[i as int]@);
                assert(words_view(out@).to_set().contains(ws@[i as int]@));
                assert(words_view(out@).to_set().insert(ws@[i as int]@) =~= words_view(out@).to_set());
            }
        }
        i = i + 1;
    }
    assert(ws@.subrange(0, ws.len() as int) =~= ws@);
    out
}

fn contains_word(ws: &Vec<Vec<char>>, w: &Vec<char>) -> (r: bool)
    ensures
        r == words_view(ws@).to_set().contains(w@),
{
    let mut i: usize = 0;
    while i < ws.len()
        invariant
            i <= ws.len(),
            forall|k: int| 0 <= k < i ==> ws@[k]@ != w@,
        decreases ws.len() - i,
    {
        if chars_eq(&ws[i], w) {
            assert(words_view(ws@)[i as int] == w@);
            return true;
        }
        i = i + 1;
    }
    proof {
        if words_view(ws@).contains(w@) {
            let k = choose|k: int| 0 <= k < words_view(ws@).len() && words_view(ws@)[k] == w@;
            assert(ws@[k]@ == w@);
        }
    }
    false
}

/// Number of distinct words of `a` that `b` also has.
fn count_shared(a: &Vec<Vec<char>>, b: &Vec<Vec<char>>) -> (r: usize)
    requires
        words_view(a@).no_duplicates(),
    ensures
        r == words_view(a@).to_set().intersect(words_view(b@).to_set()).len(),
{
    let ghost bs = words_view(b@).to_set();
    let mut count: usize = 0;
    assert(words_view(a@.subrange(0, 0)).to_set().intersect(bs) =~= Set::<Seq<char>>::empty());
    let mut i: usize = 0;
    while i < a.len()
        invariant
            i <= a.len(),
            bs == words_view(b@).to_set(),
            words_view(a@).no_duplicates(),
            count <= i,
            count == words_view(a@.subrange(0, i as int)).to_set().intersect(bs).len(),
        decreases a.len() - i,
    {
        let ghost pre = a@.subrange(0, i as int);
        let ghost x = a@[i as int]@;
        assert(a@.subrange(0, i + 1) =~= pre.push(a@[i as int]));
        proof {
            lemma_words_view_push(pre, a@[i as int]);
            lemma_push_to_set(words_view(pre), x);
            assert(!words_view(pre).to_set().contains(x)) by {
                if words_view(pre).contains(x) {
                    let k = choose|k: int| 0 <= k < words_view(pre).len() && words_view(pre)[k] == x;
                    assert(words_view(a@)[k] == words_view(a@)[i as int]);
                }
            }
        }
        let ghost before = words_view(pre).to_set().intersect(bs);
        if contains_word(b, &a[i]) {
            proof {
                assert(words_view(pre).to_set().insert(x).intersect(bs) =~= before.insert(x));
                assert(!before.contains(x));
            }
            count = count + 1;
        } else {
            proof {
                assert(words_view(pre).to_set().insert(x).intersect(bs) =~= before);
            }
        }
        i = i + 1;
    }
    assert(a@.subrange(0, a.len() as int) =~= a@);
    count
}

/// The distinct words of `a` followed by those of `b` that `a` lacks.
fn union_words(a: &Vec<Vec<char>>, b: &Vec<Vec<char>>) -> (r: Vec<Vec<char>>)
    requires
        words_view(a@).no_duplicates(),
        words_view(b@).no_duplicates(),
    ensures
        words_view(r@).no_duplicates(),
        words_view(r@).to_set() == words_view(a@).to_set().union(words_view(b@).to_set()),
{
    let mut out: Vec<Vec<char>> = Vec::new();
    let mut i: usize = 0;
    while i < a.len()
        invariant
            i <= a.len(),
            words_view(a@).no_duplicates(),
            words_view(out@) == words_view(a@.subrange(0, i as int)),
        decreases a.len() - i,
    {
        let w = copy_chars(&a[i]);
        proof {
            lemma_words_view_push(out@, w);
            lemma_words_view_push(a@.subrange(0, i as int), a@[i as int]);
            assert(a@.subrange(0, i + 1) =~= a@.subrange(0, i as int).push(a@[i as int]));
        }
        out.push(w);
        i = i + 1;
    }
    assert(a@.subrange(0, a.len() as int) =~= a@);
    let ghost sa = words_view(a@).to_set();
    let ghost sb = words_view(b@).to_set();
    let mut j: usize = 0;
    assert(words_view(b@.subrange(0, 0)).to_set() =~= Set::<Seq<char>>::empty());
    assert(sa.union(Set::<Seq<char>>::empty()) =~= sa);
    while j < b.len()
        invariant
            j <= b.len(),
            sa == words_view(a@).to_set(),
            sb == words_view(b@).to_set(),
            words_view(out@).no_duplicates(),
            words_view(out@).to_set() == sa.union(words_view(b@.subrange(0, j as int)).to_set()),
        decreases b.len() - j,
    {
        let ghost pre = b@.subrange(0, j as int);
        let ghost x = b@[j as int]@;
        assert(b@.subrange(0, j + 1) =~= pre.push(b@[j as int]));
        proof {
            lemma_words_view_push(pre, b@[j as int]);
            lemma_push_to_set(words_view(pre), x);
            assert(sa.union(words_view(pre).to_set().insert(x)) =~= sa.union(words_view(pre).to_set()).insert(x));
        }
        if !contains_word(&out, &b[j]) {
            let ghost old_out = out@;
            let w = copy_chars(&b[j]);
            proof {
                lemma_words_view_push(old_out, w);
                lemma_push_to_set(words_view(old_out), w@);
                assert forall|p: int, q: int| 0 <= p < q < words_view(old_out.push(w)).len() implies
                    words_view(old_out.push(w))[p] != words_view(old_out.push(w))[q] by {
                    if q == old_out.len() {
                        assert(words_view(old_out.push(w))[p] == words_view(old_out)[p]);
                        assert(words_view(old_out).contains(words_view(old_out)[p]));
                    } else {
                        assert(words_view(old_out.push(w))[p] == words_view(old_out)[p]);
                        assert(words_view(old_out.push(w))[q] == words_view(old_out)[q]);
                    }
                }
            }
            out.push(w);
        } else {
            proof {
                assert(words_view(out@).to_set().insert(x) =~= words_view(out@).to_set());
            }
        }
        j = j + 1;
    }
    assert(b@.subrange(0, b.len() as int) =~= b@);
    out
}

/// Compares two titles.
pub fn compare_titles(left: Option<&str>, right: Option<&str>) -> (r: TitleComparison)
    ensures
        r == spec_compare_titles(
            match left { Some(a) => Some(a@), None => None },
            match right { Some(b) => Some(b@), None => None },
        ),
{
    match (left, right) {
        (Some(a), Some(b)) => {
            if str_eq(a, b) {
                return TitleComparison::Identical;
            }
            let na = normalize_title(a);
            let nb = normalize_title(b);
            if str_eq(na.as_str(), nb.as_str()) && na.unicode_len() > 0 {
                return TitleComparison::SameWhenNormalized;
            }
            if na.unicode_len() == 0 || nb.unicode_len() == 0 {
                return TitleComparison::NormalizedBlank;
            }
            if str_contains(na.as_str(), nb.as_str()) || str_contains(nb.as_str(), na.as_str()) {
                return TitleComparison::Contained;
            }
            let wa = split_words(&chars_of(na.as_str()));
            let wb = split_words(&chars_of(nb.as_str()));
            let da = distinct_words(&wa);
            let db = distinct_words(&wb);
            let shared = count_shared(&da, &db);
            let all = union_words(&da, &db);
            proof {
                words_view(all@).unique_seq_to_set();
            }
            let total = all.len();
            TitleComparison::WordOverlap { shared, total }
        },
        (None, None) => TitleComparison::BothMissing,
        _ => TitleComparison::OneMissing,
    }
}

} // verus!

//! Stable ordering of items by an integer key.

use vstd::prelude::*;

verus! {

/// `p` lists each of `0..n` exactly once.
pub open spec fn is_permutation(p: Seq<usize>, n: nat) -> bool {
    &&& p.len() == n
    &&& p.no_duplicates()
    &&& forall|k: int| 0 <= k < p.len() ==> (#[trigger] p[k]) < n
}

/// Item `a` comes before item `b`: a smaller key, or an equal key and an
/// earlier position.
pub open spec fn key_before(keys: Seq<u32>, a: usize, b: usize) -> bool {
    keys[a as int] < keys[b as int] || (keys[a as int] == keys[b as int] && a < b)
}

/// `p` orders the items by key, keeping equal keys in input order.
pub open spec fn stably_sorted(keys: Seq<u32>, p: Seq<usize>) -> bool {
    forall|i: int, j: int| 0 <= i < j < p.len() ==> key_before(keys, #[trigger] p[i], #[trigger] p[j])
}

/// The positions of `keys` in ascending key order, equal keys in their
/// input order, as a stable sort by key leaves them.
pub fn stable_order_by_key(keys: &Vec<u32>) -> (p: Vec<usize>)
    ensures
        is_permutation(p@, keys.len() as nat),
        stably_sorted(keys@, p@),
{
    let mut out: Vec<usize> = Vec::new();
    let mut i: usize = 0;
    while i < keys.len()
        invariant
            i <= keys.len(),
            is_permutation(out@, i as nat),
            stably_sorted(keys@, out@),
        decreases keys.len() - i,
    {
        let key = keys[i];
        let mut pos: usize = 0;
        while pos < out.len() && keys[out[pos]] <= key
            invariant
                pos <= out.len(),
                i < keys.len(),
                is_permutation(out@, i as nat),
                forall|k: int| 0 <= k < pos ==> keys@[out@[k] as int] <= key,
            decreases out.len() - pos,
        {
            pos = pos + 1;
        }
        let ghost before = out@;
        out.insert(pos, i);
        proof {
            assert(out@ =~= before.subrange(0, pos as int).push(i).add(before.subrange(pos as int, before.len() as int)));
            assert forall|k: int| 0 <= k < out@.len() implies (#[trigger] out@[k]) < i + 1 by {
                if k < pos {
                    assert(out@[k] == before[k]);
                } else if k > pos {
                    assert(out@[k] == before[k - 1]);
                }
            }
            assert forall|a: int, b: int| 0 <= a < b < out@.len() implies out@[a] != out@[b] by {
                if a < pos && b < pos {
                    assert(out@[a] == before[a] && out@[b] == before[b]);
                } else if a < pos && b == pos {
                    assert(out@[a] == before[a]);
                } else if a < pos && b > pos {
                    assert(out@[a] == before[a] && out@[b] == before[b - 1]);
                } else if a == pos {
                    assert(out@[b] == before[b - 1]);
                } else {
                    assert(out@[a] == before[a - 1] && out@[b] == before[b - 1]);
                }
            }
            assert forall|a: int, b: int| 0 <= a < b < out@.len() implies key_before(
                keys@,
                #[trigger] out@[a],
                #[trigger] out@[b],
            ) by {
                if a < pos && b < pos {
                    assert(out@[a] == before[a] && out@[b] == before[b]);
                } else if a < pos && b == pos {
                    assert(out@[a] == before[a]);
                } else if a < pos && b > pos {
                    assert(out@[a] == before[a] && out@[b] == before[b - 1]);
                } else if a == pos {
                    assert(out@[b] == before[b - 1]);
                    assert(!(keys@[before[pos as int] as int] <= key));
                    if b - 1 > pos {
                        assert(key_before(keys@, before[pos as int], before[b - 1]));
                    }
                } else {
                    assert(out@[a] == before[a - 1] && out@[b] == before[b - 1]);
                }
            }
        }
        i = i + 1;
    }
    out
}

} // verus!

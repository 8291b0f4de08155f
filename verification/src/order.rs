//! Stable ordering of items by integer keys.
use vstd::prelude::*;

verus! {

/// `a` comes before `b` in the lexicographic order of the keys.
pub open spec fn key_lt(a: (i64, i64, i64), b: (i64, i64, i64)) -> bool {
    a.0 < b.0 || (a.0 == b.0 && (a.1 < b.1 || (a.1 == b.1 && a.2 < b.2)))
}

/// Item `i` comes before item `j` in a stable ordering by the keys: by key,
/// and items with equal keys in their order.
pub open spec fn comes_before(keys: Seq<(i64, i64, i64)>, i: int, j: int) -> bool {
    key_lt(keys[i], keys[j]) || (keys[i] == keys[j] && i < j)
}

/// `perm` lists every item once, in the stable order of the keys.
pub open spec fn is_stable_order(keys: Seq<(i64, i64, i64)>, perm: Seq<usize>) -> bool {
    &&& perm.len() == keys.len()
    &&& forall|k: int| 0 <= k < perm.len() ==> perm[k] < keys.len()
    &&& forall|a: int, b: int|
        0 <= a < b < perm.len() ==> comes_before(keys, perm[a] as int, perm[b] as int)
    &&& forall|x: usize| x < keys.len() ==> #[trigger] perm.contains(x)
}

fn key_less(a: (i64, i64, i64), b: (i64, i64, i64)) -> (r: bool)
    ensures
        r == key_lt(a, b),
{
    a.0 < b.0 || (a.0 == b.0 && (a.1 < b.1 || (a.1 == b.1 && a.2 < b.2)))
}

/// The positions of the items in the stable order of their keys.
pub fn stable_order(keys: &Vec<(i64, i64, i64)>) -> (perm: Vec<usize>)
    ensures
        is_stable_order(keys@, perm@),
{
    let n = keys.len();
    let mut perm: Vec<usize> = Vec::new();
    let mut i: usize = 0;
    while i < n
        invariant
            n == keys.len(),
            i <= n,
            perm.len() == i,
            forall|k: int| 0 <= k < perm.len() ==> perm@[k] < i,
            forall|a: int, b: int|
                0 <= a < b < perm.len() ==> comes_before(keys@, perm@[a] as int, perm@[b] as int),
            forall|x: usize| x < i ==> #[trigger] perm@.contains(x),
        decreases n - i,
    {
        let key = keys[i];
        let mut p: usize = 0;
        while p < perm.len() && !key_less(key, keys[perm[p]])
            invariant
                n == keys.len(),
                i < n,
                key == keys@[i as int],
                p <= perm.len(),
                forall|k: int| 0 <= k < perm.len() ==> perm@[k] < i,
                forall|q: int| 0 <= q < p ==> !key_lt(key, keys@[perm@[q] as int]),
            decreases perm.len() - p,
        {
            p += 1;
        }
        let ghost before = perm@;
        perm.insert(p, i);
        proof {
            assert(perm@ == before.insert(p as int, i));
            assert forall|a: int, b: int| 0 <= a < b < perm@.len() implies comes_before(
                keys@,
                perm@[a] as int,
                perm@[b] as int,
            ) by {
                if b == p {
                    assert(perm@[a] == before[a]);
                } else if a == p {
                    assert(perm@[b] == before[b - 1]);
                    assert(key_lt(key, keys@[before[p as int] as int]));
                    if b - 1 > p {
                        assert(comes_before(keys@, before[p as int] as int, before[b - 1] as int));
                    }
                } else if a < p && b > p {
                    assert(perm@[a] == before[a]);
                    assert(perm@[b] == before[b - 1]);
                } else if b < p {
                    assert(perm@[a] == before[a]);
                    assert(perm@[b] == before[b]);
                } else {
                    assert(perm@[a] == before[a - 1]);
                    assert(perm@[b] == before[b - 1]);
                }
            }
            assert forall|x: usize| x < i + 1 implies #[trigger] perm@.contains(x) by {
                if x == i {
                    assert(perm@[p as int] == i);
                } else {
                    assert(before.contains(x));
                    let w = choose|w: int| 0 <= w < before.len() && before[w] == x;
                    if w < p {
                        assert(perm@[w] == x);
                    } else {
                        assert(perm@[w + 1] == x);
                    }
                }
            }
            assert forall|k: int| 0 <= k < perm@.len() implies perm@[k] < i + 1 by {
                if k < p {
                    assert(perm@[k] == before[k]);
                } else if k > p {
                    assert(perm@[k] == before[k - 1]);
                }
            }
        }
        i += 1;
    }
    perm
}

} // verus!

//! Sorted tables of integer triples, searched by their first component: the
//! lookups that place breakpoints go through them.
use vstd::prelude::*;

verus! {

/// A table entry: a key, then two numbers that tell entries apart.
pub type Triple = (u64, usize, usize);

/// `a` comes before `b` or equals it in the order of tuples: by the first
/// component, then the second, then the third.
pub open spec fn triple_le(a: Triple, b: Triple) -> bool {
    a.0 < b.0 || (a.0 == b.0 && (a.1 < b.1 || (a.1 == b.1 && a.2 <= b.2)))
}

/// `t` is in ascending tuple order.
pub open spec fn is_sorted(t: Seq<Triple>) -> bool {
    forall|i: int, j: int| 0 <= i < j < t.len() ==> triple_le(#[trigger] t[i], #[trigger] t[j])
}

/// `slice::sort` on triples: the same triples, in ascending tuple order.
#[verifier::external_body]
fn sort_triples(v: &mut Vec<Triple>)
    ensures
        final(v)@.to_multiset() == old(v)@.to_multiset(),
        is_sorted(final(v)@),
{
    v.sort()
}

/// The triples of `v` in ascending order: each triple of `v` is in the
/// result and each triple of the result is in `v`.
pub fn sorted_triples(v: Vec<Triple>) -> (t: Vec<Triple>)
    ensures
        is_sorted(t@),
        t@.to_multiset() == v@.to_multiset(),
        t@.len() == v@.len(),
        forall|x: Triple| t@.contains(x) <==> v@.contains(x),
{
    let mut t = v;
    sort_triples(&mut t);
    proof {
        t@.to_multiset_ensures();
        v@.to_multiset_ensures();
        assert forall|x: Triple| t@.contains(x) <==> v@.contains(x) by {
            assert(t@.to_multiset().count(x) == v@.to_multiset().count(x));
        }
    }
    t
}

/// The last entry of the sorted table `t` whose key is at most `key`: it is
/// at or after every entry whose key is at most `key` (None when there is
/// none).
pub fn last_at_most(t: &Vec<Triple>, key: u64) -> (res: Option<usize>)
    requires
        is_sorted(t@),
    ensures
        res matches Some(i) ==> i < t@.len() && t@[i as int].0 <= key && forall|j: int|
            0 <= j < t@.len() && #[trigger] t@[j].0 <= key ==> triple_le(t@[j], t@[i as int]),
        res is None ==> forall|j: int| 0 <= j < t@.len() ==> #[trigger] t@[j].0 > key,
{
    // The first position whose key is past `key`.
    let mut lo: usize = 0;
    let mut hi: usize = t.len();
    while lo < hi
        invariant
            is_sorted(t@),
            lo <= hi <= t@.len(),
            forall|j: int| 0 <= j < lo ==> #[trigger] t@[j].0 <= key,
            forall|j: int| hi <= j < t@.len() ==> #[trigger] t@[j].0 > key,
        decreases hi - lo,
    {
        let mid = lo + (hi - lo) / 2;
        if t[mid].0 <= key {
            assert forall|j: int| 0 <= j < mid + 1 implies #[trigger] t@[j].0 <= key by {
                if j < mid {
                    assert(triple_le(t@[j], t@[mid as int]));
                }
            }
            lo = mid + 1;
        } else {
            assert forall|j: int| mid <= j < t@.len() implies #[trigger] t@[j].0 > key by {
                if j > mid {
                    assert(triple_le(t@[mid as int], t@[j]));
                }
            }
            hi = mid;
        }
    }
    if lo == 0 {
        None
    } else {
        let i = lo - 1;
        assert forall|j: int| 0 <= j < t@.len() && #[trigger] t@[j].0 <= key implies triple_le(
            t@[j],
            t@[i as int],
        ) by {
            if j > i {
                assert(t@[j].0 > key);
            } else if j < i {
                assert(triple_le(t@[j], t@[i as int]));
            }
        }
        Some(i)
    }
}

} // verus!

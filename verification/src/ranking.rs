//! The order in which results are shown: greatest key first.
use vstd::prelude::*;

verus! {

/// Some entry of `order` is `p`.
pub open spec fn names(order: Seq<int>, p: int) -> bool {
    exists|i: int| 0 <= i < order.len() && #[trigger] order[i] == p
}

/// `order` names each of the places below `n` exactly once.
pub open spec fn is_permutation(order: Seq<int>, n: int) -> bool {
    &&& order.len() == n
    &&& forall|i: int| 0 <= i < n ==> 0 <= #[trigger] order[i] < n
    &&& forall|i: int, j: int| 0 <= i < j < n ==> #[trigger] order[i] != #[trigger] order[j]
    &&& forall|p: int| 0 <= p < n ==> #[trigger] names(order, p)
}

/// The pair `a` comes before the pair `b`: by the first part, and by the
/// second where the first parts are equal.
pub open spec fn pair_before(a: (u64, usize), b: (u64, usize)) -> bool {
    a.0 < b.0 || (a.0 == b.0 && a.1 < b.1)
}

/// `order` lists the places of `keys` with the greatest key first; of two
/// places with equal keys, the later one comes first.
pub open spec fn ranks_descending(keys: Seq<u64>, order: Seq<usize>) -> bool {
    &&& is_permutation(order.map_values(|p: usize| p as int), keys.len() as int)
    &&& forall|i: int, j: int|
        0 <= i < j < order.len() ==> pair_before(
            (keys[#[trigger] order[j] as int], order[j]),
            (keys[#[trigger] order[i] as int], order[i]),
        )
}

/// `b` holds what `a` holds, each item moved to some place.
pub open spec fn is_rearrangement<T>(a: Seq<T>, b: Seq<T>) -> bool {
    b.len() == a.len() && exists|from: Seq<int>|
        is_permutation(from, a.len() as int) && forall|i: int|
            0 <= i < a.len() ==> #[trigger] b[i] == a[from[i]]
}

/// The numbers do not decrease along the sequence.
pub open spec fn ascending(s: Seq<i64>) -> bool {
    forall|i: int, j: int| 0 <= i < j < s.len() ==> s[i] <= s[j]
}

/// `<[i64]>::sort_unstable`: afterwards the vector holds the numbers that it
/// held before, each moved to some place, in ascending order.
#[verifier::external_body]
pub(crate) fn sort_ids(ids: &mut Vec<i64>)
    ensures
        is_rearrangement(old(ids)@, final(ids)@),
        ascending(final(ids)@),
{
    ids.sort_unstable();
}

/// `<[(u64, usize)]>::sort_unstable`: afterwards the vector holds the pairs
/// that it held before, each moved to some place, and they ascend in the
/// order of tuples: by the first part, then by the second.
#[verifier::external_body]
fn sort_pairs(pairs: &mut Vec<(u64, usize)>)
    ensures
        final(pairs).len() == old(pairs).len(),
        exists|from: Seq<int>|
            is_permutation(from, old(pairs).len() as int) && forall|i: int|
                0 <= i < old(pairs).len() ==> #[trigger] final(pairs)[i] == old(pairs)[from[i]],
        forall|i: int, j: int|
            0 <= i < j < final(pairs).len() ==> (#[trigger] final(pairs)[i]) == (
            #[trigger] final(pairs)[j]) || pair_before(final(pairs)[i], final(pairs)[j]),
{
    pairs.sort_unstable();
}

/// The places of `keys`, the place of the greatest key first.
pub fn descending_order(keys: &Vec<u64>) -> (order: Vec<usize>)
    ensures
        ranks_descending(keys@, order@),
{
    let n = keys.len();
    let mut pairs: Vec<(u64, usize)> = Vec::new();
    let mut i: usize = 0;
    while i < n
        invariant
            i <= n,
            n == keys.len(),
            pairs.len() == i,
            forall|k: int| 0 <= k < i ==> #[trigger] pairs[k] == (keys[k], k as usize),
        decreases n - i,
    {
        pairs.push((keys[i], i));
        i += 1;
    }
    let ghost unsorted = pairs@;
    sort_pairs(&mut pairs);
    let ghost from = choose|from: Seq<int>|
        is_permutation(from, n as int) && forall|i: int|
            0 <= i < n ==> #[trigger] pairs[i] == unsorted[from[i]];
    assert forall|k: int| 0 <= k < n implies (#[trigger] pairs[k]).1 == from[k] && pairs[k].0
        == keys[from[k]] by {
        assert(pairs[k] == unsorted[from[k]]);
    }
    let mut order: Vec<usize> = Vec::new();
    let mut left: usize = n;
    while left > 0
        invariant
            left <= n,
            n == keys.len(),
            pairs.len() == n,
            order.len() == n - left,
            forall|k: int| 0 <= k < order.len() ==> #[trigger] order[k] == pairs[n - 1 - k].1,
        decreases left,
    {
        left -= 1;
        order.push(pairs[left].1);
    }
    proof {
        let places = order@.map_values(|p: usize| p as int);
        assert forall|k: int| 0 <= k < n implies #[trigger] places[k] == from[n - 1 - k] by {
            assert(order[k] == pairs[n - 1 - k].1);
        }
        assert(is_permutation(places, n as int)) by {
            assert forall|a: int, b: int| 0 <= a < b < n implies #[trigger] places[a]
                != #[trigger] places[b] by {
                assert(from[n - 1 - b] != from[n - 1 - a]);
            }
            assert forall|p: int| 0 <= p < n implies #[trigger] names(places, p) by {
                assert(names(from, p));
                let k = choose|k: int| 0 <= k < n && #[trigger] from[k] == p;
                assert(places[n - 1 - k] == p);
            }
        }
        assert forall|a: int, b: int| 0 <= a < b < order.len() implies pair_before(
            (keys[#[trigger] order[b] as int], order[b]),
            (keys[#[trigger] order[a] as int], order[a]),
        ) by {
            let lo = n - 1 - b;
            let hi = n - 1 - a;
            assert(order[b] == pairs[lo].1);
            assert(order[a] == pairs[hi].1);
            assert(pairs[lo] == pairs[hi] || pair_before(pairs[lo], pairs[hi]));
            assert(from[lo] != from[hi]);
        }
    }
    order
}

} // verus!

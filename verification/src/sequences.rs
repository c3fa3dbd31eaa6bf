//! The places of a sequence, and facts about filtering a sequence.
use vstd::prelude::*;

verus! {

/// The numbers below `n`, ascending.
pub open spec fn indices(n: nat) -> Seq<int> {
    Seq::new(n, |i: int| i)
}

/// Filtering one element more either appends that element or changes nothing.
pub proof fn lemma_filter_step<T>(s: Seq<T>, keep: spec_fn(T) -> bool, i: int)
    requires
        0 <= i < s.len(),
    ensures
        s.take(i + 1).filter(keep) == if keep(s[i]) {
            s.take(i).filter(keep).push(s[i])
        } else {
            s.take(i).filter(keep)
        },
{
    reveal(Seq::filter);
    assert(s.take(i + 1).drop_last() =~= s.take(i));
    assert(s.take(i + 1).last() == s[i]);
}

/// Filtering by two tests at once is filtering by the one and then by the
/// other.
pub proof fn lemma_filter_twice<T>(s: Seq<T>, first: spec_fn(T) -> bool, second: spec_fn(T) -> bool)
    ensures
        s.filter(|x: T| first(x) && second(x)) == s.filter(first).filter(second),
    decreases s.len(),
{
    reveal(Seq::filter);
    if s.len() > 0 {
        lemma_filter_twice(s.drop_last(), first, second);
        if first(s.last()) {
            let kept = s.drop_last().filter(first);
            assert(kept.push(s.last()).drop_last() =~= kept);
        }
    } else {
        assert(s.filter(first) =~= Seq::<T>::empty());
    }
}

/// What a filter keeps stood in the sequence and passes the test.
pub proof fn lemma_filtered_from<T>(s: Seq<T>, keep: spec_fn(T) -> bool, i: int)
    requires
        0 <= i < s.filter(keep).len(),
    ensures
        keep(s.filter(keep)[i]),
        exists|k: int| 0 <= k < s.len() && #[trigger] s[k] == s.filter(keep)[i],
    decreases s.len(),
{
    reveal(Seq::filter);
    if s.len() > 0 {
        let front = s.drop_last();
        if i < front.filter(keep).len() {
            lemma_filtered_from(front, keep, i);
            let k = choose|k: int| 0 <= k < front.len() && #[trigger] front[k] == front.filter(keep)[i];
            assert(s[k] == s.filter(keep)[i]);
        } else {
            assert(s[s.len() - 1] == s.filter(keep)[i]);
        }
    }
}

/// A filter that every item passes changes nothing.
pub proof fn lemma_filter_all<T>(s: Seq<T>, keep: spec_fn(T) -> bool)
    requires
        forall|i: int| 0 <= i < s.len() ==> keep(#[trigger] s[i]),
    ensures
        s.filter(keep) == s,
    decreases s.len(),
{
    reveal(Seq::filter);
    if s.len() > 0 {
        assert forall|i: int| 0 <= i < s.drop_last().len() implies keep(
            #[trigger] s.drop_last()[i],
        ) by {
            assert(s.drop_last()[i] == s[i]);
        }
        lemma_filter_all(s.drop_last(), keep);
        assert(keep(s[s.len() - 1]));
        assert(s.drop_last().push(s.last()) =~= s);
    } else {
        assert(s.filter(keep) =~= s);
    }
}

/// A filter that no item passes leaves nothing.
pub proof fn lemma_filter_none<T>(s: Seq<T>, keep: spec_fn(T) -> bool)
    requires
        forall|i: int| 0 <= i < s.len() ==> !keep(#[trigger] s[i]),
    ensures
        s.filter(keep) == Seq::<T>::empty(),
    decreases s.len(),
{
    reveal(Seq::filter);
    if s.len() > 0 {
        assert forall|i: int| 0 <= i < s.drop_last().len() implies !keep(
            #[trigger] s.drop_last()[i],
        ) by {
            assert(s.drop_last()[i] == s[i]);
        }
        lemma_filter_none(s.drop_last(), keep);
        assert(!keep(s[s.len() - 1]));
    } else {
        assert(s.filter(keep) =~= Seq::<T>::empty());
    }
}

} // verus!

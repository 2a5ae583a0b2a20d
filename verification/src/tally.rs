//! Listings of a multiset as (element, count) pairs, and the arithmetic that
//! ties such a listing to the multiset's size.

use vstd::multiset::{group_multiset_axioms, Multiset};
use vstd::prelude::*;

verus! {

/// The sum of the counts in a listing.
pub open spec fn total<E>(pairs: Seq<(E, usize)>) -> nat
    decreases pairs.len(),
{
    if pairs.len() == 0 {
        0
    } else {
        total(pairs.drop_last()) + pairs.last().1 as nat
    }
}

/// `pairs` lists `m`: every element of `m` appears in exactly one pair, next
/// to the number of times it occurs in `m`, and nothing else appears.
pub open spec fn lists<E>(pairs: Seq<(E, usize)>, m: Multiset<E>) -> bool {
    &&& forall|i: int, j: int| 0 <= i < j < pairs.len() ==> pairs[i].0 != pairs[j].0
    &&& forall|i: int|
        0 <= i < pairs.len() ==> pairs[i].1 > 0 && #[trigger] pairs[i].1 == m.count(pairs[i].0)
    &&& forall|e: E| m.count(e) > 0 ==> exists|i: int| 0 <= i < pairs.len() && pairs[i].0 == e
}

/// A multiset that holds no element but `k` is as large as `k`'s count.
pub proof fn lemma_len_of_single<E>(m: Multiset<E>, k: E)
    requires
        forall|e: E| e != k ==> m.count(e) == 0,
    ensures
        m.len() == m.count(k),
    decreases m.count(k),
{
    broadcast use group_multiset_axioms;

    if m.count(k) == 0 {
        assert(m =~= Multiset::empty());
    } else {
        let rest = m.remove(k);
        assert(Multiset::singleton(k).subset_of(m)) by {
            assert forall|e: E| Multiset::singleton(k).count(e) <= m.count(e) by {
                if e != k {
                    assert(Multiset::singleton(k).count(e) == 0);
                }
            }
        }
        lemma_len_of_single(rest, k);
    }
}

/// The counts of a listing add up to the size of the multiset it lists.
pub proof fn lemma_total_is_len<E>(pairs: Seq<(E, usize)>, m: Multiset<E>)
    requires
        lists(pairs, m),
    ensures
        total(pairs) == m.len(),
    decreases pairs.len(),
{
    broadcast use group_multiset_axioms;

    if pairs.len() == 0 {
        assert(m =~= Multiset::empty());
    } else {
        let k = pairs.last().0;
        let front = pairs.drop_last();
        let others = m.filter(|e: E| e != k);
        let only = m.filter(|e: E| e == k);
        assert(m =~= others.add(only));
        lemma_len_of_single(only, k);
        assert(lists(front, others)) by {
            assert forall|e: E| others.count(e) > 0 implies exists|i: int|
                0 <= i < front.len() && front[i].0 == e by {
                let i = choose|i: int| 0 <= i < pairs.len() && pairs[i].0 == e;
                assert(front[i].0 == e);
            }
        }
        lemma_total_is_len(front, others);
    }
}

/// The counts of the first `n` pairs of a listing add up to no more than the
/// counts of all of them.
pub proof fn lemma_total_of_prefix<E>(pairs: Seq<(E, usize)>, n: int)
    requires
        0 <= n <= pairs.len(),
    ensures
        total(pairs.take(n)) <= total(pairs),
        n < pairs.len() ==> total(pairs.take(n + 1)) == total(pairs.take(n)) + pairs[n].1,
    decreases pairs.len() - n,
{
    if n == pairs.len() {
        assert(pairs.take(n) =~= pairs);
    } else {
        assert(pairs.take(n + 1).drop_last() =~= pairs.take(n));
        lemma_total_of_prefix(pairs, n + 1);
    }
}

} // verus!

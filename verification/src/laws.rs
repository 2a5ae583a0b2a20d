//! What holds of every bag, stated over the multisets that bags stand for.

use vstd::multiset::{group_multiset_axioms, Multiset};
use vstd::prelude::*;

use crate::bag::adjacent_pairs;

verus! {

/// The multiset reached from `start` by inserting the elements of `items`,
/// the first one first.
pub open spec fn insert_all<E>(start: Multiset<E>, items: Seq<E>) -> Multiset<E>
    decreases items.len(),
{
    if items.len() == 0 {
        start
    } else {
        insert_all(start, items.drop_last()).insert(items.last())
    }
}

/// Inserting an element raises its number of occurrences by exactly one, and
/// changes no other element's.
pub proof fn law_insert_increments_occurrence<E>(m: Multiset<E>, elem: E, other: E)
    ensures
        m.insert(elem).count(elem) == m.count(elem) + 1,
        other != elem ==> m.insert(elem).count(other) == m.count(other),
{
    broadcast use group_multiset_axioms;

}

/// Inserting the elements of a sequence one by one into an empty bag gives
/// the multiset of that sequence.
pub proof fn law_insert_all_is_multiset<E>(items: Seq<E>)
    ensures
        insert_all(Multiset::empty(), items) == items.to_multiset(),
    decreases items.len(),
{
    if items.len() == 0 {
        items.to_multiset_ensures();
        assert(items.to_multiset() =~= Multiset::empty());
    } else {
        law_insert_all_is_multiset(items.drop_last());
        items.drop_last().to_multiset_ensures();
        assert(items.drop_last().push(items.last()) =~= items);
    }
}

/// After `n` insertions a bag is `n` elements larger, whatever was inserted
/// and however often the elements repeat.
pub proof fn law_total_counts_insertions<E>(start: Multiset<E>, items: Seq<E>)
    ensures
        insert_all(start, items).len() == start.len() + items.len(),
    decreases items.len(),
{
    broadcast use group_multiset_axioms;

    if items.len() > 0 {
        law_total_counts_insertions(start, items.drop_last());
    }
}

/// No element occurs in an empty bag.
pub proof fn law_absent_from_empty<E>(elem: E)
    ensures
        Multiset::<E>::empty().count(elem) == 0,
{
    broadcast use group_multiset_axioms;

}

/// The order of insertion does not matter: two sequences with the same
/// elements, each as often, build the same bag.
pub proof fn law_insertion_order_is_irrelevant<E>(first: Seq<E>, second: Seq<E>)
    requires
        first.to_multiset() == second.to_multiset(),
    ensures
        insert_all(Multiset::empty(), first) == insert_all(Multiset::empty(), second),
{
    law_insert_all_is_multiset(first);
    law_insert_all_is_multiset(second);
}

/// Three elements in a row have two pairs of neighbours, and where the two
/// pairs differ each of them occurs once.
pub proof fn law_bigram_of_three<E>(a: E, b: E, c: E)
    ensures
        adjacent_pairs(seq![a, b, c]).to_multiset().len() == 2,
        (a, b) != (b, c) ==> {
            &&& adjacent_pairs(seq![a, b, c]).to_multiset().count((a, b)) == 1
            &&& adjacent_pairs(seq![a, b, c]).to_multiset().count((b, c)) == 1
        },
{
    broadcast use group_multiset_axioms;

    let pairs = adjacent_pairs(seq![a, b, c]);
    assert(pairs =~= seq![(a, b), (b, c)]);
    let one = seq![(a, b)];
    assert(one =~= Seq::<(E, E)>::empty().push((a, b)));
    assert(pairs =~= one.push((b, c)));
    Seq::<(E, E)>::empty().to_multiset_ensures();
    one.to_multiset_ensures();
    pairs.to_multiset_ensures();
    assert(Seq::<(E, E)>::empty().to_multiset() =~= Multiset::empty());
}

/// Fewer than two elements have no pair of neighbours.
pub proof fn law_bigram_of_short<E>(items: Seq<E>)
    requires
        items.len() < 2,
    ensures
        adjacent_pairs(items).to_multiset() == Multiset::<(E, E)>::empty(),
{
    assert(adjacent_pairs(items) =~= Seq::<(E, E)>::empty());
    adjacent_pairs(items).to_multiset_ensures();
    assert(adjacent_pairs(items).to_multiset() =~= Multiset::<(E, E)>::empty());
}

} // verus!

use std::collections::hash_map::Entry;
use std::collections::HashMap;
use std::hash::Hash;
use vstd::multiset::Multiset;
use vstd::prelude::*;
use vstd::set_lib::lemma_subset_equality;
use vstd::std_specs::hash::obeys_key_model;
use vstd::std_specs::iter::IteratorSpec;

use crate::iter::{Distinct, Frequency};
use crate::tally::{lemma_total_is_len, lemma_total_of_prefix, lists, total};

verus! {

/// An unordered multiset. Each distinct element is a key of `counts`, mapped
/// to the number of times it was inserted.
///
/// Its view is the `Multiset` of its elements. The element type has to behave
/// as a hash-table key (`obeys_key_model`): two values are equal to `==`
/// exactly when they are the same value, and equal values hash alike. The
/// constructors ask for that once; every bag that exists then has it.
#[derive(Debug)]
pub struct Bag<E: Eq + Hash> {
    counts: HashMap<E, usize>,
}

/// The multiset that a table of counts stands for.
spec fn multiset_of<E>(counts: Map<E, usize>) -> Multiset<E> {
    Multiset::from_map(Map::new(|e: E| counts.contains_key(e), |e: E| counts[e] as nat))
}

/// How often an element occurs in the multiset of a finite table: its stored
/// count, or zero where it has no entry.
proof fn lemma_multiset_of_count<E>(counts: Map<E, usize>, e: E)
    requires
        counts.dom().finite(),
    ensures
        multiset_of(counts).count(e) == (if counts.contains_key(e) {
            counts[e] as nat
        } else {
            0
        }),
{
    let m = Map::new(|e: E| counts.contains_key(e), |e: E| counts[e] as nat);
    assert(m.dom() =~= counts.dom());
}

/// A table without entries stands for the empty multiset.
proof fn lemma_multiset_of_empty<E>()
    ensures
        multiset_of(Map::<E, usize>::empty()) == Multiset::<E>::empty(),
{
    assert forall|e: E| multiset_of(Map::<E, usize>::empty()).count(e) == 0 by {
        lemma_multiset_of_count(Map::<E, usize>::empty(), e);
    }
    assert(multiset_of(Map::<E, usize>::empty()) =~= Multiset::<E>::empty());
}

impl<E: Eq + Hash> View for Bag<E> {
    type V = Multiset<E>;

    closed spec fn view(&self) -> Multiset<E> {
        multiset_of(self.counts@)
    }
}

impl<E: Eq + Hash> Bag<E> {
    /// The representation invariant: keys behave as hash-table keys, no key is
    /// stored with a count of zero, and the total fits in a `usize`.
    #[verifier::type_invariant]
    spec fn wf(&self) -> bool {
        &&& obeys_key_model::<E>()
        &&& forall|e: E| self.counts@.contains_key(e) ==> self.counts@[e] > 0
        &&& self@.len() <= usize::MAX
    }

    /// Creates a new empty `Bag`.
    pub fn new() -> (bag: Self)
        requires
            obeys_key_model::<E>(),
        ensures
            bag@ == Multiset::<E>::empty(),
            forall|e: E| bag@.count(e) == 0,
    {
        let counts = HashMap::new();
        proof {
            lemma_multiset_of_empty::<E>();
        }
        Bag { counts }
    }

    /// Counts the occurrences of `elem`; zero if it was never inserted.
    pub fn occurrence(&self, elem: &E) -> (n: usize)
        ensures
            n == self@.count(*elem),
    {
        proof {
            use_type_invariant(self);
            lemma_multiset_of_count(self.counts@, *elem);
        }
        match self.counts.get(elem) {
            Some(c) => *c,
            None => 0,
        }
    }

    /// Inserts one occurrence of `elem`.
    ///
    /// The counters are `usize`: a bag that already holds `usize::MAX`
    /// elements cannot take another one.
    pub fn insert(&mut self, elem: E)
        requires
            old(self)@.len() < usize::MAX,
        ensures
            final(self)@ == old(self)@.insert(elem),
            final(self)@.count(elem) == old(self)@.count(elem) + 1,
            forall|e: E| e != elem ==> final(self)@.count(e) == old(self)@.count(e),
            final(self)@.len() == old(self)@.len() + 1,
    {
        proof {
            use_type_invariant(&*self);
            lemma_multiset_of_count(self.counts@, elem);
        }
        // The table is taken out of `self` while its entry is open, so that
        // `self` is a well-formed (empty) bag at every point.
        let mut counts = HashMap::new();
        proof {
            lemma_multiset_of_empty::<E>();
        }
        std::mem::swap(&mut counts, &mut self.counts);
        match counts.entry(elem) {
            Entry::Vacant(slot) => {
                slot.insert(1);
            },
            Entry::Occupied(mut slot) => {
                let c = slot.get_mut();
                *c = *c + 1;
            },
        }
        proof {
            assert forall|e: E| multiset_of(counts@).count(e) == old(self)@.insert(elem).count(
                e,
            ) by {
                lemma_multiset_of_count(counts@, e);
                lemma_multiset_of_count(old(self).counts@, e);
            }
            assert(multiset_of(counts@) =~= old(self)@.insert(elem));
        }
        self.counts = counts;
    }

    /// Counts all the elements, including each duplicate.
    pub fn len(&self) -> (n: usize)
        ensures
            n == self@.len(),
    {
        let ghost walk = self.counts.iter().remaining().unref();
        proof {
            use_type_invariant(self);
            self.lemma_walk_lists(self.counts.iter().remaining());
        }
        let mut n: usize = 0;
        for pair in it: self.counts.iter()
            invariant
                it.seq().unref() == walk,
                total(walk) == self@.len() <= usize::MAX,
                n == total(walk.take(it.index())),
        {
            proof {
                lemma_total_of_prefix(walk, it.index());
                lemma_total_of_prefix(walk, it.index() + 1);
            }
            n = n + *pair.1;
        }
        assert(walk.take(walk.len() as int) =~= walk);
        n
    }

    /// Whether the bag holds no element at all.
    pub fn is_empty(&self) -> (empty: bool)
        ensures
            empty == (self@.len() == 0),
    {
        proof {
            use_type_invariant(self);
            if self.counts@.dom().is_empty() {
                assert(self.counts@ =~= Map::<E, usize>::empty());
                lemma_multiset_of_empty::<E>();
            } else {
                let e = choose|e: E| self.counts@.dom().contains(e);
                lemma_multiset_of_count(self.counts@, e);
                assert(self@.count(e) <= self@.len());
            }
        }
        self.counts.is_empty()
    }

    /// Inserts one occurrence of `elem`; another name for [`Bag::insert`].
    pub fn put(&mut self, elem: E)
        requires
            old(self)@.len() < usize::MAX,
        ensures
            final(self)@ == old(self)@.insert(elem),
            final(self)@.count(elem) == old(self)@.count(elem) + 1,
            forall|e: E| e != elem ==> final(self)@.count(e) == old(self)@.count(e),
            final(self)@.len() == old(self)@.len() + 1,
    {
        self.insert(elem)
    }

    /// The (element, count) pairs of the bag, one per distinct element, in
    /// no particular order.
    pub fn frequency<'a>(&'a self) -> (walk: Frequency<'a, E>)
        ensures
            lists(walk@, self@),
            total(walk@) == self@.len(),
    {
        let ghost all = self.counts.iter().remaining();
        proof {
            use_type_invariant(self);
            self.lemma_walk_lists(all);
        }
        let mut pairs: Vec<(&'a E, &'a usize)> = Vec::new();
        for pair in it: self.counts.iter()
            invariant
                it.seq() == all,
                all.no_duplicates(),
                pairs@ == all.take(it.index()),
        {
            pairs.push(pair);
            assert(pairs@ =~= all.take(it.index() + 1));
        }
        assert(all.take(all.len() as int) =~= all);
        Frequency::new(pairs)
    }

    /// The (element, count) pairs of the bag; another name for
    /// [`Bag::frequency`].
    pub fn iter<'a>(&'a self) -> (walk: Frequency<'a, E>)
        ensures
            lists(walk@, self@),
            total(walk@) == self@.len(),
    {
        self.frequency()
    }

    /// The distinct elements of the bag, each once, in no particular order.
    pub fn distinct<'a>(&'a self) -> (walk: Distinct<'a, E>)
        ensures
            walk@.no_duplicates(),
            forall|e: E| walk@.contains(e) <==> self@.count(e) > 0,
    {
        let ghost all = self.counts.keys().remaining();
        proof {
            use_type_invariant(self);
        }
        let mut elems: Vec<&'a E> = Vec::new();
        for elem in it: self.counts.keys()
            invariant
                it.seq() == all,
                elems@ == all.take(it.index()),
        {
            elems.push(elem);
            assert(elems@ =~= all.take(it.index() + 1));
        }
        proof {
            assert(all.take(all.len() as int) =~= all);
            assert forall|e: E| all.unref().contains(e) <==> self@.count(e) > 0 by {
                lemma_multiset_of_count(self.counts@, e);
                assert(all.unref().to_set().contains(e) <==> self.counts@.dom().contains(e));
            }
            assert forall|i: int, j: int|
                0 <= i < all.len() && 0 <= j < all.len() && i != j implies all.unref()[i]
                != all.unref()[j] by {
                assert(all[i] != all[j]);
            }
        }
        Distinct::new(elems)
    }

    /// The bag of the elements of `items`, each inserted once per occurrence.
    pub fn from_iter(items: Vec<E>) -> (bag: Self)
        requires
            obeys_key_model::<E>(),
        ensures
            bag@ == items@.to_multiset(),
            bag@.len() == items.len(),
    {
        let ghost all = items@;
        let mut bag = Bag::new();
        proof {
            assert(all.len() == items.len());
            assert(all.take(0) =~= Seq::<E>::empty());
            all.take(0).to_multiset_ensures();
            all.to_multiset_ensures();
        }
        for elem in it: items
            invariant
                it.seq() == all,
                all.len() <= usize::MAX,
                bag@ == all.take(it.index()).to_multiset(),
                bag@.len() == it.index(),
        {
            proof {
                let done = all.take(it.index());
                done.to_multiset_ensures();
                assert(all.take(it.index() + 1) =~= done.push(elem));
            }
            bag.insert(elem);
        }
        assert(all.take(all.len() as int) =~= all);
        bag
    }

    /// Whether two bags hold the same elements, each the same number of
    /// times.
    pub fn same_as(&self, other: &Self) -> (same: bool)
        ensures
            same == (self@ == other@),
    {
        let ghost all = self.counts.iter().remaining().unref();
        proof {
            use_type_invariant(self);
            use_type_invariant(other);
            self.lemma_walk_lists(self.counts.iter().remaining());
            if self@ == other@ {
                assert forall|e: E|
                    self.counts@.dom().contains(e) == other.counts@.dom().contains(e) by {
                    lemma_multiset_of_count(self.counts@, e);
                    lemma_multiset_of_count(other.counts@, e);
                }
                assert(self.counts@.dom() =~= other.counts@.dom());
            }
        }
        if self.counts.len() != other.counts.len() {
            return false;
        }
        for pair in it: self.counts.iter()
            invariant
                it.seq().unref() == all,
                lists(all, self@),
                forall|j: int| 0 <= j < it.index() ==> other@.count(all[j].0) == all[j].1,
        {
            if other.occurrence(pair.0) != *pair.1 {
                assert(self@.count(*pair.0) != other@.count(*pair.0));
                return false;
            }
        }
        proof {
            assert forall|e: E| self.counts@.dom().contains(e) implies other.counts@.dom().contains(
                e,
            ) by {
                lemma_multiset_of_count(self.counts@, e);
                lemma_multiset_of_count(other.counts@, e);
                let j = choose|j: int| 0 <= j < all.len() && all[j].0 == e;
                assert(other@.count(all[j].0) == all[j].1);
            }
            lemma_subset_equality(self.counts@.dom(), other.counts@.dom());
            assert forall|e: E| self@.count(e) == other@.count(e) by {
                lemma_multiset_of_count(self.counts@, e);
                lemma_multiset_of_count(other.counts@, e);
                if self.counts@.dom().contains(e) {
                    let j = choose|j: int| 0 <= j < all.len() && all[j].0 == e;
                    assert(other@.count(all[j].0) == all[j].1);
                }
            }
            assert(self@ =~= other@);
        }
        true
    }

    /// One walk over the table is a listing of the bag.
    proof fn lemma_walk_lists(&self, walk: Seq<(&E, &usize)>)
        requires
            self.wf(),
            walk == self.counts.iter().remaining(),
        ensures
            walk.no_duplicates() ==> lists(walk.unref(), self@),
            walk.no_duplicates() ==> total(walk.unref()) == self@.len(),
    {
        if walk.no_duplicates() {
            self.lemma_distinct_walk_lists(walk);
            lemma_total_is_len(walk.unref(), self@);
        }
    }

    proof fn lemma_distinct_walk_lists(&self, walk: Seq<(&E, &usize)>)
        requires
            self.wf(),
            walk == self.counts.iter().remaining(),
            walk.no_duplicates(),
        ensures
            lists(walk.unref(), self@),
    {
        let pairs = walk.unref();
        assert forall|i: int| 0 <= i < pairs.len() implies pairs[i].1 > 0 && #[trigger] pairs[i].1
            == self@.count(pairs[i].0) by {
            assert(self.counts@.contains_key(*walk[i].0));
            lemma_multiset_of_count(self.counts@, pairs[i].0);
        }
        assert forall|i: int, j: int| 0 <= i < j < pairs.len() implies pairs[i].0 != pairs[j].0 by {
            assert(self.counts@.contains_key(*walk[i].0));
            assert(self.counts@.contains_key(*walk[j].0));
            if pairs[i].0 == pairs[j].0 {
                assert(walk[i] == walk[j]);
            }
        }
        assert forall|e: E| self@.count(e) > 0 implies exists|i: int|
            0 <= i < pairs.len() && pairs[i].0 == e by {
            lemma_multiset_of_count(self.counts@, e);
            assert(self.counts@.contains_key(e));
            assert(walk.contains((&e, &self.counts@[e])));
            let i = choose|i: int| 0 <= i < walk.len() && walk[i] == (&e, &self.counts@[e]);
            assert(pairs[i].0 == e);
        }
    }
}

impl<E: Eq + Hash + Clone> Clone for Bag<E> {
    /// A bag of its own with the same elements, each as often.
    fn clone(&self) -> (copy: Self)
        ensures
            copy@ == self@,
    {
        proof {
            use_type_invariant(self);
        }
        Bag { counts: self.counts.clone() }
    }
}

/// The pairs of neighbours in `items`: the first with the second element, the
/// second with the third, and so on. Fewer than two elements have none.
pub open spec fn adjacent_pairs<E>(items: Seq<E>) -> Seq<(E, E)> {
    Seq::new(
        if items.len() >= 1 {
            (items.len() - 1) as nat
        } else {
            0
        },
        |i: int| (items[i], items[i + 1]),
    )
}

/// The bag of the pairs of neighbours in `items`.
pub fn bigram<E: Copy + Eq + Hash>(items: &[E]) -> (bag: Bag<(E, E)>)
    requires
        obeys_key_model::<(E, E)>(),
    ensures
        bag@ == adjacent_pairs(items@).to_multiset(),
        bag@.len() == adjacent_pairs(items@).len(),
        items.len() < 2 ==> bag@ == Multiset::<(E, E)>::empty(),
{
    let ghost pairs = adjacent_pairs(items@);
    let mut bag = Bag::new();
    proof {
        assert(pairs.take(0) =~= Seq::<(E, E)>::empty());
        pairs.take(0).to_multiset_ensures();
        pairs.to_multiset_ensures();
    }
    if items.len() < 2 {
        proof {
            assert(pairs =~= Seq::<(E, E)>::empty());
        }
        return bag;
    }
    let mut i: usize = 1;
    while i < items.len()
        invariant
            1 <= i <= items.len(),
            pairs == adjacent_pairs(items@),
            bag@ == pairs.take(i - 1).to_multiset(),
            bag@.len() == i - 1,
        decreases items.len() - i,
    {
        proof {
            let done = pairs.take(i - 1);
            done.to_multiset_ensures();
            assert(pairs.take(i as int) =~= done.push((items[i - 1], items[i as int])));
            pairs.take(i as int).to_multiset_ensures();
        }
        bag.insert((items[i - 1], items[i]));
        i = i + 1;
    }
    proof {
        assert(pairs.take(pairs.len() as int) =~= pairs);
    }
    bag
}

} // verus!

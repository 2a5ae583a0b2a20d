//! Traversals of a bag. Both are snapshots: they are taken when the traversal
//! starts, borrow the bag's elements, and hand them out one by one.

use vstd::prelude::*;

verus! {

/// A traversal of a bag's (element, count) pairs, one per distinct element.
pub struct Frequency<'a, E> {
    pairs: Vec<(&'a E, &'a usize)>,
    pos: usize,
}

impl<'a, E> View for Frequency<'a, E> {
    type V = Seq<(E, usize)>;

    /// The pairs still to come, in the order in which they will come.
    closed spec fn view(&self) -> Seq<(E, usize)> {
        self.pairs@.unref().skip(self.pos as int)
    }
}

impl<'a, E> Frequency<'a, E> {
    #[verifier::type_invariant]
    spec fn wf(&self) -> bool {
        self.pos <= self.pairs.len()
    }

    /// A traversal that hands out `pairs` from the first to the last.
    pub(crate) fn new(pairs: Vec<(&'a E, &'a usize)>) -> (walk: Self)
        ensures
            walk@ == pairs@.unref(),
    {
        let walk = Frequency { pairs, pos: 0 };
        assert(walk@ =~= pairs@.unref());
        walk
    }

    /// The next pair, or `None` once every pair has been handed out.
    pub fn next(&mut self) -> (item: Option<(&'a E, &'a usize)>)
        ensures
            match item {
                Some(pair) => {
                    &&& old(self)@.len() > 0
                    &&& (*pair.0, *pair.1) == old(self)@.first()
                    &&& final(self)@ == old(self)@.drop_first()
                },
                None => old(self)@.len() == 0 && final(self)@ == old(self)@,
            },
    {
        proof {
            use_type_invariant(&*self);
        }
        if self.pos < self.pairs.len() {
            let pair = self.pairs[self.pos];
            self.pos = self.pos + 1;
            assert(self@ =~= old(self)@.drop_first());
            Some(pair)
        } else {
            None
        }
    }

    /// The number of pairs still to come, as a lower and an upper bound.
    pub fn size_hint(&self) -> (bounds: (usize, Option<usize>))
        ensures
            bounds.0 == self@.len(),
            bounds.1 == Some(bounds.0),
    {
        proof {
            use_type_invariant(self);
        }
        let left = self.pairs.len() - self.pos;
        (left, Some(left))
    }
}

/// A traversal of a bag's distinct elements.
pub struct Distinct<'a, E> {
    elems: Vec<&'a E>,
    pos: usize,
}

impl<'a, E> View for Distinct<'a, E> {
    type V = Seq<E>;

    /// The elements still to come, in the order in which they will come.
    closed spec fn view(&self) -> Seq<E> {
        self.elems@.unref().skip(self.pos as int)
    }
}

impl<'a, E> Distinct<'a, E> {
    #[verifier::type_invariant]
    spec fn wf(&self) -> bool {
        self.pos <= self.elems.len()
    }

    /// A traversal that hands out `elems` from the first to the last.
    pub(crate) fn new(elems: Vec<&'a E>) -> (walk: Self)
        ensures
            walk@ == elems@.unref(),
    {
        let walk = Distinct { elems, pos: 0 };
        assert(walk@ =~= elems@.unref());
        walk
    }

    /// The next element, or `None` once every element has been handed out.
    pub fn next(&mut self) -> (item: Option<&'a E>)
        ensures
            match item {
                Some(elem) => {
                    &&& old(self)@.len() > 0
                    &&& *elem == old(self)@.first()
                    &&& final(self)@ == old(self)@.drop_first()
                },
                None => old(self)@.len() == 0 && final(self)@ == old(self)@,
            },
    {
        proof {
            use_type_invariant(&*self);
        }
        if self.pos < self.elems.len() {
            let elem = self.elems[self.pos];
            self.pos = self.pos + 1;
            assert(self@ =~= old(self)@.drop_first());
            Some(elem)
        } else {
            None
        }
    }

    /// The number of elements still to come, as a lower and an upper bound.
    pub fn size_hint(&self) -> (bounds: (usize, Option<usize>))
        ensures
            bounds.0 == self@.len(),
            bounds.1 == Some(bounds.0),
    {
        proof {
            use_type_invariant(self);
        }
        let left = self.elems.len() - self.pos;
        (left, Some(left))
    }
}

} // verus!

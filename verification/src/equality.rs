//! `==` on bags: two bags are equal exactly when they hold the same elements,
//! each the same number of times.

use std::hash::Hash;
use vstd::multiset::group_multiset_axioms;
use vstd::prelude::*;
use vstd::std_specs::cmp::{PartialEqSpec, PartialEqSpecImpl};

use crate::bag::Bag;

verus! {

impl<E: Eq + Hash> PartialEq for Bag<E> {
    fn eq(&self, other: &Self) -> (same: bool) {
        self.same_as(other)
    }
}

impl<E: Eq + Hash> PartialEqSpecImpl for Bag<E> {
    open spec fn obeys_eq_spec() -> bool {
        true
    }

    open spec fn eq_spec(&self, other: &Self) -> bool {
        self@ == other@
    }
}

/// Two bags are equal exactly when every element occurs as often in one as
/// in the other.
pub proof fn law_equality_is_structural<E: Eq + Hash>(a: Bag<E>, b: Bag<E>)
    ensures
        PartialEqSpec::eq_spec(&a, &b) <==> (forall|e: E| a@.count(e) == b@.count(e)),
{
    broadcast use group_multiset_axioms;

    if forall|e: E| a@.count(e) == b@.count(e) {
        assert(a@ =~= b@);
    }
}

} // verus!

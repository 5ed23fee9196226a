//! The order on items.
//!
//! Items are ranked by their [`Ord`] implementation. Everything the crate proves about
//! sortedness is stated over [`le`], and holds for item types whose `Ord` is a total order in
//! the sense of [`total_order`].

use core::cmp::Ordering;
use vstd::laws_cmp::obeys_cmp;
use vstd::prelude::*;
use vstd::std_specs::cmp::OrdSpec;
use vstd::std_specs::cmp::PartialOrdSpec;

verus! {

/// The comparison operators of `T` agree with each other and order the values of `T` totally.
///
/// Values may rank equal without being the same value.
pub open spec fn total_order<T: Ord>() -> bool {
    obeys_cmp::<T>()
}

/// `a` does not rank above `b`.
pub open spec fn le<T: Ord>(a: T, b: T) -> bool {
    a.cmp_spec(&b) != Ordering::Greater
}

/// `a` and `b` rank equal.
pub open spec fn same_rank<T: Ord>(a: T, b: T) -> bool {
    le(a, b) && le(b, a)
}

/// Items that rank equal are the same item.
pub open spec fn antisymmetric<T: Ord>() -> bool {
    forall|a: T, b: T| same_rank(a, b) ==> a == b
}

/// Every item ranks equal to itself.
pub proof fn lemma_le_reflexive<T: Ord>(a: T)
    requires
        total_order::<T>(),
    ensures
        le(a, a),
{
    reveal(vstd::laws_cmp::obeys_cmp_ord);
    reveal(vstd::laws_cmp::obeys_partial_cmp_spec_properties);
}

/// Of two items, one does not rank above the other.
pub proof fn lemma_le_total<T: Ord>(a: T, b: T)
    requires
        total_order::<T>(),
    ensures
        le(a, b) || le(b, a),
{
    reveal(vstd::laws_cmp::obeys_cmp_ord);
    reveal(vstd::laws_cmp::obeys_partial_cmp_spec_properties);
}

/// Ranking is transitive.
pub proof fn lemma_le_transitive<T: Ord>(a: T, b: T, c: T)
    requires
        total_order::<T>(),
        le(a, b),
        le(b, c),
    ensures
        le(a, c),
{
    reveal(vstd::laws_cmp::obeys_cmp_ord);
    reveal(vstd::laws_cmp::obeys_partial_cmp_spec_properties);
    reveal(vstd::laws_eq::obeys_eq_spec_properties);
}

/// Whether `a` does not rank above `b`, as `<=` tells it.
pub fn is_le<T: Ord>(a: &T, b: &T) -> (r: bool)
    ensures
        total_order::<T>() ==> r == le(*a, *b),
{
    proof {
        reveal(vstd::laws_cmp::obeys_cmp_ord);
        reveal(vstd::laws_cmp::obeys_cmp_partial_ord);
    }
    a <= b
}

} // verus!

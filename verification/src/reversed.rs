//! Ascending order by way of [`Reverse`].

use crate::iter::Iter;
use crate::order::{le, total_order};
use crate::sorted::{ascending, descending, tops};
use crate::SortBuf;
use core::cmp::Reverse;
use vstd::multiset::Multiset;
use vstd::prelude::*;

verus! {

/// `core::cmp::Reverse`: a wrapper around one value, its public field, which compares the
/// other way round than the value does. Declared with its field, so that items can be wrapped
/// and unwrapped. Of how wrapped items compare, only what Verus's library says is known.
#[verifier::external_type_specification]
#[verifier::reject_recursive_types(T)]
pub struct ExReverse<T>(Reverse<T>);

/// [`Reverse`] ranks wrapped items the other way round than the items themselves rank.
///
/// The standard library documents this. Verus's library does not state it, so it stands here
/// as a condition.
pub open spec fn reverse_turns_the_order<T: Ord>() -> bool {
    forall|a: T, b: T| #[trigger] le(Reverse(a), Reverse(b)) == le(b, a)
}

/// Each of `items` wrapped in [`Reverse`].
pub open spec fn reversed<T>(items: Seq<T>) -> Seq<Reverse<T>> {
    items.map_values(|item: T| Reverse(item))
}

/// Yields the items of a buffer of reversed items, unwrapped: in ascending order where the
/// buffer yields them in descending order of the wrappers.
#[verifier::reject_recursive_types(T)]
pub struct Unreversed<T: Ord> {
    iter: Iter<Reverse<T>>,
}

impl<T: Ord> Unreversed<T> {
    /// The iterator over the wrapped items.
    pub closed spec fn iter(&self) -> Iter<Reverse<T>> {
        self.iter
    }

    /// Takes the greatest of the wrapped items that are left, and unwraps it.
    pub fn next(&mut self) -> (item: Option<T>)
        requires
            old(self).iter().wf(),
            total_order::<Reverse<T>>(),
        ensures
            final(self).iter().wf(),
            final(self).iter().shrink_threshold() == old(self).iter().shrink_threshold(),
            match item {
                Some(x) => {
                    &&& old(self).iter().items().contains(Reverse(x))
                    &&& tops(Reverse(x), old(self).iter().items())
                    &&& final(self).iter().items() == old(self).iter().items().remove(Reverse(x))
                },
                None => {
                    &&& old(self).iter().items() == Multiset::<Reverse<T>>::empty()
                    &&& final(self).iter()@ == Seq::<Seq<Reverse<T>>>::empty()
                },
            },
    {
        match self.iter.next() {
            Some(wrapped) => Some(wrapped.0),
            None => None,
        }
    }

    /// Bounds on the number of items that are left, as `Iterator::size_hint` gives them.
    pub fn size_hint(&self) -> (hint: (usize, Option<usize>))
        ensures
            hint.0 == if self.iter().items().len() <= usize::MAX {
                self.iter().items().len()
            } else {
                usize::MAX as nat
            },
            hint.1 == if self.iter().items().len() <= usize::MAX {
                Some(self.iter().items().len() as usize)
            } else {
                None
            },
    {
        self.iter.size_hint()
    }

    /// Takes all items that are left, unwrapped, in descending order of the wrappers.
    pub fn into_vec(self) -> (items: Vec<T>)
        requires
            self.iter().wf(),
            total_order::<Reverse<T>>(),
        ensures
            descending(reversed(items@)),
            reversed(items@).to_multiset() == self.iter().items(),
            reverse_turns_the_order::<T>() ==> ascending(items@),
    {
        let wrapped = self.iter.into_vec();
        let ghost all = wrapped@;
        let mut items: Vec<T> = Vec::new();
        for item in source: wrapped.into_iter()
            invariant
                source.seq() == all,
                items.len() == source.index(),
                forall|i: int| 0 <= i < items.len() ==> Reverse(#[trigger] items@[i]) == all[i],
        {
            items.push(item.0);
        }
        proof {
            assert(reversed(items@) =~= all);
            if reverse_turns_the_order::<T>() {
                law_unreversed_items_ascend(items@);
            }
        }
        items
    }
}

impl<T: Ord> SortBuf<Reverse<T>> {
    /// Turns the buffer into an iterator over the items themselves, unwrapped from
    /// [`Reverse`]: in ascending order, where the wrappers rank the other way round.
    pub fn unreversed(self) -> (unreversed: Unreversed<T>)
        requires
            self.wf(),
            total_order::<Reverse<T>>(),
        ensures
            unreversed.iter().wf(),
            unreversed.iter().items() == self.items(),
    {
        Unreversed { iter: self.into_iter() }
    }
}

/// Where [`Reverse`] turns the order, items whose wrappers come in descending order come in
/// ascending order themselves.
pub proof fn law_unreversed_items_ascend<T: Ord>(items: Seq<T>)
    requires
        reverse_turns_the_order::<T>(),
        descending(reversed(items)),
    ensures
        ascending(items),
{
    assert forall|i: int, j: int| 0 <= i <= j < items.len() implies le(items[i], items[j]) by {
        assert(le(reversed(items)[j], reversed(items)[i]));
    }
}

} // verus!

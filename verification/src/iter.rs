//! Reading a sorting buffer in descending order.

use crate::bucket::{views, SortedBucket};
use crate::heap::{
    heap_from, heap_ordered, heapify, lemma_items_of_drop_last, lemma_root_ranks_highest,
    lemma_root_tops, sift_down,
};
use crate::order::{le, lemma_le_transitive, total_order};
use crate::runs::{items_of, lemma_items_of_empty, lemma_items_of_push};
use crate::sorted::{all_ascending, descending, tops};
use vstd::layout::size_of;
use vstd::multiset::Multiset;
use vstd::prelude::*;
use vstd::std_specs::convert::FromSpecImpl;

verus! {

/// Default for the unused memory that a bucket may hold before it is trimmed, in bytes.
pub const DEFAULT_SHRINK_THRESHOLD_BYTES: usize = 1024 * 1024;

/// The number of item slots that `bytes` bytes hold, an item counting for at least one byte.
pub open spec fn slots_per_bytes(bytes: nat, item_size: nat) -> nat {
    if item_size == 0 {
        bytes
    } else {
        bytes / item_size
    }
}

/// The number of item slots that `bytes` bytes hold.
fn slots_for<T>(bytes: usize) -> (slots: usize)
    ensures
        slots == slots_per_bytes(bytes as nat, size_of::<T>()),
{
    let item_size = core::mem::size_of::<T>();
    if item_size == 0 {
        bytes
    } else {
        bytes / item_size
    }
}

/// Yields the items of a sorting buffer in descending order: no item before one that ranks
/// above it.
///
/// The buckets of the buffer are kept in a heap, ranked by their greatest items, and each
/// item is taken from the bucket on top. A bucket that has given up enough items to leave a
/// given number of slots unused has its storage trimmed, so that memory is released while the
/// items are read.
///
/// For *n* items in buckets of *b* items, [`next`](Self::next) costs O(log(*n*/*b*)).
///
/// Deliberately not `Clone`: the iterator is meant for large amounts of data.
#[derive(Debug)]
pub struct Iter<T: Ord> {
    buckets: Vec<SortedBucket<T>>,
    shrink_threshold: usize,
}

impl<T: Ord> View for Iter<T> {
    type V = Seq<Seq<T>>;

    /// The buckets as they lie in the heap, each with the items it still holds, first to
    /// last.
    closed spec fn view(&self) -> Seq<Seq<T>> {
        views(self.buckets@)
    }
}

impl<T: Ord> Iter<T> {
    /// The items still to come, each as often as it will come.
    pub open spec fn items(&self) -> Multiset<T> {
        items_of(self@)
    }

    /// The number of unused slots at which a bucket's storage is trimmed.
    pub closed spec fn shrink_threshold(&self) -> nat {
        self.shrink_threshold as nat
    }

    /// The buckets are in heap order, and each is in ascending order.
    pub open spec fn wf(&self) -> bool {
        heap_ordered(self@) && all_ascending(self@)
    }

    /// Sets the number of unused item slots that a bucket may hold before its storage is
    /// trimmed.
    pub fn with_shrink_threshold(self, shrink_threshold: usize) -> (iter: Self)
        ensures
            iter@ == self@,
            iter.shrink_threshold() == shrink_threshold,
    {
        Iter { buckets: self.buckets, shrink_threshold }
    }

    /// Sets the unused memory that a bucket may hold before its storage is trimmed, in bytes.
    pub fn with_shrink_threshold_bytes(self, shrink_threshold: usize) -> (iter: Self)
        ensures
            iter@ == self@,
            iter.shrink_threshold() == slots_per_bytes(shrink_threshold as nat, size_of::<T>()),
    {
        self.with_shrink_threshold(slots_for::<T>(shrink_threshold))
    }

    /// Takes the greatest of the items that are left.
    ///
    /// Where several items rank equal, any one of them may come first.
    pub fn next(&mut self) -> (item: Option<T>)
        requires
            old(self).wf(),
            total_order::<T>(),
        ensures
            final(self).wf(),
            final(self).shrink_threshold() == old(self).shrink_threshold(),
            match item {
                Some(x) => {
                    &&& old(self).items().contains(x)
                    &&& tops(x, old(self).items())
                    &&& final(self).items() == old(self).items().remove(x)
                },
                None => {
                    &&& old(self).items() == Multiset::<T>::empty()
                    &&& final(self)@ == Seq::<Seq<T>>::empty()
                },
            },
    {
        while self.buckets.len() > 0
            invariant
                self.wf(),
                total_order::<T>(),
                self.shrink_threshold == old(self).shrink_threshold,
                self.items() == old(self).items(),
            decreases self.buckets.len(),
        {
            let ghost runs = self@;
            proof {
                lemma_root_tops(runs);
            }
            match self.buckets[0].next() {
                Some(x) => {
                    if self.buckets[0].overcapacity() >= self.shrink_threshold {
                        self.buckets[0].shink_to_fit();
                    }
                    proof {
                        // The first bucket has lost its last item. Below it, the heap is as
                        // it was.
                        let popped = views(self.buckets@);
                        assert(popped =~= runs.update(0, runs[0].drop_last()));
                        lemma_items_of_drop_last(runs, 0);
                        assert(heap_from(popped, 1));
                        assert(all_ascending(popped));
                    }
                    sift_down(&mut self.buckets, 0);
                    return Some(x);
                },
                None => {
                    self.buckets.swap_remove(0);
                    proof {
                        // No bucket ranks above the first, which has no items: no bucket has
                        // any, and the heap is in order whatever took the first place.
                        let evicted = views(self.buckets@);
                        assert forall|i: int|
                            0 <= i < runs.len() implies #[trigger] runs[i].len() == 0 by {
                            lemma_root_ranks_highest(runs, i);
                        }
                        assert forall|i: int|
                            0 <= i < evicted.len() implies #[trigger] evicted[i].len() == 0 by {
                            if i == 0 {
                                assert(evicted[0] == runs[runs.len() - 1]);
                            } else {
                                assert(evicted[i] == runs[i]);
                            }
                        }
                        lemma_no_items(evicted);
                    }
                },
            }
        }
        proof {
            lemma_items_of_empty::<T>();
        }
        None
    }

    /// Bounds on the number of items that are left, as `Iterator::size_hint` gives them: the
    /// number itself, twice, as far as it fits the type.
    pub fn size_hint(&self) -> (hint: (usize, Option<usize>))
        ensures
            hint.0 == if self.items().len() <= usize::MAX {
                self.items().len()
            } else {
                usize::MAX as nat
            },
            hint.1 == if self.items().len() <= usize::MAX {
                Some(self.items().len() as usize)
            } else {
                None
            },
    {
        let n = self.buckets.len();
        let mut total: Option<usize> = Some(0);
        let mut i: usize = 0;
        proof {
            lemma_items_of_empty::<T>();
        }
        while i < n
            invariant
                n == self.buckets.len(),
                i <= n,
                total == if items_of(self@.take(i as int)).len() <= usize::MAX {
                    Some(items_of(self@.take(i as int)).len() as usize)
                } else {
                    None
                },
            decreases n - i,
        {
            proof {
                // one more bucket adds as many items as it holds
                let run = self@[i as int];
                assert(self@.take(i + 1) =~= self@.take(i as int).push(run));
                lemma_items_of_push(self@.take(i as int), run);
                run.to_multiset_ensures();
            }
            total = match total {
                Some(sum) => sum.checked_add(self.buckets[i].len()),
                None => None,
            };
            i = i + 1;
        }
        proof {
            assert(self@.take(n as int) =~= self@);
        }
        match total {
            Some(sum) => (sum, Some(sum)),
            None => (usize::MAX, None),
        }
    }

    /// The number of items that are left.
    pub fn len(&self) -> (n: usize)
        requires
            self.items().len() <= usize::MAX,
        ensures
            n == self.items().len(),
    {
        self.size_hint().0
    }

    /// Takes all items that are left, in descending order.
    pub fn into_vec(self) -> (items: Vec<T>)
        requires
            self.wf(),
            total_order::<T>(),
        ensures
            descending(items@),
            items@.to_multiset() == self.items(),
            items@.len() == self.items().len(),
    {
        let mut iter = self;
        let mut items: Vec<T> = Vec::new();
        proof {
            items@.to_multiset_ensures();
        }
        loop
            invariant
                iter.wf(),
                total_order::<T>(),
                descending(items@),
                items@.to_multiset().add(iter.items()) == self.items(),
                items@.len() > 0 ==> tops(items@.last(), iter.items()),
            ensures
                descending(items@),
                items@.to_multiset() == self.items(),
                items@.len() == self.items().len(),
            decreases iter.items().len(),
        {
            let ghost before = items@;
            match iter.next() {
                Some(x) => {
                    items.push(x);
                    proof {
                        before.to_multiset_ensures();
                        assert forall|i: int, j: int| 0 <= i <= j < items@.len() implies le(
                            items@[j],
                            items@[i],
                        ) by {
                            // the new item ranks below the last, which ranks below the others
                            if i < before.len() && j == before.len() {
                                lemma_le_transitive(x, before.last(), before[i]);
                            }
                        }
                    }
                },
                None => {
                    proof {
                        lemma_items_of_empty::<T>();
                        items@.to_multiset_ensures();
                    }
                    break ;
                },
            }
        }
        items
    }
}

impl<T: Ord> From<Vec<SortedBucket<T>>> for Iter<T> {
    /// Puts `buckets` in heap order. A bucket's storage is trimmed once
    /// [`DEFAULT_SHRINK_THRESHOLD_BYTES`] of it are unused.
    fn from(buckets: Vec<SortedBucket<T>>) -> (iter: Self)
        ensures
            iter.items() == items_of(views(buckets@)),
            iter.shrink_threshold() == slots_per_bytes(
                DEFAULT_SHRINK_THRESHOLD_BYTES as nat,
                size_of::<T>(),
            ),
            total_order::<T>() && all_ascending(views(buckets@)) ==> iter.wf(),
    {
        let mut buckets = buckets;
        heapify(&mut buckets);
        Iter { buckets, shrink_threshold: slots_for::<T>(DEFAULT_SHRINK_THRESHOLD_BYTES) }
    }
}

impl<T: Ord> FromSpecImpl<Vec<SortedBucket<T>>> for Iter<T> {
    /// The heap that comes of given buckets is stated in the contract of `from`, not as a
    /// function of them.
    open spec fn obeys_from_spec() -> bool {
        false
    }

    closed spec fn from_spec(buckets: Vec<SortedBucket<T>>) -> Self {
        Iter { buckets, shrink_threshold: 0 }
    }
}

/// Runs without items hold no items.
proof fn lemma_no_items<T>(runs: Seq<Seq<T>>)
    requires
        forall|i: int| 0 <= i < runs.len() ==> #[trigger] runs[i].len() == 0,
    ensures
        items_of(runs) == Multiset::<T>::empty(),
{
    assert forall|y: T| items_of(runs).count(y) == 0 by {
        if items_of(runs).count(y) > 0 {
            crate::heap::lemma_items_of_member(runs, y);
        }
    }
}

} // verus!

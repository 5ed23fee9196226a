//! Buckets: sealed, sorted runs of items.

use crate::order::{antisymmetric, is_le, total_order};
use crate::sorted::{ascending, lemma_ascending_agree, run_le, sorted_run_of};
use vstd::prelude::*;
use vstd::std_specs::convert::FromSpecImpl;

verus! {

/// Default size of a bucket, in bytes: 16 MiB.
///
/// Large enough for good sorting performance, small enough that a few inserters on each core
/// of a small machine can hold one bucket in the making without exhausting its memory.
pub const DEFAULT_BUCKET_BYTESIZE: usize = 16 * 1024 * 1024;

/// `Vec::shrink_to_fit`: gives unused capacity back to the allocator. The items stay as they
/// are.
#[verifier::external_body]
fn shrink_to_fit<T>(items: &mut Vec<T>)
    ensures
        final(items)@ == old(items)@,
{
    items.shrink_to_fit()
}

/// `Vec::capacity`: the number of items the vector can hold without reallocating, which is
/// never less than its length.
#[verifier::external_body]
fn capacity<T>(items: &Vec<T>) -> (c: usize)
    ensures
        c >= items@.len(),
{
    items.capacity()
}

/// `slice::sort_unstable`: sorts in place, ascending by `Ord`, keeping every item. Items that
/// rank equal may change places. The standard library may panic where `Ord` is not a total
/// order, hence the precondition.
#[verifier::external_body]
fn sort_unstable<T: Ord>(items: &mut Vec<T>)
    requires
        total_order::<T>(),
    ensures
        sorted_run_of(final(items)@, old(items)@),
{
    items.sort_unstable()
}

/// A run of items, sorted once and sealed, on its way into a sorting buffer.
///
/// Deliberately not `Clone`: a bucket owns a significant amount of data.
#[derive(Debug)]
pub struct Bucket<T>(Vec<T>);

impl<T> View for Bucket<T> {
    type V = Seq<T>;

    /// The items, first to last.
    closed spec fn view(&self) -> Seq<T> {
        self.0@
    }
}

impl<T: Ord> Bucket<T> {
    /// The items are in ascending order.
    pub open spec fn wf(&self) -> bool {
        ascending(self@)
    }

    /// Seals `items` into a bucket: trims the storage to the items and sorts them.
    ///
    /// Costs O(*b* log *b*) comparisons for *b* items.
    pub fn new(items: Vec<T>) -> (bucket: Self)
        requires
            total_order::<T>(),
        ensures
            bucket.wf(),
            bucket@.to_multiset() == items@.to_multiset(),
            antisymmetric::<T>() && ascending(items@) ==> bucket@ == items@,
    {
        let ghost given = items@;
        let mut items = items;
        shrink_to_fit(&mut items);
        sort_unstable(&mut items);
        proof {
            // items that were in order already stay as they are
            if antisymmetric::<T>() && ascending(given) {
                lemma_ascending_agree(items@, given);
            }
        }
        Bucket(items)
    }

    /// Opens the bucket and hands out its items, still in ascending order.
    pub fn into_inner(self) -> (items: Vec<T>)
        ensures
            items@ == self@,
    {
        self.0
    }

    /// The number of items in the bucket.
    pub fn len(&self) -> (n: usize)
        ensures
            n == self@.len(),
    {
        self.0.len()
    }
}

/// A bucket that is read from its greatest item down.
///
/// The items are kept in ascending order, and [`SortedBucket::next`] takes the last. Two such
/// buckets compare by their last items, see [`SortedBucket::precedes`].
///
/// Deliberately not `Clone`: a bucket owns a significant amount of data.
#[derive(Debug)]
pub struct SortedBucket<T: Ord>(Vec<T>);

impl<T: Ord> View for SortedBucket<T> {
    type V = Seq<T>;

    /// The items still in the bucket, in the order in which they are stored.
    closed spec fn view(&self) -> Seq<T> {
        self.0@
    }
}

/// The number of slots that `len` items leave unused in a storage of `capacity` slots.
pub open spec fn unused_slots(len: nat, capacity: nat) -> nat {
    if capacity >= len {
        (capacity - len) as nat
    } else {
        0
    }
}

/// The items of each of `buckets`.
pub open spec fn views<T: Ord>(buckets: Seq<SortedBucket<T>>) -> Seq<Seq<T>> {
    Seq::new(buckets.len(), |i: int| buckets[i]@)
}

impl<T: Ord> SortedBucket<T> {
    /// The items are in ascending order.
    pub open spec fn wf(&self) -> bool {
        ascending(self@)
    }

    /// A bucket without items, which owns no storage.
    pub(crate) fn empty() -> (bucket: Self)
        ensures
            bucket@ == Seq::<T>::empty(),
    {
        SortedBucket(Vec::new())
    }

    /// The number of further items the bucket's storage has room for: what its capacity
    /// leaves unused.
    ///
    /// The capacity is what the allocator handed out. It is not less than the number of
    /// items, and no more is known of it.
    pub fn overcapacity(&self) -> (unused: usize)
        ensures
            exists|capacity: usize|
                self@.len() <= capacity && unused == #[trigger] unused_slots(
                    self@.len(),
                    capacity as nat,
                ),
    {
        self.overcapacity_of(capacity(&self.0))
    }

    /// The number of further items the bucket has room for if its storage holds `capacity`
    /// items.
    pub fn overcapacity_of(&self, capacity: usize) -> (unused: usize)
        ensures
            unused == unused_slots(self@.len(), capacity as nat),
    {
        if capacity >= self.0.len() {
            capacity - self.0.len()
        } else {
            0
        }
    }

    /// Sheds the overcapacity: trims the storage to the items that are left.
    pub fn shink_to_fit(&mut self)
        ensures
            final(self)@ == old(self)@,
    {
        shrink_to_fit(&mut self.0)
    }

    /// The number of items still in the bucket.
    pub fn len(&self) -> (n: usize)
        ensures
            n == self@.len(),
    {
        self.0.len()
    }

    /// Whether this bucket does not rank above `other`: buckets rank by their last items, and
    /// one without items ranks lowest.
    pub fn precedes(&self, other: &Self) -> (r: bool)
        ensures
            total_order::<T>() ==> r == run_le(self@, other@),
    {
        if self.0.len() == 0 {
            true
        } else if other.0.len() == 0 {
            false
        } else {
            is_le(&self.0[self.0.len() - 1], &other.0[other.0.len() - 1])
        }
    }

    /// Takes the last item out of the bucket, which is its greatest if the bucket is
    /// well-formed.
    pub fn next(&mut self) -> (item: Option<T>)
        ensures
            old(self)@.len() == 0 ==> item is None && final(self)@ == old(self)@,
            old(self)@.len() > 0 ==> {
                &&& item == Some(old(self)@.last())
                &&& final(self)@ == old(self)@.drop_last()
            },
            old(self).wf() ==> final(self).wf(),
    {
        self.0.pop()
    }
}

impl<T: Ord> From<Bucket<T>> for SortedBucket<T> {
    /// Turns the bucket into one that is read from its greatest item down, without moving an
    /// item.
    fn from(bucket: Bucket<T>) -> (sorted: Self)
        ensures
            sorted@ == bucket@,
    {
        SortedBucket(bucket.0)
    }
}

impl<T: Ord> FromSpecImpl<Bucket<T>> for SortedBucket<T> {
    open spec fn obeys_from_spec() -> bool {
        true
    }

    closed spec fn from_spec(bucket: Bucket<T>) -> Self {
        SortedBucket(bucket.0)
    }
}

} // verus!

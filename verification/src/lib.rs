//! Sort a large number of items in memory.
//!
//! Items are fed through [`Inserter`]s, which collect them into sorted [`Bucket`]s and commit
//! those to a [`SortBuf`]. The buffer is then turned into an [`Iter`], which merges the
//! buckets and yields the items in descending order. For ascending order, the items go in
//! wrapped in [`core::cmp::Reverse`] and come out unwrapped by [`SortBuf::unreversed`].
//!
//! Insertion sorts one bucket at a time, and several inserters may feed one buffer, so a
//! large part of the sorting can be done in parallel. Iteration releases memory as it goes.
//!
//! ```
//! use sortbuf::{Inserter, SortBuf};
//!
//! let mut inserter = Inserter::new(SortBuf::new());
//! inserter.insert_items(&mut [10, 20, 5, 17].into_iter()).expect("Failed to insert items");
//! let sortbuf = inserter.finish().map_err(|(e, _)| e).expect("Failed to add final bucket");
//! assert_eq!(sortbuf.into_iter().into_vec(), [20, 17, 10, 5]);
//! ```
//!
//! What the crate promises is proved for item types whose order Verus knows to be total, see
//! [`order::total_order`]. The module [`laws`] states what holds of insertion and reading
//! taken together.

use crate::bucket::{views, SortedBucket};
use crate::iter::{slots_per_bytes, DEFAULT_SHRINK_THRESHOLD_BYTES};
use crate::order::total_order;
use crate::runs::items_of;
use crate::sorted::all_ascending;
use vstd::layout::size_of;
use vstd::multiset::Multiset;
use vstd::prelude::*;

pub mod accumulator;
pub mod bucket;
pub mod error;
pub mod heap;
pub mod inserter;
pub mod iter;
pub mod laws;
pub mod order;
pub mod reversed;
pub mod runs;
pub mod sorted;

pub use crate::accumulator::BucketAccumulator;
pub use crate::bucket::{Bucket, DEFAULT_BUCKET_BYTESIZE};
pub use crate::inserter::Inserter;
pub use crate::iter::Iter;

verus! {

/// A buffer that takes items in as sorted buckets and gives them back in descending order.
///
/// Insert through an [`Inserter`] made for the buffer. For ascending iteration, insert the
/// items wrapped in [`core::cmp::Reverse`].
///
/// With buckets of *b* items, inserting *n* items costs O(*n* log *b*) and iterating over them
/// O(*n* log(*n*/*b*)). Fewer and larger buckets make iteration faster.
///
/// Deliberately not `Clone`: the buffer is meant for large amounts of data.
pub struct SortBuf<T: Ord> {
    buckets: Vec<SortedBucket<T>>,
}

impl<T: Ord> View for SortBuf<T> {
    type V = Seq<Seq<T>>;

    /// The buckets in the order in which they were committed, each with its items first to
    /// last.
    closed spec fn view(&self) -> Seq<Seq<T>> {
        views(self.buckets@)
    }
}

impl<T: Ord> SortBuf<T> {
    /// Every bucket is in ascending order.
    pub open spec fn wf(&self) -> bool {
        all_ascending(self@)
    }

    /// All items in the buffer, each as often as it was committed.
    pub open spec fn items(&self) -> Multiset<T> {
        items_of(self@)
    }

    /// Creates an empty buffer.
    pub fn new() -> (buf: Self)
        ensures
            buf@ == Seq::<Seq<T>>::empty(),
            buf.wf(),
    {
        SortBuf { buckets: Vec::new() }
    }

    /// Takes the contents out of the buffer and leaves it empty.
    pub fn take(&mut self) -> (contents: Self)
        ensures
            contents@ == old(self)@,
            final(self)@ == Seq::<Seq<T>>::empty(),
    {
        let mut contents = SortBuf::new();
        core::mem::swap(self, &mut contents);
        contents
    }

    /// Turns the buffer into an iterator over its items, in descending order.
    pub fn into_iter(self) -> (iter: Iter<T>)
        requires
            self.wf(),
            total_order::<T>(),
        ensures
            iter.wf(),
            iter.items() == self.items(),
            iter.shrink_threshold() == slots_per_bytes(
                DEFAULT_SHRINK_THRESHOLD_BYTES as nat,
                size_of::<T>(),
            ),
    {
        Iter::from(self.buckets)
    }
}

impl<T: Ord> Default for SortBuf<T> {
    fn default() -> (buf: Self)
        ensures
            buf@ == Seq::<Seq<T>>::empty(),
            buf.wf(),
    {
        SortBuf::new()
    }
}

} // verus!

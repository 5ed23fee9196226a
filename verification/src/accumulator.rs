//! Accumulators: what sealed buckets are committed to.

use crate::bucket::{Bucket, SortedBucket};
use crate::error::{InsertionError, InsertionResult};
use crate::runs::{items_of, lemma_items_of_concat, lemma_seals_keeps_items, seals};
use crate::sorted::{ascending, sorted_run_of};
use crate::SortBuf;
use std::collections::TryReserveError;
use vstd::prelude::*;

verus! {

/// Something that takes in sealed buckets, usually to hand their items out in order later.
///
/// The crate implements this for [`SortBuf`] and for exclusive references. An accumulator
/// that is shared between threads is a type of its own that locks, adds the bucket to what
/// the lock guards, and unlocks.
///
/// An accumulator may say what it holds, by [`tracks`](Self::tracks) and
/// [`contents`](Self::contents), and [`add_bucket`](Self::add_bucket) then promises how the
/// contents change. One that does not, as one behind a lock cannot, promises only that a
/// rejected bucket comes back with its items.
pub trait BucketAccumulator: Sized {
    /// The type of the items in the buckets.
    type Item: Ord;

    /// Whether accumulators of this type say what they hold.
    open spec fn tracks() -> bool {
        false
    }

    /// The buckets that the accumulator holds, in the order in which it took them in, if
    /// accumulators of this type say what they hold.
    open spec fn contents(self) -> Seq<Seq<Self::Item>> {
        Seq::empty()
    }

    /// Adds `bucket` to the accumulator.
    ///
    /// Fails only where storage could not be grown. The accumulator then holds what it held,
    /// and the bucket comes back with the error, its items untouched.
    fn add_bucket(&mut self, bucket: Bucket<Self::Item>) -> (r: InsertionResult<
        Bucket<Self::Item>,
    >)
        ensures
            match r {
                Ok(()) => Self::tracks() ==> (*final(self)).contents() == (*old(
                    self,
                )).contents().push(bucket@),
                Err((_, rejected)) => {
                    &&& rejected@ == bucket@
                    &&& Self::tracks() ==> (*final(self)).contents() == (*old(self)).contents()
                },
            },
    ;
}

/// `post` is `pre` after it took in `buckets`, one after the other, and nothing else.
///
/// Of an accumulator that does not say what it holds, this tells nothing.
pub open spec fn takes_in<A: BucketAccumulator>(pre: A, buckets: Seq<Seq<A::Item>>, post: A) -> bool {
    A::tracks() ==> post.contents() == pre.contents() + buckets
}

/// An accumulator that holds what it held has taken in nothing.
pub proof fn lemma_takes_in_nothing<A: BucketAccumulator>(pre: A, post: A)
    requires
        A::tracks() ==> post.contents() == pre.contents(),
    ensures
        takes_in(pre, Seq::empty(), post),
{
    assert(pre.contents() + Seq::<Seq<A::Item>>::empty() =~= pre.contents());
}

/// An accumulator that holds one more bucket has taken it in.
pub proof fn lemma_takes_in_one<A: BucketAccumulator>(pre: A, bucket: Seq<A::Item>, post: A)
    requires
        A::tracks() ==> post.contents() == pre.contents().push(bucket),
    ensures
        takes_in(pre, seq![bucket], post),
{
    assert(pre.contents().push(bucket) =~= pre.contents() + seq![bucket]);
}

/// Taking in some buckets and then some more is taking in all of them.
pub proof fn lemma_takes_in_more<A: BucketAccumulator>(
    pre: A,
    first: Seq<Seq<A::Item>>,
    mid: A,
    then: Seq<Seq<A::Item>>,
    post: A,
)
    requires
        takes_in(pre, first, mid),
        takes_in(mid, then, post),
    ensures
        takes_in(pre, first + then, post),
{
    assert(pre.contents() + (first + then) =~= (pre.contents() + first) + then);
}

impl<A: BucketAccumulator> BucketAccumulator for &mut A {
    type Item = A::Item;

    open spec fn tracks() -> bool {
        A::tracks()
    }

    /// What the accumulator behind the reference holds.
    open spec fn contents(self) -> Seq<Seq<A::Item>> {
        (*self).contents()
    }

    fn add_bucket(&mut self, bucket: Bucket<A::Item>) -> (r: InsertionResult<Bucket<A::Item>>) {
        (**self).add_bucket(bucket)
    }
}

impl<T: Ord> SortBuf<T> {
    /// Adds `bucket` behind the buckets of the buffer if room for it was `reserved`, and hands
    /// it back with the error if not.
    pub fn place(&mut self, bucket: Bucket<T>, reserved: Result<(), TryReserveError>) -> (r:
        InsertionResult<Bucket<T>>)
        ensures
            match reserved {
                Ok(()) => r is Ok && final(self)@ == old(self)@.push(bucket@),
                Err(e) => {
                    &&& r matches Err((error, rejected))
                    &&& error.reservation() == e
                    &&& rejected == bucket
                    &&& final(self)@ == old(self)@
                },
            },
    {
        match reserved {
            Ok(()) => {
                self.buckets.push(SortedBucket::from(bucket));
                Ok(())
            },
            Err(e) => Err((InsertionError::from(e), bucket)),
        }
    }
}

impl<T: Ord> BucketAccumulator for SortBuf<T> {
    type Item = T;

    open spec fn tracks() -> bool {
        true
    }

    /// The buckets of the buffer.
    open spec fn contents(self) -> Seq<Seq<T>> {
        self@
    }

    /// Adds `bucket` behind the buckets of the buffer.
    fn add_bucket(&mut self, bucket: Bucket<T>) -> (r: InsertionResult<Bucket<T>>) {
        let reserved = self.buckets.try_reserve(1);
        self.place(bucket, reserved)
    }
}

/// `post` is `pre` after it took in one sorted bucket for each of `chunks`, in their order.
pub open spec fn commits<A: BucketAccumulator>(pre: A, chunks: Seq<Seq<A::Item>>, post: A) -> bool {
    exists|buckets: Seq<Seq<A::Item>>|
        seals(chunks, buckets) && #[trigger] takes_in(pre, buckets, post)
}

/// Committing some chunks and then some more is committing all of them.
pub proof fn lemma_commits_more<A: BucketAccumulator>(
    pre: A,
    first: Seq<Seq<A::Item>>,
    mid: A,
    then: Seq<Seq<A::Item>>,
    post: A,
)
    requires
        commits(pre, first, mid),
        commits(mid, then, post),
    ensures
        commits(pre, first + then, post),
{
    let b1 = choose|buckets: Seq<Seq<A::Item>>|
        seals(first, buckets) && #[trigger] takes_in(pre, buckets, mid);
    let b2 = choose|buckets: Seq<Seq<A::Item>>|
        seals(then, buckets) && #[trigger] takes_in(mid, buckets, post);
    lemma_takes_in_more(pre, b1, mid, b2, post);
    assert(seals(first + then, b1 + b2));
}

/// A buffer that took in buckets for some chunks still has every bucket in order, and holds
/// what it held and the items of the chunks.
pub proof fn lemma_commits_keep_buffer_well_formed<T: Ord>(
    before: SortBuf<T>,
    chunks: Seq<Seq<T>>,
    after: SortBuf<T>,
)
    requires
        before.wf(),
        commits(before, chunks, after),
    ensures
        after.wf(),
        after.items() == before.items().add(items_of(chunks)),
{
    let buckets = choose|buckets: Seq<Seq<T>>|
        seals(chunks, buckets) && #[trigger] takes_in(before, buckets, after);
    lemma_items_of_concat(before@, buckets);
    lemma_seals_keeps_items(chunks, buckets);
    assert forall|i: int| 0 <= i < after@.len() implies ascending(#[trigger] after@[i]) by {
        if i >= before@.len() {
            assert(sorted_run_of(buckets[i - before@.len()], chunks[i - before@.len()]));
        }
    }
}

} // verus!

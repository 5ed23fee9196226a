//! Adding items to a sorting buffer.

use crate::accumulator::{
    commits, lemma_commits_more, lemma_takes_in_nothing, lemma_takes_in_one, takes_in,
    BucketAccumulator,
};
use crate::bucket::{Bucket, DEFAULT_BUCKET_BYTESIZE};
use crate::error::{InsertionError, InsertionResult};
use crate::order::total_order;
use crate::runs::{
    lemma_seal_first, lemma_seal_next, lemma_seal_rest, limit_after, seals, sealed_chunks,
    unsealed_rest,
};
use crate::sorted::sorted_run_of;
use core::cmp::Reverse;
use std::collections::TryReserveError;
use vstd::layout::size_of;
use vstd::prelude::*;
use vstd::std_specs::iter::IteratorSpec;

verus! {

/// The number of items that a byte budget pays for, at least one: `bytesize` divided by the
/// size of an item, an item counting for at least one byte.
pub open spec fn items_per_bytes(bytesize: nat, item_size: nat) -> nat {
    let size = if item_size == 0 {
        1
    } else {
        item_size
    };
    if bytesize / size == 0 {
        1
    } else {
        bytesize / size
    }
}

/// The chunk that is sealed from the pending items `pending`: none if there are no items.
pub open spec fn flushed<T>(pending: Seq<T>) -> Seq<Seq<T>> {
    if pending.len() == 0 {
        Seq::empty()
    } else {
        seq![pending]
    }
}

/// The items that a source has given up, where it had `before` left to give and now has
/// `after`.
pub open spec fn given<T>(before: Seq<T>, after: Seq<T>) -> Seq<T> {
    before.take(before.len() - after.len())
}

/// A source that had `before` left to give has given up some first items of it, and has
/// `after` left.
pub open spec fn advanced<T>(before: Seq<T>, after: Seq<T>) -> bool {
    after.len() <= before.len() && after == before.skip(before.len() - after.len())
}

/// What an insertion does to an inserter.
///
/// The inserter was `pre` and is `post`. The source has yielded the items `taken` and has
/// `left` more to give. The items that were pending and then `taken` passed through the
/// pending buffer, which cut them into [`sealed_chunks`].
///
/// An insertion that went `ok` has taken all there was, has committed every chunk, and holds
/// the [`unsealed_rest`].
///
/// One that failed has stopped where a chunk ends. Either every chunk is committed and
/// nothing is pending, but no room could be reserved for more pending items. Or the bucket
/// for the last chunk was rejected: the chunks before it are committed, and its items are
/// pending, sorted as they were in the bucket.
pub open spec fn inserted<A: BucketAccumulator>(
    pre: Inserter<A>,
    taken: Seq<A::Item>,
    left: nat,
    post: Inserter<A>,
    ok: bool,
) -> bool {
    let limit = pre.next_limit();
    let size = pre.target();
    let passed = pre.pending() + taken;
    let chunks = sealed_chunks(passed, limit, size);
    if ok {
        &&& left == 0
        &&& commits(pre.accumulator(), chunks, post.accumulator())
        &&& post.pending() == unsealed_rest(passed, limit, size)
        &&& post.limit() == limit_after(passed.len(), limit, size)
    } else {
        &&& unsealed_rest(passed, limit, size).len() == 0
        &&& post.limit() == post.pending().len()
        &&& {
            ||| {
                &&& commits(pre.accumulator(), chunks, post.accumulator())
                &&& post.pending().len() == 0
            }
            ||| {
                &&& chunks.len() > 0
                &&& commits(pre.accumulator(), chunks.drop_last(), post.accumulator())
                &&& sorted_run_of(post.pending(), chunks.last())
            }
        }
    }
}

/// Calling `wrap` on an item gives what `f` says.
pub open spec fn wraps<S, T, F: Fn(S) -> T>(wrap: &F, f: spec_fn(S) -> T) -> bool {
    &&& forall|item: S| call_requires(*wrap, (item,))
    &&& forall|item: S, wrapped: T| call_ensures(*wrap, (item,), wrapped) ==> wrapped == f(item)
}

/// The items that a source has given up, in two steps, are those of the first step and then
/// those of the second.
pub proof fn lemma_advanced_twice<T>(before: Seq<T>, mid: Seq<T>, after: Seq<T>)
    requires
        advanced(before, mid),
        advanced(mid, after),
    ensures
        advanced(before, after),
        given(before, after) == given(before, mid) + given(mid, after),
{
    assert(after =~= before.skip(before.len() - after.len()));
}

/// What a source gives up, seen through `f`.
pub proof fn lemma_given_mapped<S, T>(before: Seq<S>, after: Seq<S>, f: spec_fn(S) -> T)
    requires
        advanced(before, after),
    ensures
        advanced(before.map_values(f), after.map_values(f)),
        given(before, after).map_values(f) == given(before.map_values(f), after.map_values(f)),
{
    assert(after.map_values(f) =~= before.map_values(f).skip(before.len() - after.len()));
}

/// `Vec::shrink_to`: lowers the capacity towards `min_capacity`, never below the length. The
/// items stay as they are.
#[verifier::external_body]
fn shrink_to<T>(items: &mut Vec<T>, min_capacity: usize)
    ensures
        final(items)@ == old(items)@,
{
    items.shrink_to(min_capacity)
}

/// Feeds items to a [`BucketAccumulator`].
///
/// An inserter collects the items it is given in a pending buffer. Whenever the buffer is
/// full, it seals the pending items into a [`Bucket`], which sorts them, and commits the
/// bucket to its accumulator. What is pending at the end is committed by
/// [`finish`](Self::finish).
///
/// Inserting *n* items with a target bucket size of *b* costs O(*n* log *b*), next to what the
/// accumulator needs to add *n*/*b* buckets.
///
/// A new inserter aims at buckets of [`DEFAULT_BUCKET_BYTESIZE`], which is safe on small
/// machines. Sorting as a whole is faster with larger buckets: choose the target by the
/// memory at hand and the number of inserters at work.
#[derive(Debug)]
pub struct Inserter<A: BucketAccumulator> {
    item_accumulator: Vec<A::Item>,
    bucket_accumulator: A,
    bucket_size: usize,
    fill_limit: usize,
}

impl<A: BucketAccumulator> Inserter<A> {
    /// The items that are pending, in the order in which they were inserted.
    pub closed spec fn pending(&self) -> Seq<A::Item> {
        self.item_accumulator@
    }

    /// The accumulator that the buckets are committed to.
    pub closed spec fn accumulator(&self) -> A {
        self.bucket_accumulator
    }

    /// The target bucket size, in items.
    pub closed spec fn target(&self) -> nat {
        self.bucket_size as nat
    }

    /// The number of items at which the pending items are sealed. It follows the target
    /// bucket size, but never grows while items are pending.
    pub closed spec fn limit(&self) -> nat {
        self.fill_limit as nat
    }

    /// The fill limit that the next insertion starts with: the current one, lowered towards
    /// the target bucket size as far as the pending items allow.
    pub open spec fn next_limit(&self) -> nat {
        if self.limit() <= self.target() {
            self.limit()
        } else if self.pending().len() <= self.target() {
            self.target()
        } else {
            self.pending().len()
        }
    }

    /// The target bucket size is not zero, and the pending items do not exceed the fill limit.
    pub open spec fn wf(&self) -> bool {
        &&& self.target() > 0
        &&& self.pending().len() <= self.limit()
    }

    /// Creates an inserter for `bucket_accumulator`, with a target bucket size of
    /// [`DEFAULT_BUCKET_BYTESIZE`].
    pub fn new(bucket_accumulator: A) -> (inserter: Self)
        ensures
            inserter.wf(),
            inserter.accumulator() == bucket_accumulator,
            inserter.pending() == Seq::<A::Item>::empty(),
            inserter.limit() == 0,
            inserter.target() == items_per_bytes(
                DEFAULT_BUCKET_BYTESIZE as nat,
                size_of::<A::Item>(),
            ),
    {
        let bucket_size = Self::size_from_bytesize(DEFAULT_BUCKET_BYTESIZE);
        Inserter { item_accumulator: Vec::new(), bucket_accumulator, bucket_size, fill_limit: 0 }
    }

    /// Sets the target bucket size to `size` items, and hands the inserter on.
    pub fn set_bucket_size(&mut self, size: usize) -> (inserter: &mut Self)
        requires
            size > 0,
        ensures
            inserter.target() == size,
            inserter.pending() == old(self).pending(),
            inserter.accumulator() == old(self).accumulator(),
            inserter.limit() == old(self).limit(),
            *final(self) == *final(inserter),
    {
        self.bucket_size = size;
        self
    }

    /// Sets the target bucket size to what `bytesize` bytes pay for, and hands the inserter
    /// on.
    pub fn set_bucket_bytesize(&mut self, bytesize: usize) -> (inserter: &mut Self)
        ensures
            inserter.target() == items_per_bytes(bytesize as nat, size_of::<A::Item>()),
            inserter.pending() == old(self).pending(),
            inserter.accumulator() == old(self).accumulator(),
            inserter.limit() == old(self).limit(),
            *final(self) == *final(inserter),
    {
        self.bucket_size = Self::size_from_bytesize(bytesize);
        self
    }

    /// The target bucket size, in items.
    pub fn bucket_size(&self) -> (size: usize)
        ensures
            size == self.target(),
    {
        self.bucket_size
    }

    /// The target bucket size, in bytes.
    pub fn bucket_bytesize(&self) -> (bytesize: usize)
        requires
            self.target() * size_of::<A::Item>() <= usize::MAX,
        ensures
            bytesize == self.target() * size_of::<A::Item>(),
    {
        self.bucket_size * core::mem::size_of::<A::Item>()
    }

    /// The target bucket size for a byte budget.
    fn size_from_bytesize(bytesize: usize) -> (size: usize)
        ensures
            size == items_per_bytes(bytesize as nat, size_of::<A::Item>()),
            size > 0,
    {
        let item_size = core::mem::size_of::<A::Item>();
        let size = if item_size == 0 {
            bytesize
        } else {
            bytesize / item_size
        };
        if size == 0 {
            1
        } else {
            size
        }
    }

    /// Inserts the items that `items` yields.
    ///
    /// The items go to the pending buffer, in their order. Whenever the buffer is full, the
    /// pending items are sealed into a bucket and committed. The buffer is full at the target
    /// bucket size; a buffer that already held items when the target was last raised is full
    /// at the size it was made for.
    ///
    /// Fails where storage could not be grown, for a bucket of the accumulator or for the
    /// pending buffer. No item is lost then: what `items` has yielded is committed or pending,
    /// and the rest is still in `items`. The call can be repeated with the same source.
    pub fn insert_items<I: Iterator<Item = A::Item>>(&mut self, items: &mut I) -> (r: Result<
        (),
        InsertionError,
    >)
        requires
            old(self).wf(),
            total_order::<A::Item>(),
            (*old(items)).obeys_prophetic_iter_laws(),
            (*old(items)).decrease() is Some,
        ensures
            final(self).wf(),
            final(self).target() == old(self).target(),
            (*final(items)).obeys_prophetic_iter_laws(),
            (*final(items)).decrease() is Some,
            advanced((*old(items)).remaining(), (*final(items)).remaining()),
            inserted(
                *old(self),
                given((*old(items)).remaining(), (*final(items)).remaining()),
                (*final(items)).remaining().len(),
                *final(self),
                r is Ok,
            ),
            old(self).pending().len() + (*old(items)).remaining().len() < old(self).next_limit()
                ==> r is Ok,
    {
        let keep = |item: A::Item| -> (kept: A::Item)
            ensures
                kept == item,
            { item };
        let ghost f = |item: A::Item| item;
        let r = self.insert_with(items, &keep, Ghost(f));
        proof {
            let taken = given((*old(items)).remaining(), (*items).remaining());
            assert(taken.map_values(f) =~= taken);
        }
        r
    }

    /// Inserts the items that `items` yields, each through `wrap`.
    fn insert_with<S, I: Iterator<Item = S>, F: Fn(S) -> A::Item>(
        &mut self,
        items: &mut I,
        wrap: &F,
        Ghost(f): Ghost<spec_fn(S) -> A::Item>,
    ) -> (r: Result<(), InsertionError>)
        requires
            old(self).wf(),
            total_order::<A::Item>(),
            (*old(items)).obeys_prophetic_iter_laws(),
            (*old(items)).decrease() is Some,
            wraps(wrap, f),
        ensures
            final(self).wf(),
            final(self).target() == old(self).target(),
            (*final(items)).obeys_prophetic_iter_laws(),
            (*final(items)).decrease() is Some,
            advanced((*old(items)).remaining(), (*final(items)).remaining()),
            inserted(
                *old(self),
                given((*old(items)).remaining(), (*final(items)).remaining()).map_values(f),
                (*final(items)).remaining().len(),
                *final(self),
                r is Ok,
            ),
            old(self).pending().len() + (*old(items)).remaining().len() < old(self).next_limit()
                ==> r is Ok,
    {
        // All items that pass through the pending buffer if all goes well: those that are
        // pending, and then those that the source has to give.
        let ghost origin = self.bucket_accumulator;
        let ghost raw = (*items).remaining();
        let ghost source = raw.map_values(f);
        let ghost held = self.item_accumulator@;
        let ghost all = held + source;
        self.adjust();
        let ghost limit = self.fill_limit as nat;
        let ghost size = self.bucket_size as nat;
        self.top_up(items, wrap, Ghost(f));
        // The chunks that are committed, and the number of items in them. The pending items
        // are the next of `all`, and the source has the rest of `all` left to give.
        let ghost mut chunks: Seq<Seq<A::Item>> = Seq::empty();
        let ghost mut done: int = 0;
        proof {
            lemma_takes_in_nothing(origin, origin);
        }
        if self.item_accumulator.len() < self.fill_limit {
            // the source had too few items to fill the pending buffer
            return Ok(());
        }
        loop
            invariant_except_break
                self.item_accumulator@.len() == self.fill_limit,
            invariant
                self.wf(),
                total_order::<A::Item>(),
                (*items).obeys_prophetic_iter_laws(),
                (*items).decrease() is Some,
                wraps(wrap, f),
                self.bucket_size == size,
                size > 0,
                size == old(self).target(),
                limit == old(self).next_limit(),
                origin == old(self).accumulator(),
                held == old(self).pending(),
                raw == (*old(items)).remaining(),
                source == raw.map_values(f),
                advanced(raw, (*items).remaining()),
                all == held + source,
                held.len() <= limit,
                0 <= done,
                done + self.item_accumulator@.len() <= all.len(),
                held.len() <= done + self.item_accumulator@.len(),
                self.item_accumulator@ == all.subrange(done, done + self.item_accumulator@.len()),
                (*items).remaining().map_values(f) == all.skip(done + self.item_accumulator@.len()),
                commits(origin, chunks, self.bucket_accumulator),
                chunks == sealed_chunks(all.take(done), limit, size),
                ({
                    ||| done == 0 && self.fill_limit == limit
                    ||| limit <= done && (done - limit) % (size as int) == 0 && self.fill_limit
                        == size
                }),
            ensures
                self.wf(),
                (*items).obeys_prophetic_iter_laws(),
                (*items).decrease() is Some,
                self.bucket_size == size,
                self.fill_limit == size,
                limit <= done <= all.len(),
                (done - limit) % (size as int) == 0,
                self.item_accumulator@.len() < self.fill_limit,
                self.item_accumulator@ == all.skip(done),
                (*items).remaining().len() == 0,
                commits(origin, chunks, self.bucket_accumulator),
                chunks == sealed_chunks(all.take(done), limit, size),
            decreases (*items).decrease()->0,
        {
            let ghost chunk = self.item_accumulator@;
            let ghost before = self.bucket_accumulator;
            let ghost cur = done + chunk.len();
            let ghost first = done == 0 && self.fill_limit == limit;
            proof {
                // The pending items are the next chunk: the first, at the first fill limit, or
                // one of the target size.
                if first {
                    assert((cur - limit) % (size as int) == 0) by (nonlinear_arith)
                        requires
                            size > 0,
                            cur == limit,
                    ;
                    lemma_seal_first(all, limit, size);
                } else {
                    assert((cur - limit) % (size as int) == 0) by (nonlinear_arith)
                        requires
                            size > 0,
                            limit <= cur - size,
                            (cur - size - limit) % (size as int) == 0,
                    ;
                    lemma_seal_next(all, done, limit, size);
                }
                // What has passed so far ends with this chunk.
                lemma_given_mapped(raw, (*items).remaining(), f);
                assert(held + given(raw, (*items).remaining()).map_values(f) =~= all.take(cur));
            }
            match self.roll_over() {
                Ok(()) => {},
                Err(error) => {
                    proof {
                        // what has passed leaves no rest behind this chunk
                        lemma_seal_rest(all.take(cur), cur, limit, size);
                        if self.item_accumulator@.len() == 0 {
                            // the chunk is committed, if it had items: no room for the next
                            if chunk.len() > 0 && sorted_run_of(self.item_accumulator@, chunk) {
                                self.item_accumulator@.to_multiset_ensures();
                                chunk.to_multiset_ensures();
                            }
                            lemma_commits_more(
                                origin,
                                chunks,
                                before,
                                flushed(chunk),
                                self.bucket_accumulator,
                            );
                        } else {
                            // the bucket of the chunk was rejected
                            lemma_commits_more(
                                origin,
                                chunks,
                                before,
                                Seq::empty(),
                                self.bucket_accumulator,
                            );
                        }
                    }
                    return Err(error);
                },
            }
            proof {
                lemma_commits_more(origin, chunks, before, flushed(chunk), self.bucket_accumulator);
                chunks = chunks + flushed(chunk);
                done = cur;
            }
            let ghost mid = (*items).remaining();
            self.top_up(items, wrap, Ghost(f));
            proof {
                lemma_advanced_twice(raw, mid, (*items).remaining());
            }
            if self.item_accumulator.len() < self.fill_limit {
                break ;
            }
        }
        proof {
            // the source has given all it had, and too few items are pending to be sealed
            assert(held + given(raw, (*items).remaining()).map_values(f) =~= all);
            lemma_seal_rest(all, done, limit, size);
        }
        Ok(())
    }

    /// Ends the insertion: seals what is pending into a last bucket, which may be smaller than
    /// the others, commits it, and hands back the accumulator. No bucket is made of no items.
    ///
    /// Fails where the accumulator rejects the bucket. The inserter then comes back with the
    /// error, the items pending again, and can be finished once more.
    pub fn finish(self) -> (r: Result<A, (InsertionError, Self)>)
        requires
            self.wf(),
            total_order::<A::Item>(),
        ensures
            match r {
                Ok(accumulator) => commits(
                    self.accumulator(),
                    flushed(self.pending()),
                    accumulator,
                ),
                Err((_, inserter)) => {
                    &&& inserter.wf()
                    &&& inserter.target() == self.target()
                    &&& inserter.limit() == inserter.pending().len()
                    &&& sorted_run_of(inserter.pending(), self.pending())
                    &&& takes_in(self.accumulator(), Seq::empty(), inserter.accumulator())
                },
            },
            self.pending().len() == 0 ==> r == Ok::<A, (InsertionError, Self)>(self.accumulator()),
    {
        let mut inserter = self;
        if inserter.item_accumulator.len() == 0 {
            proof {
                lemma_takes_in_nothing(inserter.bucket_accumulator, inserter.bucket_accumulator);
            }
            return Ok(inserter.bucket_accumulator);
        }
        let mut items: Vec<A::Item> = Vec::new();
        core::mem::swap(&mut inserter.item_accumulator, &mut items);
        inserter.fill_limit = 0;
        let bucket = Bucket::new(items);
        let outcome = inserter.bucket_accumulator.add_bucket(bucket);
        proof {
            if outcome is Ok {
                lemma_takes_in_one(self.bucket_accumulator, bucket@, inserter.bucket_accumulator);
            } else {
                lemma_takes_in_nothing(self.bucket_accumulator, inserter.bucket_accumulator);
            }
        }
        match inserter.settle(outcome) {
            Ok(()) => Ok(inserter.bucket_accumulator),
            Err(error) => Err((error, inserter)),
        }
    }

    /// Lowers the fill limit towards the target bucket size, as far as the pending items
    /// allow, and never raises it: a pending buffer is not grown after the fact.
    fn adjust(&mut self)
        requires
            old(self).wf(),
        ensures
            final(self).wf(),
            final(self).limit() == old(self).next_limit(),
            final(self).pending() == old(self).pending(),
            final(self).accumulator() == old(self).accumulator(),
            final(self).target() == old(self).target(),
    {
        shrink_to(&mut self.item_accumulator, self.bucket_size);
        if self.fill_limit > self.bucket_size {
            if self.item_accumulator.len() <= self.bucket_size {
                self.fill_limit = self.bucket_size;
            } else {
                self.fill_limit = self.item_accumulator.len();
            }
        }
    }

    /// Moves items from `items` to the pending buffer, each through `wrap`, until the buffer is
    /// full or `items` has no more.
    fn top_up<S, I: Iterator<Item = S>, F: Fn(S) -> A::Item>(
        &mut self,
        items: &mut I,
        wrap: &F,
        Ghost(f): Ghost<spec_fn(S) -> A::Item>,
    )
        requires
            old(self).wf(),
            (*old(items)).obeys_prophetic_iter_laws(),
            (*old(items)).decrease() is Some,
            wraps(wrap, f),
        ensures
            final(self).wf(),
            final(self).limit() == old(self).limit(),
            final(self).accumulator() == old(self).accumulator(),
            final(self).target() == old(self).target(),
            (*final(items)).obeys_prophetic_iter_laws(),
            (*final(items)).decrease() is Some,
            old(self).pending().len() < final(self).pending().len() == final(self).limit() ==> (
            *final(items)).decrease()->0 < (*old(items)).decrease()->0,
            advanced((*old(items)).remaining(), (*final(items)).remaining()),
            final(self).pending() == old(self).pending() + given(
                (*old(items)).remaining(),
                (*final(items)).remaining(),
            ).map_values(f),
            final(self).pending().len() < final(self).limit() ==> (*final(items)).remaining().len()
                == 0,
    {
        let ghost source = (*items).remaining();
        let ghost start = self.item_accumulator@;
        let ghost measure = (*items).decrease()->0;
        while self.item_accumulator.len() < self.fill_limit
            invariant_except_break
                self.item_accumulator.len() == start.len() ==> (*items).decrease()->0 == measure,
                self.item_accumulator.len() > start.len() ==> (*items).decrease()->0 < measure,
            invariant
                (*items).obeys_prophetic_iter_laws(),
                (*items).decrease() is Some,
                wraps(wrap, f),
                self.bucket_accumulator == old(self).bucket_accumulator,
                self.bucket_size == old(self).bucket_size,
                self.fill_limit == old(self).fill_limit,
                self.bucket_size > 0,
                start.len() <= self.item_accumulator.len() <= self.fill_limit,
                self.item_accumulator.len() - start.len() <= source.len(),
                self.item_accumulator@ == start + source.take(
                    self.item_accumulator.len() - start.len(),
                ).map_values(f),
                (*items).remaining() == source.skip(self.item_accumulator.len() - start.len()),
            ensures
                self.item_accumulator.len() < self.fill_limit ==> (*items).remaining().len() == 0,
                (*items).decrease() is Some,
                start.len() < self.item_accumulator.len() == self.fill_limit ==> (
                *items).decrease()->0 < measure,
            decreases self.fill_limit - self.item_accumulator.len(),
        {
            match items.next() {
                Some(item) => self.item_accumulator.push(wrap(item)),
                None => {
                    break ;
                },
            }
        }
    }

    /// Settles the outcome of committing a bucket: takes the items of a rejected bucket back
    /// into the pending buffer, behind what is pending, and hands on the error.
    ///
    /// Where nothing is pending, the rejected bucket's storage becomes the pending buffer, so
    /// that taking the items back needs no memory.
    pub fn settle(&mut self, outcome: InsertionResult<Bucket<A::Item>>) -> (r: Result<
        (),
        InsertionError,
    >)
        requires
            old(self).wf(),
        ensures
            final(self).wf(),
            final(self).accumulator() == old(self).accumulator(),
            final(self).target() == old(self).target(),
            match outcome {
                Ok(()) => {
                    &&& r is Ok
                    &&& final(self).pending() == old(self).pending()
                    &&& final(self).limit() == old(self).limit()
                },
                Err((error, rejected)) => {
                    &&& r == Err::<(), _>(error)
                    &&& final(self).pending() == old(self).pending() + rejected@
                    &&& final(self).limit() == if old(self).limit() < final(self).pending().len() {
                        final(self).pending().len()
                    } else {
                        old(self).limit()
                    }
                },
            },
    {
        match outcome {
            Ok(()) => Ok(()),
            Err((error, rejected)) => {
                let mut items = rejected.into_inner();
                if self.item_accumulator.len() == 0 {
                    core::mem::swap(&mut self.item_accumulator, &mut items);
                } else {
                    self.item_accumulator.append(&mut items);
                }
                if self.fill_limit < self.item_accumulator.len() {
                    self.fill_limit = self.item_accumulator.len();
                }
                Err(error)
            },
        }
    }

    /// Settles the outcome of reserving room for as many more pending items as a bucket is to
    /// hold: where the room was `reserved`, the pending buffer is full at the target bucket
    /// size, unless it was made for more.
    pub fn reserved(&mut self, reserved: Result<(), TryReserveError>) -> (r: Result<
        (),
        InsertionError,
    >)
        requires
            old(self).wf(),
        ensures
            final(self).wf(),
            final(self).accumulator() == old(self).accumulator(),
            final(self).target() == old(self).target(),
            final(self).pending() == old(self).pending(),
            match reserved {
                Ok(()) => {
                    &&& r is Ok
                    &&& final(self).limit() == if old(self).limit() < old(self).target() {
                        old(self).target()
                    } else {
                        old(self).limit()
                    }
                },
                Err(e) => {
                    &&& r matches Err(error)
                    &&& error.reservation() == e
                    &&& final(self).limit() == old(self).limit()
                },
            },
    {
        match reserved {
            Ok(()) => {
                if self.fill_limit < self.bucket_size {
                    self.fill_limit = self.bucket_size;
                }
                Ok(())
            },
            Err(error) => Err(InsertionError::from(error)),
        }
    }

    /// Seals the pending items into a bucket, commits it, and reserves room for the next
    /// `bucket_size` items. No bucket is made of no items.
    fn roll_over(&mut self) -> (r: Result<(), InsertionError>)
        requires
            old(self).wf(),
            total_order::<A::Item>(),
        ensures
            final(self).wf(),
            final(self).target() == old(self).target(),
            match r {
                Ok(()) => {
                    &&& final(self).pending() == Seq::<A::Item>::empty()
                    &&& final(self).limit() == final(self).target()
                    &&& commits(
                        old(self).accumulator(),
                        flushed(old(self).pending()),
                        final(self).accumulator(),
                    )
                },
                Err(_) => {
                    &&& final(self).limit() == final(self).pending().len()
                    &&& {
                        ||| {
                            &&& old(self).pending().len() > 0
                            &&& sorted_run_of(final(self).pending(), old(self).pending())
                            &&& takes_in(
                                old(self).accumulator(),
                                Seq::empty(),
                                final(self).accumulator(),
                            )
                        }
                        ||| {
                            &&& final(self).pending() == Seq::<A::Item>::empty()
                            &&& commits(
                                old(self).accumulator(),
                                flushed(old(self).pending()),
                                final(self).accumulator(),
                            )
                        }
                    }
                },
            },
    {
        let ghost chunk = self.item_accumulator@;
        let ghost before = self.bucket_accumulator;
        let mut items: Vec<A::Item> = Vec::new();
        core::mem::swap(&mut self.item_accumulator, &mut items);
        self.fill_limit = 0;
        let bucket = Bucket::new(items);
        proof {
            // the bucket has as many items as were pending
            bucket@.to_multiset_ensures();
            chunk.to_multiset_ensures();
            lemma_takes_in_nothing(before, before);
        }
        if bucket.len() > 0 {
            let outcome = self.bucket_accumulator.add_bucket(bucket);
            proof {
                if outcome is Ok {
                    lemma_takes_in_one(before, bucket@, self.bucket_accumulator);
                } else {
                    lemma_takes_in_nothing(before, self.bucket_accumulator);
                }
            }
            match self.settle(outcome) {
                Ok(()) => {},
                Err(error) => return Err(error),
            }
        }
        let reserved = self.item_accumulator.try_reserve(self.bucket_size);
        self.reserved(reserved)
    }
}

impl<T: Ord, A: BucketAccumulator<Item = Reverse<T>>> Inserter<A> {
    /// Inserts the items that `items` yields, each wrapped in [`Reverse`], for a buffer that
    /// is to be read in ascending order.
    ///
    /// Does what [`insert_items`](Self::insert_items) does with the wrapped items.
    pub fn insert_items_reversed<I: Iterator<Item = T>>(&mut self, items: &mut I) -> (r: Result<
        (),
        InsertionError,
    >)
        requires
            old(self).wf(),
            total_order::<Reverse<T>>(),
            (*old(items)).obeys_prophetic_iter_laws(),
            (*old(items)).decrease() is Some,
        ensures
            final(self).wf(),
            final(self).target() == old(self).target(),
            (*final(items)).obeys_prophetic_iter_laws(),
            (*final(items)).decrease() is Some,
            advanced((*old(items)).remaining(), (*final(items)).remaining()),
            inserted(
                *old(self),
                given((*old(items)).remaining(), (*final(items)).remaining()).map_values(
                    |item: T| Reverse(item),
                ),
                (*final(items)).remaining().len(),
                *final(self),
                r is Ok,
            ),
            old(self).pending().len() + (*old(items)).remaining().len() < old(self).next_limit()
                ==> r is Ok,
    {
        let reverse = |item: T| -> (reversed: Reverse<T>)
            ensures
                reversed == Reverse(item),
            { Reverse(item) };
        self.insert_with(items, &reverse, Ghost(|item: T| Reverse(item)))
    }
}

} // verus!

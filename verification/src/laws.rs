//! What holds of the crate as a whole.

use crate::accumulator::{
    commits, lemma_commits_keep_buffer_well_formed, lemma_commits_more, BucketAccumulator,
};
use crate::inserter::{flushed, inserted, Inserter};
use crate::order::{antisymmetric, same_rank, total_order};
use crate::runs::{
    full_chunks, items_of, lemma_full_chunks_keep_items, lemma_items_of_concat,
    lemma_items_of_empty, lemma_items_of_push, lemma_sealed_chunks_in_parts,
    lemma_sealed_chunks_keep_items, sealed_chunks,
};
use crate::sorted::{
    ascending, descending, lemma_ascending_agree, lemma_descending_agree, sorted_run_of,
};
use crate::SortBuf;
use vstd::arithmetic::div_mod::{lemma_basic_div, lemma_fundamental_div_mod_converse};
use vstd::prelude::*;

verus! {

/// Sorting is idempotent: where no two different items rank equal, a sorted sequence is the
/// only sorted sequence of its items, so sorting it again gives the same sequence.
pub proof fn law_sorting_twice_changes_nothing<T: Ord>(run: Seq<T>, again: Seq<T>)
    requires
        total_order::<T>(),
        antisymmetric::<T>(),
        ascending(run),
        sorted_run_of(again, run),
    ensures
        again == run,
{
    lemma_ascending_agree(again, run);
}

/// What comes out of a buffer does not depend on how its items went in: by which inserters,
/// in which order, or cut into which buckets. Two sequences that hold the same items in
/// descending order differ at most in the order of items that rank equal, and are the same
/// sequence where no two different items rank equal.
pub proof fn law_output_is_independent_of_insertion<T: Ord>(out: Seq<T>, other: Seq<T>)
    requires
        total_order::<T>(),
        descending(out),
        descending(other),
        out.to_multiset() == other.to_multiset(),
    ensures
        out.len() == other.len(),
        forall|i: int| 0 <= i < out.len() ==> same_rank(#[trigger] out[i], other[i]),
        antisymmetric::<T>() ==> out == other,
{
    lemma_descending_agree(out, other);
}

/// Every item comes out exactly once: what is read from a buffer, after it took in buckets
/// for some chunks of items, holds what the buffer held before and the items of the chunks,
/// each as often as it went in, and nothing else.
///
/// `out` stands for what [`Iter::into_vec`](crate::iter::Iter::into_vec) hands out for the
/// buffer `after`. The chunks may come from any number of insertions by any number of
/// inserters, see [`lemma_commits_more`].
pub proof fn law_every_item_comes_out_once<T: Ord>(
    before: SortBuf<T>,
    chunks: Seq<Seq<T>>,
    after: SortBuf<T>,
    out: Seq<T>,
)
    requires
        before.wf(),
        commits(before, chunks, after),
        descending(out),
        out.to_multiset() == after.items(),
    ensures
        after.wf(),
        out.to_multiset() == before.items().add(items_of(chunks)),
        forall|x: T|
            out.to_multiset().count(x) == before.items().count(x) + items_of(chunks).count(x),
        out.len() == before.items().len() + items_of(chunks).len(),
{
    lemma_commits_keep_buffer_well_formed(before, chunks, after);
    out.to_multiset_ensures();
}

/// No item is lost in an insertion, whether it went well or not: the inserter has committed
/// some chunks, and these and the pending items hold what was pending before and what the
/// source has yielded.
pub proof fn law_insertion_loses_nothing<A: BucketAccumulator>(
    pre: Inserter<A>,
    taken: Seq<A::Item>,
    left: nat,
    post: Inserter<A>,
    ok: bool,
)
    requires
        pre.target() > 0,
        inserted(pre, taken, left, post, ok),
    ensures
        exists|chunks: Seq<Seq<A::Item>>|
            {
                &&& #[trigger] commits(pre.accumulator(), chunks, post.accumulator())
                &&& items_of(chunks).add(post.pending().to_multiset())
                    == pre.pending().to_multiset().add(taken.to_multiset())
            },
{
    let passed = pre.pending() + taken;
    let chunks = sealed_chunks(passed, pre.next_limit(), pre.target());
    vstd::seq_lib::lemma_multiset_commutative(pre.pending(), taken);
    lemma_sealed_chunks_keep_items(passed, pre.next_limit(), pre.target());
    if ok || (commits(pre.accumulator(), chunks, post.accumulator()) && post.pending().len()
        == 0) {
        // every chunk is committed, and what is pending is the rest
        post.pending().to_multiset_ensures();
        assert(commits(pre.accumulator(), chunks, post.accumulator()));
    } else {
        // every chunk but the last is committed, and the items of the last are pending
        assert(chunks.drop_last().push(chunks.last()) =~= chunks);
        lemma_items_of_push(chunks.drop_last(), chunks.last());
        assert(commits(pre.accumulator(), chunks.drop_last(), post.accumulator()));
    }
}

/// From the inserter to the buffer: after an insertion and a finish that went well, every
/// bucket of the buffer is in order, so that the buffer can be read, and the buffer holds
/// what it held before, what was pending in the inserter, and the items that were inserted,
/// each as often as it went in.
///
/// `buffer` stands for what [`Inserter::finish`] hands back for the inserter `post`.
pub proof fn law_inserted_items_are_in_the_buffer<T: Ord>(
    pre: Inserter<SortBuf<T>>,
    items: Seq<T>,
    post: Inserter<SortBuf<T>>,
    buffer: SortBuf<T>,
)
    requires
        pre.wf(),
        pre.accumulator().wf(),
        inserted(pre, items, 0, post, true),
        commits(post.accumulator(), flushed(post.pending()), buffer),
    ensures
        buffer.wf(),
        buffer.items() == pre.accumulator().items().add(pre.pending().to_multiset()).add(
            items.to_multiset(),
        ),
        buffer.items().len() == pre.accumulator().items().len() + pre.pending().len()
            + items.len(),
{
    let passed = pre.pending() + items;
    let sealed = sealed_chunks(passed, pre.next_limit(), pre.target());
    let rest = post.pending();
    lemma_commits_more(pre.accumulator(), sealed, post.accumulator(), flushed(rest), buffer);
    lemma_commits_keep_buffer_well_formed(pre.accumulator(), sealed + flushed(rest), buffer);
    lemma_items_of_concat(sealed, flushed(rest));
    lemma_sealed_chunks_keep_items(passed, pre.next_limit(), pre.target());
    assert(items_of(flushed(rest)) == rest.to_multiset()) by {
        if rest.len() > 0 {
            seq![rest].lemma_flatten_one_element();
        } else {
            lemma_items_of_empty::<T>();
            rest.to_multiset_ensures();
            vstd::multiset::lemma_multiset_empty_len(rest.to_multiset());
        }
    }
    vstd::seq_lib::lemma_multiset_commutative(pre.pending(), items);
    pre.pending().to_multiset_ensures();
    items.to_multiset_ensures();
}

/// From the inserter to the reader: after an insertion and a finish that went well, what is
/// read from the buffer holds what the buffer held before, what was pending in the inserter,
/// and the items that were inserted, each as often as it went in.
///
/// `buffer` stands for what [`Inserter::finish`] hands back for the inserter `post`, and
/// `out` for what [`Iter::into_vec`](crate::iter::Iter::into_vec) hands out for `buffer`.
pub proof fn law_inserted_items_come_out<T: Ord>(
    pre: Inserter<SortBuf<T>>,
    items: Seq<T>,
    post: Inserter<SortBuf<T>>,
    buffer: SortBuf<T>,
    out: Seq<T>,
)
    requires
        pre.wf(),
        pre.accumulator().wf(),
        inserted(pre, items, 0, post, true),
        commits(post.accumulator(), flushed(post.pending()), buffer),
        descending(out),
        out.to_multiset() == buffer.items(),
    ensures
        out.to_multiset() == pre.accumulator().items().add(pre.pending().to_multiset()).add(
            items.to_multiset(),
        ),
        out.len() == pre.accumulator().items().len() + pre.pending().len() + items.len(),
{
    law_inserted_items_are_in_the_buffer(pre, items, post, buffer);
    out.to_multiset_ensures();
}

/// A new inserter that is given fewer items than a bucket is to hold commits nothing, and
/// keeps all of them pending. Finishing it then commits one bucket, of all the items.
pub proof fn law_few_items_make_one_small_bucket<A: BucketAccumulator>(
    pre: Inserter<A>,
    items: Seq<A::Item>,
    post: Inserter<A>,
)
    requires
        pre.pending().len() == 0,
        pre.limit() == 0,
        0 < items.len() < pre.target(),
        inserted(pre, items, 0, post, true),
    ensures
        commits(pre.accumulator(), Seq::empty(), post.accumulator()),
        post.pending() == items,
        flushed(post.pending()) == seq![items],
{
    // fewer items than a bucket holds fill no chunk
    assert(pre.pending() + items =~= items);
    assert(items.skip(0) =~= items);
    lemma_basic_div(items.len() as int, pre.target() as int);
    lemma_full_chunks_keep_items(items, pre.target());
}

/// A new inserter that is given the items for a whole number of buckets commits that many
/// buckets, each of the target size, of the items in the order in which they came, and keeps
/// nothing pending. Finishing it then commits nothing.
pub proof fn law_full_buckets_leave_nothing<A: BucketAccumulator>(
    pre: Inserter<A>,
    items: Seq<A::Item>,
    count: nat,
    post: Inserter<A>,
)
    requires
        pre.pending().len() == 0,
        pre.limit() == 0,
        pre.target() > 0,
        items.len() == count * pre.target(),
        inserted(pre, items, 0, post, true),
    ensures
        commits(pre.accumulator(), full_chunks(items, pre.target()), post.accumulator()),
        full_chunks(items, pre.target()).len() == count,
        forall|i: int|
            0 <= i < count ==> #[trigger] full_chunks(items, pre.target())[i] == items.subrange(
                i * pre.target(),
                i * pre.target() + pre.target(),
            ),
        post.pending() == Seq::<A::Item>::empty(),
        flushed(post.pending()) == Seq::<Seq<A::Item>>::empty(),
{
    // the items fill `count` chunks, and leave nothing over
    assert(pre.pending() + items =~= items);
    assert(items.skip(0) =~= items);
    lemma_fundamental_div_mod_converse(
        items.len() as int,
        pre.target() as int,
        count as int,
        0,
    );
}

/// How the items are handed to an inserter does not matter: two insertions that went well,
/// one after the other, do what one insertion of all the items does.
pub proof fn law_insertion_in_parts<A: BucketAccumulator>(
    pre: Inserter<A>,
    first: Seq<A::Item>,
    mid: Inserter<A>,
    second: Seq<A::Item>,
    post: Inserter<A>,
)
    requires
        pre.wf(),
        mid.target() == pre.target(),
        inserted(pre, first, 0, mid, true),
        inserted(mid, second, 0, post, true),
    ensures
        inserted(pre, first + second, 0, post, true),
{
    let limit = pre.next_limit();
    let size = pre.target();
    let part = pre.pending() + first;
    assert(pre.pending() + (first + second) =~= part + second);
    lemma_sealed_chunks_in_parts(part, second, limit, size);
    lemma_commits_more(
        pre.accumulator(),
        sealed_chunks(part, limit, size),
        mid.accumulator(),
        sealed_chunks(mid.pending() + second, mid.next_limit(), size),
        post.accumulator(),
    );
}

} // verus!

//! A binary max-heap of sorted buckets.
//!
//! The buckets are ranked by their last, which is their greatest, item. A bucket without items
//! ranks lowest.

use crate::bucket::{views, SortedBucket};
use crate::order::{le, lemma_le_reflexive, lemma_le_total, lemma_le_transitive, total_order};
use crate::runs::{items_of, lemma_items_of_concat, lemma_items_of_empty, lemma_items_of_push};
use crate::sorted::{all_ascending, ascending, run_le, tops};
use vstd::multiset::Multiset;
use vstd::prelude::*;

verus! {

/// The position above `i` in the heap.
pub open spec fn parent(i: int) -> int {
    (i - 1) / 2
}

/// No run ranks above the one at the position above it, as far as that position is `top` or
/// comes behind it.
pub open spec fn heap_from<T: Ord>(runs: Seq<Seq<T>>, top: int) -> bool {
    forall|i: int|
        0 < i < runs.len() && top <= parent(i) ==> run_le(#[trigger] runs[i], runs[parent(i)])
}

/// No run ranks above the one at the position above it.
pub open spec fn heap_ordered<T: Ord>(runs: Seq<Seq<T>>) -> bool {
    heap_from(runs, 0)
}

/// The items of a list of runs are those before a position, those at it and those behind it.
pub proof fn lemma_items_of_split<T>(runs: Seq<Seq<T>>, i: int)
    requires
        0 <= i < runs.len(),
    ensures
        items_of(runs) == items_of(runs.take(i)).add(runs[i].to_multiset()).add(
            items_of(runs.skip(i + 1)),
        ),
{
    assert(runs =~= runs.take(i).push(runs[i]) + runs.skip(i + 1));
    lemma_items_of_concat(runs.take(i).push(runs[i]), runs.skip(i + 1));
    lemma_items_of_push(runs.take(i), runs[i]);
}

/// Replacing one run by another takes the items of the first away and adds those of the
/// second.
pub proof fn lemma_items_of_update<T>(runs: Seq<Seq<T>>, i: int, run: Seq<T>)
    requires
        0 <= i < runs.len(),
    ensures
        items_of(runs.update(i, run)).add(runs[i].to_multiset()) == items_of(runs).add(
            run.to_multiset(),
        ),
{
    let changed = runs.update(i, run);
    lemma_items_of_split(runs, i);
    lemma_items_of_split(changed, i);
    assert(changed.take(i) =~= runs.take(i));
    assert(changed.skip(i + 1) =~= runs.skip(i + 1));
}

/// Exchanging two runs keeps the items.
pub proof fn lemma_items_of_swap<T>(runs: Seq<Seq<T>>, i: int, j: int)
    requires
        0 <= i < runs.len(),
        0 <= j < runs.len(),
    ensures
        items_of(runs.update(i, runs[j]).update(j, runs[i])) == items_of(runs),
{
    let half = runs.update(i, runs[j]);
    lemma_items_of_update(runs, i, runs[j]);
    lemma_items_of_update(half, j, runs[i]);
    if i == j {
        assert(half.update(j, runs[i]) =~= runs);
    } else {
        let swapped = half.update(j, runs[i]);
        assert forall|x: T| items_of(swapped).count(x) == items_of(runs).count(x) by {
            assert(items_of(swapped).add(runs[j].to_multiset()).add(runs[i].to_multiset()).count(x)
                == items_of(runs).add(runs[j].to_multiset()).add(runs[i].to_multiset()).count(x));
        }
    }
}

/// Taking the last item from one run takes it from the items.
pub proof fn lemma_items_of_drop_last<T>(runs: Seq<Seq<T>>, i: int)
    requires
        0 <= i < runs.len(),
        runs[i].len() > 0,
    ensures
        items_of(runs).contains(runs[i].last()),
        items_of(runs.update(i, runs[i].drop_last())) == items_of(runs).remove(runs[i].last()),
{
    let run = runs[i];
    let changed = runs.update(i, run.drop_last());
    lemma_items_of_update(runs, i, run.drop_last());
    assert(run.drop_last().push(run.last()) =~= run);
    run.drop_last().to_multiset_ensures();
    lemma_items_of_split(runs, i);
    assert forall|x: T| items_of(changed).count(x) == items_of(runs).remove(run.last()).count(
        x,
    ) by {
        assert(items_of(changed).add(run.to_multiset()).count(x) == items_of(runs).add(
            run.drop_last().to_multiset(),
        ).count(x));
    }
}

/// Every item of a list of runs is in one of the runs.
pub proof fn lemma_items_of_member<T>(runs: Seq<Seq<T>>, x: T)
    requires
        items_of(runs).contains(x),
    ensures
        exists|i: int, k: int| 0 <= i < runs.len() && 0 <= k < runs[i].len() && runs[i][k] == x,
    decreases runs.len(),
{
    if runs.len() == 0 {
        lemma_items_of_empty::<T>();
    } else {
        let last = runs.len() - 1;
        assert(runs.drop_last().push(runs.last()) =~= runs);
        lemma_items_of_push(runs.drop_last(), runs.last());
        if runs.last().to_multiset().count(x) > 0 {
            runs.last().to_multiset_ensures();
            let k = choose|k: int| 0 <= k < runs.last().len() && runs.last()[k] == x;
            assert(runs[last][k] == x);
        } else {
            lemma_items_of_member(runs.drop_last(), x);
            let (i, k) = choose|i: int, k: int|
                0 <= i < runs.drop_last().len() && 0 <= k < runs.drop_last()[i].len()
                    && runs.drop_last()[i][k] == x;
            assert(runs[i][k] == x);
        }
    }
}

/// In a heap, no run ranks above the first.
pub proof fn lemma_root_ranks_highest<T: Ord>(runs: Seq<Seq<T>>, i: int)
    requires
        total_order::<T>(),
        heap_ordered(runs),
        0 <= i < runs.len(),
    ensures
        run_le(runs[i], runs[0]),
    decreases i,
{
    if i == 0 {
        if runs[0].len() > 0 {
            lemma_le_reflexive(runs[0].last());
        }
    } else {
        lemma_root_ranks_highest(runs, parent(i));
        assert(run_le(runs[i], runs[parent(i)]));
        if runs[i].len() > 0 {
            lemma_le_transitive(runs[i].last(), runs[parent(i)].last(), runs[0].last());
        }
    }
}

/// In a heap of ascending runs, no item ranks above the last item of the first run; where
/// the first run has no items, no run has any.
pub proof fn lemma_root_tops<T: Ord>(runs: Seq<Seq<T>>)
    requires
        total_order::<T>(),
        heap_ordered(runs),
        all_ascending(runs),
        runs.len() > 0,
    ensures
        runs[0].len() > 0 ==> tops(runs[0].last(), items_of(runs)),
        runs[0].len() == 0 ==> items_of(runs) == Multiset::<T>::empty(),
{
    assert forall|y: T| items_of(runs).contains(y) implies runs[0].len() > 0 && le(
        y,
        runs[0].last(),
    ) by {
        lemma_items_of_member(runs, y);
        let (i, k) = choose|i: int, k: int|
            0 <= i < runs.len() && 0 <= k < runs[i].len() && runs[i][k] == y;
        lemma_root_ranks_highest(runs, i);
        assert(le(runs[i][k], runs[i].last()));
        lemma_le_transitive(y, runs[i].last(), runs[0].last());
    }
    if runs[0].len() == 0 {
        assert forall|y: T| items_of(runs).count(y) == 0 by {
            if items_of(runs).count(y) > 0 {
                assert(items_of(runs).contains(y));
            }
        }
    }
}

/// Exchanges the buckets at `i` and `j`.
fn swap<T: Ord>(heap: &mut Vec<SortedBucket<T>>, i: usize, j: usize)
    requires
        i < old(heap).len(),
        j < old(heap).len(),
        i != j,
    ensures
        final(heap)@ == old(heap)@.update(i as int, old(heap)@[j as int]).update(
            j as int,
            old(heap)@[i as int],
        ),
{
    let mut held = SortedBucket::empty();
    core::mem::swap(&mut heap[i], &mut held);
    core::mem::swap(&mut heap[j], &mut held);
    core::mem::swap(&mut heap[i], &mut held);
}

/// Moves the bucket at `start` down until no bucket below it ranks above it.
///
/// Where the positions below `start` were in heap order, those from `start` on are so
/// afterwards.
pub(crate) fn sift_down<T: Ord>(heap: &mut Vec<SortedBucket<T>>, start: usize)
    requires
        start < old(heap).len(),
    ensures
        final(heap).len() == old(heap).len(),
        items_of(views(final(heap)@)) == items_of(views(old(heap)@)),
        all_ascending(views(old(heap)@)) ==> all_ascending(views(final(heap)@)),
        total_order::<T>() && heap_from(views(old(heap)@), start + 1) ==> heap_from(
            views(final(heap)@),
            start as int,
        ),
{
    let ghost ordered = total_order::<T>() && heap_from(views(old(heap)@), start + 1);
    let n = heap.len();
    let mut pos = start;
    // From `start` on all is in order, but for the bucket at `pos` and those right below it.
    // These do not rank above the bucket right above `pos`, so one of them may take its place.
    loop
        invariant
            ordered ==> total_order::<T>(),
            heap.len() == n,
            n == old(heap).len(),
            start <= pos < n,
            items_of(views(heap@)) == items_of(views(old(heap)@)),
            all_ascending(views(old(heap)@)) ==> all_ascending(views(heap@)),
            ordered ==> forall|i: int|
                0 < i < n && start <= parent(i) && parent(i) != pos ==> run_le(
                    #[trigger] views(heap@)[i],
                    views(heap@)[parent(i)],
                ),
            ordered && pos > start ==> forall|i: int|
                0 < i < n && parent(i) == pos ==> run_le(
                    #[trigger] views(heap@)[i],
                    views(heap@)[parent(pos as int)],
                ),
        ensures
            heap.len() == n,
            ordered ==> heap_from(views(heap@), start as int),
        decreases n - pos,
    {
        if n < 2 || pos > (n - 2) / 2 {
            // no bucket is below `pos`
            break ;
        }
        let left = 2 * pos + 1;
        let right = left + 1;
        let mut child = left;
        if right < n {
            if !heap[right].precedes(&heap[left]) {
                child = right;
            }
        }
        proof {
            // `child` is the one that ranks highest of the buckets right below `pos`
            let runs = views(heap@);
            assert forall|i: int| ordered && 0 < i < n && parent(i) == pos implies run_le(
                #[trigger] runs[i],
                runs[child as int],
            ) by {
                if i == child {
                    if runs[i].len() > 0 {
                        lemma_le_reflexive(runs[i].last());
                    }
                } else if child == right {
                    if runs[left as int].len() > 0 {
                        lemma_le_total(runs[left as int].last(), runs[right as int].last());
                    }
                }
            }
        }
        if heap[child].precedes(&heap[pos]) {
            proof {
                // no bucket right below `pos` ranks above it
                let runs = views(heap@);
                assert forall|i: int| ordered && 0 < i < n && parent(i) == pos implies run_le(
                    #[trigger] runs[i],
                    runs[pos as int],
                ) by {
                    if runs[i].len() > 0 {
                        lemma_le_transitive(
                            runs[i].last(),
                            runs[child as int].last(),
                            runs[pos as int].last(),
                        );
                    }
                }
            }
            break ;
        }
        let ghost before = views(heap@);
        swap(heap, pos, child);
        proof {
            let runs = views(heap@);
            assert(runs =~= before.update(pos as int, before[child as int]).update(
                child as int,
                before[pos as int],
            ));
            lemma_items_of_swap(before, pos as int, child as int);
            // The bucket that moved up ranks above the one that moved down, and not below
            // the other bucket right below it.
            if ordered && before[pos as int].len() > 0 {
                lemma_le_total(before[child as int].last(), before[pos as int].last());
            }
        }
        pos = child;
    }
}

/// Puts the buckets in heap order.
pub(crate) fn heapify<T: Ord>(heap: &mut Vec<SortedBucket<T>>)
    ensures
        final(heap).len() == old(heap).len(),
        items_of(views(final(heap)@)) == items_of(views(old(heap)@)),
        all_ascending(views(old(heap)@)) ==> all_ascending(views(final(heap)@)),
        total_order::<T>() ==> heap_ordered(views(final(heap)@)),
{
    let n = heap.len();
    let mut next = n / 2;
    while next > 0
        invariant
            heap.len() == n,
            n == old(heap).len(),
            next <= n / 2,
            items_of(views(heap@)) == items_of(views(old(heap)@)),
            all_ascending(views(old(heap)@)) ==> all_ascending(views(heap@)),
            total_order::<T>() ==> heap_from(views(heap@), next as int),
        decreases next,
    {
        next = next - 1;
        sift_down(heap, next);
    }
}

} // verus!

//! How a stream of items is cut into runs.
//!
//! An inserter cuts the items it is given into chunks, in the order in which they arrive, and
//! seals each chunk into a sorted bucket. The functions here say where the cuts fall.

use crate::sorted::sorted_run_of;
use vstd::arithmetic::div_mod::{
    lemma_basic_div, lemma_fundamental_div_mod, lemma_fundamental_div_mod_converse,
};
use vstd::multiset::Multiset;
use vstd::prelude::*;
use vstd::seq_lib::lemma_multiset_commutative;

verus! {

/// All items of all `runs`, each as often as it occurs.
pub open spec fn items_of<T>(runs: Seq<Seq<T>>) -> Multiset<T> {
    runs.flatten().to_multiset()
}

/// `buckets` holds one sorted run for each of `chunks`, in the same order, of the same items.
pub open spec fn seals<T: Ord>(chunks: Seq<Seq<T>>, buckets: Seq<Seq<T>>) -> bool {
    &&& buckets.len() == chunks.len()
    &&& forall|i: int| 0 <= i < chunks.len() ==> sorted_run_of(#[trigger] buckets[i], chunks[i])
}

/// The chunks of exactly `size` items that `s` fills, first to last.
pub open spec fn full_chunks<T>(s: Seq<T>, size: nat) -> Seq<Seq<T>>
    recommends
        size > 0,
{
    Seq::new((s.len() / size) as nat, |i: int| s.subrange(i * size, i * size + size))
}

/// The items at the end of `s` that fill no chunk of `size` items.
pub open spec fn leftover<T>(s: Seq<T>, size: nat) -> Seq<T>
    recommends
        size > 0,
{
    s.skip(((s.len() / size) * size) as int)
}

/// The chunks that are sealed when the items `s` pass through a pending buffer that is first
/// sealed at `limit` items and from then on at `size` items.
///
/// Nothing is sealed before `limit` items have come. A first chunk of no items is not counted.
pub open spec fn sealed_chunks<T>(s: Seq<T>, limit: nat, size: nat) -> Seq<Seq<T>>
    recommends
        size > 0,
{
    if s.len() < limit {
        Seq::empty()
    } else if limit == 0 {
        full_chunks(s, size)
    } else {
        seq![s.take(limit as int)] + full_chunks(s.skip(limit as int), size)
    }
}

/// The items of `s` that stay pending behind the [`sealed_chunks`].
pub open spec fn unsealed_rest<T>(s: Seq<T>, limit: nat, size: nat) -> Seq<T>
    recommends
        size > 0,
{
    if s.len() < limit {
        s
    } else {
        leftover(s.skip(limit as int), size)
    }
}

/// The fill limit of the pending buffer behind the [`sealed_chunks`].
pub open spec fn limit_after(len: nat, limit: nat, size: nat) -> nat {
    if len < limit {
        limit
    } else {
        size
    }
}

/// No runs hold no items.
pub proof fn lemma_items_of_empty<T>()
    ensures
        items_of(Seq::<Seq<T>>::empty()) == Multiset::<T>::empty(),
{
    assert(Seq::<Seq<T>>::empty().flatten() =~= Seq::<T>::empty());
    Seq::<T>::empty().to_multiset_ensures();
}

/// One more run adds its items.
pub proof fn lemma_items_of_push<T>(runs: Seq<Seq<T>>, run: Seq<T>)
    ensures
        items_of(runs.push(run)) == items_of(runs).add(run.to_multiset()),
{
    runs.lemma_flatten_push(run);
    lemma_multiset_commutative(runs.flatten(), run);
}

/// The items of two lists of runs add up.
pub proof fn lemma_items_of_concat<T>(a: Seq<Seq<T>>, b: Seq<Seq<T>>)
    ensures
        items_of(a + b) == items_of(a).add(items_of(b)),
    decreases b.len(),
{
    if b.len() == 0 {
        assert(a + b =~= a);
        lemma_items_of_empty::<T>();
    } else {
        lemma_items_of_concat(a, b.drop_last());
        lemma_items_of_push(a + b.drop_last(), b.last());
        lemma_items_of_push(b.drop_last(), b.last());
        assert((a + b.drop_last()).push(b.last()) =~= a + b);
        assert(b.drop_last().push(b.last()) =~= b);
        assert(items_of(a).add(items_of(b.drop_last())).add(b.last().to_multiset()) =~= items_of(
            a,
        ).add(items_of(b.drop_last()).add(b.last().to_multiset())));
    }
}

/// Sealing keeps the items.
pub proof fn lemma_seals_keeps_items<T: Ord>(chunks: Seq<Seq<T>>, buckets: Seq<Seq<T>>)
    requires
        seals(chunks, buckets),
    ensures
        items_of(buckets) == items_of(chunks),
    decreases chunks.len(),
{
    if chunks.len() == 0 {
        assert(buckets =~= Seq::empty());
    } else {
        assert(sorted_run_of(buckets[buckets.len() - 1], chunks[chunks.len() - 1]));
        assert(seals(chunks.drop_last(), buckets.drop_last())) by {
            assert forall|i: int| 0 <= i < chunks.drop_last().len() implies sorted_run_of(
                #[trigger] buckets.drop_last()[i],
                chunks.drop_last()[i],
            ) by {
                assert(sorted_run_of(buckets[i], chunks[i]));
            }
        }
        lemma_seals_keeps_items(chunks.drop_last(), buckets.drop_last());
        lemma_items_of_push(chunks.drop_last(), chunks.last());
        lemma_items_of_push(buckets.drop_last(), buckets.last());
        assert(chunks.drop_last().push(chunks.last()) =~= chunks);
        assert(buckets.drop_last().push(buckets.last()) =~= buckets);
    }
}

/// Fewer than `size` items fill no chunk, and are all left over.
pub proof fn lemma_no_full_chunk<T>(s: Seq<T>, size: nat)
    requires
        s.len() < size,
    ensures
        full_chunks(s, size) == Seq::<Seq<T>>::empty(),
        leftover(s, size) == s,
{
    lemma_basic_div(s.len() as int, size as int);
    assert(full_chunks(s, size) =~= Seq::<Seq<T>>::empty());
    assert(leftover(s, size) =~= s);
}

/// Exactly `size` items fill one chunk, and none is left over.
pub proof fn lemma_one_full_chunk<T>(s: Seq<T>, size: nat)
    requires
        size > 0,
        s.len() == size,
    ensures
        full_chunks(s, size) == seq![s],
        leftover(s, size) == Seq::<T>::empty(),
{
    let b = size as int;
    assert(b / b == 1 && 1 * b == b && 0 * b == 0) by (nonlinear_arith)
        requires
            b > 0,
    ;
    assert(s.subrange(0, b) =~= s);
    assert(full_chunks(s, size) =~= seq![s]);
    assert(leftover(s, size) =~= Seq::<T>::empty());
}

/// Behind a chunk boundary, the items are cut as if they came alone.
pub proof fn lemma_full_chunks_behind_boundary<T>(s: Seq<T>, then: Seq<T>, size: nat)
    requires
        size > 0,
        s.len() % size == 0,
    ensures
        full_chunks(s + then, size) == full_chunks(s, size) + full_chunks(then, size),
        leftover(s + then, size) == leftover(then, size),
{
    let b = size as int;
    let n = s.len() as int;
    let t = then.len() as int;
    let m = n / b;
    let k = t / b;
    // `s` fills `m` chunks and `then` fills `k`, so together they fill `m + k`
    assert(n == m * b && (n + t) / b == m + k && (m + k) * b == n + k * b && 0 <= k * b <= t)
        by {
        lemma_fundamental_div_mod(n, b);
        lemma_fundamental_div_mod(t, b);
        assert((m + k) * b == m * b + k * b && b * m == m * b && b * k == k * b)
            by (nonlinear_arith);
        lemma_fundamental_div_mod_converse(n + t, b, m + k, t % b);
    }
    assert forall|i: int| 0 <= i < m + k implies #[trigger] full_chunks(s + then, size)[i] == (
    full_chunks(s, size) + full_chunks(then, size))[i] by {
        assert(0 <= i * b) by (nonlinear_arith)
            requires
                0 <= i,
                b > 0,
        ;
        if i < m {
            // a chunk of `s`
            assert(i * b + b <= n) by (nonlinear_arith)
                requires
                    0 <= i < m,
                    n == m * b,
                    b > 0,
            ;
            assert((s + then).subrange(i * b, i * b + b) =~= s.subrange(i * b, i * b + b));
        } else {
            // a chunk of `then`, the length of `s` further on
            assert(i * b == n + (i - m) * b && 0 <= (i - m) * b && (i - m) * b + b <= t)
                by (nonlinear_arith)
                requires
                    m <= i < m + k,
                    n == m * b,
                    0 <= k * b <= t,
                    b > 0,
            ;
            assert((s + then).subrange(i * b, i * b + b) =~= then.subrange(
                (i - m) * b,
                (i - m) * b + b,
            ));
        }
    }
    assert(full_chunks(s + then, size) =~= full_chunks(s, size) + full_chunks(then, size));
    assert(leftover(s + then, size) =~= leftover(then, size));
}

/// The first chunk is sealed when `limit` items have come.
pub proof fn lemma_seal_first<T>(all: Seq<T>, limit: nat, size: nat)
    requires
        size > 0,
        limit <= all.len(),
    ensures
        sealed_chunks(all.take(limit as int), limit, size) == if limit == 0 {
            Seq::<Seq<T>>::empty()
        } else {
            seq![all.take(limit as int)]
        },
{
    let s = all.take(limit as int);
    lemma_no_full_chunk(s.skip(limit as int), size);
    assert(s.take(limit as int) =~= s);
    assert(s.skip(limit as int) =~= s.skip(0).skip(limit as int));
    assert(seq![s] + Seq::<Seq<T>>::empty() =~= seq![s]);
}

/// Behind the first `done` items, which end on a chunk boundary, the next `size` items are
/// sealed as one more chunk.
pub proof fn lemma_seal_next<T>(all: Seq<T>, done: int, limit: nat, size: nat)
    requires
        size > 0,
        limit <= done,
        (done - limit) % (size as int) == 0,
        done + size <= all.len(),
    ensures
        sealed_chunks(all.take(done + size), limit, size) == sealed_chunks(
            all.take(done),
            limit,
            size,
        ).push(all.subrange(done, done + size)),
{
    let chunk = all.subrange(done, done + size);
    let before = all.take(done);
    let after = all.take(done + size);
    let l = limit as int;
    assert(after.take(l) =~= before.take(l));
    assert(after.skip(l) =~= before.skip(l) + chunk);
    assert(before.skip(0) =~= before && after.skip(0) =~= after);
    lemma_full_chunks_behind_boundary(before.skip(l), chunk, size);
    lemma_one_full_chunk(chunk, size);
    assert(full_chunks(before.skip(l), size) + seq![chunk] =~= full_chunks(
        before.skip(l),
        size,
    ).push(chunk));
    assert(seq![before.take(l)] + full_chunks(before.skip(l), size).push(chunk) =~= (
    seq![before.take(l)] + full_chunks(before.skip(l), size)).push(chunk));
}

/// Behind the first `done` items, which end on a chunk boundary, fewer than `size` items are
/// not sealed.
pub proof fn lemma_seal_rest<T>(all: Seq<T>, done: int, limit: nat, size: nat)
    requires
        size > 0,
        limit <= done,
        (done - limit) % (size as int) == 0,
        done <= all.len() < done + size,
    ensures
        sealed_chunks(all, limit, size) == sealed_chunks(all.take(done), limit, size),
        unsealed_rest(all, limit, size) == all.skip(done),
{
    let before = all.take(done);
    let tail = all.skip(done);
    let l = limit as int;
    assert(all.take(l) =~= before.take(l));
    assert(all.skip(l) =~= before.skip(l) + tail);
    assert(before.skip(0) =~= before && all.skip(0) =~= all);
    lemma_full_chunks_behind_boundary(before.skip(l), tail, size);
    lemma_no_full_chunk(tail, size);
    assert(full_chunks(before.skip(l), size) + Seq::<Seq<T>>::empty() =~= full_chunks(
        before.skip(l),
        size,
    ));
}

/// The full chunks of a sequence and what is left over make up the sequence.
pub proof fn lemma_full_chunks_keep_items<T>(s: Seq<T>, size: nat)
    requires
        size > 0,
    ensures
        full_chunks(s, size).flatten() + leftover(s, size) == s,
        leftover(s, size).len() < size,
    decreases s.len(),
{
    if s.len() < size {
        lemma_no_full_chunk(s, size);
        assert(Seq::<Seq<T>>::empty().flatten() =~= Seq::<T>::empty());
    } else {
        // the first chunk, and then the rest
        let chunk = s.take(size as int);
        let then = s.skip(size as int);
        assert(s =~= chunk + then);
        lemma_one_full_chunk(chunk, size);
        lemma_full_chunks_behind_boundary(chunk, then, size);
        lemma_full_chunks_keep_items(then, size);
        vstd::seq_lib::lemma_flatten_concat(seq![chunk], full_chunks(then, size));
        seq![chunk].lemma_flatten_one_element();
        assert(chunk + full_chunks(then, size).flatten() + leftover(then, size) =~= chunk + (
        full_chunks(then, size).flatten() + leftover(then, size)));
    }
}

/// The sealed chunks and the unsealed rest make up the items that passed.
pub proof fn lemma_sealed_chunks_keep_items<T>(s: Seq<T>, limit: nat, size: nat)
    requires
        size > 0,
    ensures
        sealed_chunks(s, limit, size).flatten() + unsealed_rest(s, limit, size) == s,
        items_of(sealed_chunks(s, limit, size)).add(unsealed_rest(s, limit, size).to_multiset())
            == s.to_multiset(),
        unsealed_rest(s, limit, size).len() < limit_after(s.len(), limit, size),
{
    if s.len() < limit {
        assert(Seq::<Seq<T>>::empty().flatten() =~= Seq::<T>::empty());
    } else if limit == 0 {
        lemma_full_chunks_keep_items(s, size);
        assert(s.skip(0) =~= s);
    } else {
        let head = s.take(limit as int);
        let then = s.skip(limit as int);
        assert(s =~= head + then);
        lemma_full_chunks_keep_items(then, size);
        vstd::seq_lib::lemma_flatten_concat(seq![head], full_chunks(then, size));
        seq![head].lemma_flatten_one_element();
        assert(head + full_chunks(then, size).flatten() + leftover(then, size) =~= head + (
        full_chunks(then, size).flatten() + leftover(then, size)));
    }
    lemma_multiset_commutative(
        sealed_chunks(s, limit, size).flatten(),
        unsealed_rest(s, limit, size),
    );
}

/// Items that pass in two parts are sealed as if they passed at once.
pub proof fn lemma_sealed_chunks_in_parts<T>(part: Seq<T>, then: Seq<T>, limit: nat, size: nat)
    requires
        size > 0,
    ensures
        sealed_chunks(part + then, limit, size) == sealed_chunks(part, limit, size)
            + sealed_chunks(
            unsealed_rest(part, limit, size) + then,
            limit_after(part.len(), limit, size),
            size,
        ),
        unsealed_rest(part + then, limit, size) == unsealed_rest(
            unsealed_rest(part, limit, size) + then,
            limit_after(part.len(), limit, size),
            size,
        ),
        limit_after((part + then).len(), limit, size) == limit_after(
            (unsealed_rest(part, limit, size) + then).len(),
            limit_after(part.len(), limit, size),
            size,
        ),
{
    let whole = part + then;
    let b = size as int;
    if part.len() < limit {
        // nothing of the first part is sealed: the second part comes behind all of it
        assert(Seq::<Seq<T>>::empty() + sealed_chunks(whole, limit, size) =~= sealed_chunks(
            whole,
            limit,
            size,
        ));
    } else {
        // Behind the first chunk, the first part is cut into full chunks and a rest. The
        // second part comes behind the rest, and the buffer is sealed at `size` items.
        let l = limit as int;
        let behind = part.skip(l);
        let rest = leftover(behind, size);
        let cut = behind.take(behind.len() - rest.len());
        let again = rest + then;
        lemma_full_chunks_keep_items(behind, size);
        assert(behind =~= cut + rest);
        assert(cut.len() % size == 0) by {
            let n = behind.len() as int;
            assert(((n / b) * b) % b == 0 && 0 <= (n / b) * b <= n) by (nonlinear_arith)
                requires
                    b > 0,
                    n >= 0,
            ;
        }
        assert(whole.skip(l) =~= behind + then);
        assert(behind + then =~= cut + again);
        lemma_full_chunks_behind_boundary(cut, again, size);
        lemma_full_chunks_behind_boundary(cut, rest, size);
        lemma_no_full_chunk(rest, size);
        assert(full_chunks(cut, size) + Seq::<Seq<T>>::empty() =~= full_chunks(cut, size));
        assert(sealed_chunks(again, size, size) == full_chunks(again, size) && unsealed_rest(
            again,
            size,
            size,
        ) == leftover(again, size)) by {
            if again.len() < size {
                lemma_no_full_chunk(again, size);
            } else {
                let head = again.take(b);
                let tail = again.skip(b);
                assert(again =~= head + tail);
                lemma_one_full_chunk(head, size);
                lemma_full_chunks_behind_boundary(head, tail, size);
            }
        }
        assert(whole.take(l) =~= part.take(l));
        assert(part.skip(0) =~= part && whole.skip(0) =~= whole);
        assert(seq![part.take(l)] + (full_chunks(cut, size) + full_chunks(again, size)) =~= (
        seq![part.take(l)] + full_chunks(cut, size)) + full_chunks(again, size));
    }
}

} // verus!

//! Sorted sequences of items.

use crate::order::{le, lemma_le_transitive, same_rank, total_order};
use vstd::multiset::Multiset;
use vstd::prelude::*;

verus! {

/// No item of `s` ranks above a later one.
pub open spec fn ascending<T: Ord>(s: Seq<T>) -> bool {
    forall|i: int, j: int| 0 <= i <= j < s.len() ==> le(s[i], s[j])
}

/// No item of `s` ranks below a later one.
pub open spec fn descending<T: Ord>(s: Seq<T>) -> bool {
    forall|i: int, j: int| 0 <= i <= j < s.len() ==> le(s[j], s[i])
}

/// Every run is in ascending order.
pub open spec fn all_ascending<T: Ord>(runs: Seq<Seq<T>>) -> bool {
    forall|i: int| 0 <= i < runs.len() ==> ascending(#[trigger] runs[i])
}

/// `run` holds the items of `items`, each as often as `items` does, in ascending order.
pub open spec fn sorted_run_of<T: Ord>(run: Seq<T>, items: Seq<T>) -> bool {
    ascending(run) && run.to_multiset() == items.to_multiset()
}

/// The greatest item of the ascending run `a` does not rank above that of `b`, or `a` has no
/// items. A run without items ranks lowest.
pub open spec fn run_le<T: Ord>(a: Seq<T>, b: Seq<T>) -> bool {
    a.len() == 0 || (b.len() > 0 && le(a.last(), b.last()))
}

/// No item of `m` ranks above `x`.
pub open spec fn tops<T: Ord>(x: T, m: Multiset<T>) -> bool {
    forall|y: T| m.contains(y) ==> le(y, x)
}

/// The greatest items of two ascending sequences of the same items rank equal.
proof fn lemma_last_items_rank_equal<T: Ord>(a: Seq<T>, b: Seq<T>)
    requires
        total_order::<T>(),
        ascending(a),
        ascending(b),
        a.to_multiset() == b.to_multiset(),
        a.len() > 0,
    ensures
        b.len() == a.len(),
        same_rank(a.last(), b.last()),
{
    a.to_multiset_ensures();
    b.to_multiset_ensures();
    // each of the two last items occurs in the other sequence, where the last item tops it
    assert(a.to_multiset().count(a.last()) > 0);
    assert(b.to_multiset().count(b.last()) > 0);
    let i = choose|i: int| 0 <= i < b.len() && b[i] == a.last();
    assert(le(b[i], b.last()));
    let j = choose|j: int| 0 <= j < a.len() && a[j] == b.last();
    assert(le(a[j], a.last()));
}

/// Two ascending sequences of the same items agree up to the order of items that rank equal.
pub proof fn lemma_ascending_agree<T: Ord>(a: Seq<T>, b: Seq<T>)
    requires
        total_order::<T>(),
        ascending(a),
        ascending(b),
        a.to_multiset() == b.to_multiset(),
    ensures
        a.len() == b.len(),
        forall|i: int| 0 <= i < a.len() ==> same_rank(#[trigger] a[i], b[i]),
    decreases a.len(),
{
    a.to_multiset_ensures();
    b.to_multiset_ensures();
    if a.len() > 0 {
        let n = a.len() - 1;
        let x = a.last();
        let y = b.last();
        lemma_last_items_rank_equal(a, b);
        // Bring `x` to the end of `b`, where it changes places with an item of its rank.
        assert(b.contains(x)) by {
            assert(a.to_multiset().count(x) > 0);
        }
        let j = if y == x {
            n
        } else {
            choose|j: int| 0 <= j < b.len() && b[j] == x
        };
        let c = b.update(j, y).update(n, x);
        assert(c.to_multiset() == b.to_multiset()) by {
            if j == n {
                assert(c =~= b);
            } else {
                vstd::seq_lib::to_multiset_update(b, j, y);
                vstd::seq_lib::to_multiset_update(b.update(j, y), n, x);
            }
        }
        // Without their last item, which is `x` for both, `a` and `c` still hold the same items.
        assert(a.drop_last().to_multiset() == c.drop_last().to_multiset()) by {
            assert(a.drop_last().push(x) =~= a);
            assert(c.drop_last().push(x) =~= c);
            a.drop_last().to_multiset_ensures();
            c.drop_last().to_multiset_ensures();
            assert(a.drop_last().to_multiset() =~= a.to_multiset().remove(x));
        }
        // All items of `b` from `j` on rank as `x` and `y` do, so `c` is in order as `b` is.
        assert(ascending(c)) by {
            assert forall|p: int, q: int| 0 <= p <= q < c.len() implies le(c[p], c[q]) by {
                if j <= p {
                    lemma_le_transitive(b[p], y, x);
                }
                if j <= q {
                    lemma_le_transitive(y, x, b[q]);
                }
            }
        }
        lemma_ascending_agree(a.drop_last(), c.drop_last());
        assert forall|i: int| 0 <= i < a.len() implies same_rank(#[trigger] a[i], b[i]) by {
            if i != n {
                assert(same_rank(a.drop_last()[i], c.drop_last()[i]));
                if i == j {
                    // `a[i]` ranks as `y` does, which ranks as `x` does
                    lemma_le_transitive(a[i], y, x);
                    lemma_le_transitive(x, y, a[i]);
                }
            }
        }
    }
}

/// Two descending sequences of the same items agree up to the order of items that rank
/// equal.
pub proof fn lemma_descending_agree<T: Ord>(a: Seq<T>, b: Seq<T>)
    requires
        total_order::<T>(),
        descending(a),
        descending(b),
        a.to_multiset() == b.to_multiset(),
    ensures
        a.len() == b.len(),
        forall|i: int| 0 <= i < a.len() ==> same_rank(#[trigger] a[i], b[i]),
{
    // read from the end, the two sequences are ascending
    a.lemma_reverse_to_multiset();
    b.lemma_reverse_to_multiset();
    assert(ascending(a.reverse()));
    assert(ascending(b.reverse()));
    lemma_ascending_agree(a.reverse(), b.reverse());
    assert forall|i: int| 0 <= i < a.len() implies same_rank(#[trigger] a[i], b[i]) by {
        assert(same_rank(a.reverse()[a.len() - 1 - i], b.reverse()[a.len() - 1 - i]));
    }
}

} // verus!

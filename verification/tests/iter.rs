use std::cmp::Reverse;

use rand::Rng;
use sortbuf::bucket::{Bucket, SortedBucket};
use sortbuf::iter::Iter;

/// Item type to use for testing
type Item = u64;

/// Construct an [Iterator] yielding `num` random items
fn random_items(num: usize) -> impl Iterator<Item = Item> {
    let mut rng = rand_pcg::Mcg128Xsl64::new(0xcafef00dd15ea5e5); // seed taken from rand_pcg docs
    std::iter::from_fn(move || Some(rng.gen::<Item>())).take(num)
}

/// Check whether the given [Iterator] is sorted
fn assert_sorted<T: Ord>(mut iter: impl Iterator<Item = T>) {
    if let Some(first) = iter.next() {
        iter.try_fold(first, |c, n| if c <= n { Some(n) } else { None })
            .expect("Iterator does not yield sorted items");
    }
}

/// Construct an [Iter] over `num` random items in buckets of up to `size` items
fn random_iter(num: usize, size: usize) -> Iter<Item> {
    let mut items = random_items(num);
    std::iter::from_fn(move || Some(items.by_ref().take(size).collect::<Vec<_>>()))
        .take_while(|v| !v.is_empty())
        .map(Bucket::new)
        .map(Into::into)
        .collect::<Vec<SortedBucket<Item>>>()
        .into()
}

#[test]
fn iter_sorted() {
    let mut iter = random_iter(10_500, 1000);

    assert_sorted(std::iter::from_fn(move || iter.next()).map(Reverse))
}

#[test]
fn iter_count() {
    let mut iter = random_iter(10_500, 1000);

    assert_eq!(std::iter::from_fn(move || iter.next()).count(), 10_500)
}

#[test]
fn bucket_sorted() {
    let bucket = Bucket::new(random_items(1000).collect::<Vec<_>>());
    let mut sorted = SortedBucket::from(bucket);
    assert_sorted(std::iter::from_fn(move || sorted.next()).map(Reverse))
}

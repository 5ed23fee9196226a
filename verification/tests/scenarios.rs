use std::cmp::Reverse;
use std::sync::{Arc, Mutex, RwLock};

use rand::Rng;
use sortbuf::error::InsertionResult;
use sortbuf::reversed::Unreversed;
use sortbuf::{Bucket, BucketAccumulator, Inserter, Iter, SortBuf};

/// A buffer behind a mutex that several inserters share
struct InMutex<T: Ord>(Arc<Mutex<SortBuf<T>>>);

impl<T: Ord> BucketAccumulator for InMutex<T> {
    type Item = T;

    fn add_bucket(&mut self, bucket: Bucket<T>) -> InsertionResult<Bucket<T>> {
        self.0.lock().expect("Could not lock mutex!").add_bucket(bucket)
    }
}

/// A buffer behind a read/write lock that several inserters share
struct InRwLock<T: Ord>(Arc<RwLock<SortBuf<T>>>);

impl<T: Ord> BucketAccumulator for InRwLock<T> {
    type Item = T;

    fn add_bucket(&mut self, bucket: Bucket<T>) -> InsertionResult<Bucket<T>> {
        self.0.write().expect("Could not lock mutex!").add_bucket(bucket)
    }
}

/// Construct an [Iterator] yielding `num` random items
fn random_items(num: usize) -> impl Iterator<Item = u64> {
    let mut rng = rand_pcg::Mcg128Xsl64::new(0xcafef00dd15ea5e5); // seed taken from rand_pcg docs
    std::iter::from_fn(move || Some(rng.gen::<u64>())).take(num)
}

/// Drain an [Iter] through the standard [Iterator] interface
fn drain<T: Ord>(mut iter: Iter<T>) -> impl Iterator<Item = T> {
    std::iter::from_fn(move || iter.next())
}

/// Drain an [Unreversed] through the standard [Iterator] interface
fn drain_unreversed<T: Ord>(mut iter: Unreversed<T>) -> impl Iterator<Item = T> {
    std::iter::from_fn(move || iter.next())
}

#[test]
fn default_settings_yield_descending_items() {
    let mut sortbuf = SortBuf::new();
    let mut inserter = Inserter::new(&mut sortbuf);
    inserter.insert_items(&mut [10, 20, 5, 17].into_iter()).expect("Failed to insert items");
    inserter.finish().map_err(|(e, _)| e).expect("Failed to add final bucket");
    assert!(drain(sortbuf.into_iter()).eq([20, 17, 10, 5]));
}

#[test]
fn reversed_items_yield_ascending_items() {
    let mut sortbuf = SortBuf::new();
    let mut inserter = Inserter::new(&mut sortbuf);
    inserter
        .insert_items(&mut [10, 20, 5, 17].into_iter().map(Reverse))
        .expect("Failed to insert items");
    inserter.finish().map_err(|(e, _)| e).expect("Failed to add final bucket");
    assert!(drain_unreversed(sortbuf.unreversed()).eq([5, 10, 17, 20]));
}

#[test]
fn insert_items_reversed_wraps_items() {
    let mut sortbuf = SortBuf::new();
    let mut inserter = Inserter::new(&mut sortbuf);
    inserter
        .insert_items_reversed(&mut [10, 20, 5, 17].into_iter())
        .expect("Failed to insert items");
    inserter.finish().map_err(|(e, _)| e).expect("Failed to add final bucket");
    assert_eq!(sortbuf.unreversed().into_vec(), vec![5, 10, 17, 20]);
}

#[test]
fn random_items_come_out_in_descending_order() {
    let mut sortbuf = SortBuf::new();
    let mut inserter = Inserter::new(&mut sortbuf);
    inserter.set_bucket_size(1000);
    inserter.insert_items(&mut random_items(10_500)).expect("Failed to insert items");
    inserter.finish().map_err(|(e, _)| e).expect("Failed to add final bucket");

    let items: Vec<_> = drain(sortbuf.into_iter()).collect();
    assert_eq!(items.len(), 10_500);
    assert!(items.windows(2).all(|pair| pair[0] >= pair[1]));

    let mut expected: Vec<_> = random_items(10_500).collect();
    expected.sort_unstable_by(|a, b| b.cmp(a));
    assert_eq!(items, expected);
}

#[test]
fn four_inserters_share_a_locked_buffer() {
    let sortbuf: Arc<Mutex<SortBuf<_>>> = Default::default();
    let mut workers: Vec<_> = (0..4)
        .map(|n| (Inserter::new(InMutex(sortbuf.clone())), (0..1000).map(move |i| 4 * i + n)))
        .collect();
    // Each worker inserts a few of its items at a time, so that their buckets interleave.
    for _ in 0..100 {
        for (inserter, items) in workers.iter_mut() {
            inserter.set_bucket_size(7);
            inserter.insert_items(&mut items.by_ref().take(10)).expect("Failed to insert items");
        }
    }
    for (inserter, _) in workers {
        inserter.finish().map_err(|(e, _)| e).expect("Failed to add final bucket");
    }
    assert!(drain(sortbuf.lock().unwrap().take().into_iter()).eq((0..4000).rev()));
}

#[test]
fn inserters_take_turns_at_a_shared_buffer() {
    let sortbuf: Arc<RwLock<SortBuf<u32>>> = Default::default();
    let mut evens = Inserter::new(InRwLock(sortbuf.clone()));
    let mut odds = Inserter::new(InRwLock(sortbuf.clone()));
    evens.set_bucket_size(3);
    odds.set_bucket_size(5);
    for round in 0..10u32 {
        evens
            .insert_items(&mut (0..10).map(|i| 2 * (10 * round + i)))
            .expect("Failed to insert items");
        odds.insert_items(&mut (0..10).map(|i| 2 * (10 * round + i) + 1))
            .expect("Failed to insert items");
    }
    evens.finish().map_err(|(e, _)| e).expect("Failed to add final bucket");
    odds.finish().map_err(|(e, _)| e).expect("Failed to add final bucket");
    assert!(drain(sortbuf.write().unwrap().take().into_iter()).eq((0..200).rev()));
}

#[test]
fn rejected_bucket_passes_back_through_a_lock() {
    let sortbuf: Arc<Mutex<SortBuf<u64>>> = Default::default();
    let mut shared = InMutex(sortbuf.clone());
    shared.add_bucket(Bucket::new(vec![2, 3, 1])).map_err(|(e, _)| e).expect("Failed to add bucket");
    let mut borrowed = &mut shared;
    borrowed.add_bucket(Bucket::new(vec![4])).map_err(|(e, _)| e).expect("Failed to add bucket");
    assert_eq!(sortbuf.lock().unwrap().take().into_iter().into_vec(), vec![4, 3, 2, 1]);
}

#[test]
fn unreversed_items_are_counted_and_taken_one_by_one() {
    let mut inserter = Inserter::new(SortBuf::new());
    inserter.set_bucket_size(2);
    inserter
        .insert_items_reversed(&mut [3u64, 1, 2].into_iter())
        .expect("Failed to insert items");
    let sortbuf = inserter.finish().map_err(|(e, _)| e).expect("Failed to add final bucket");
    let mut unreversed = sortbuf.unreversed();
    assert_eq!(unreversed.size_hint(), (3, Some(3)));
    assert_eq!(unreversed.next(), Some(1));
    assert_eq!(unreversed.next(), Some(2));
    assert_eq!(unreversed.size_hint(), (1, Some(1)));
    assert_eq!(unreversed.next(), Some(3));
    assert_eq!(unreversed.next(), None);
    assert_eq!(unreversed.size_hint(), (0, Some(0)));
}

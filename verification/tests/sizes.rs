use sortbuf::bucket::{Bucket, SortedBucket};
use sortbuf::iter::DEFAULT_SHRINK_THRESHOLD_BYTES;
use sortbuf::{Inserter, Iter, SortBuf, DEFAULT_BUCKET_BYTESIZE};

#[test]
fn default_bucket_bytesize_is_16_mib() {
    assert_eq!(DEFAULT_BUCKET_BYTESIZE, 16_777_216);
}

#[test]
fn default_shrink_threshold_is_1_mib() {
    assert_eq!(DEFAULT_SHRINK_THRESHOLD_BYTES, 1_048_576);
}

#[test]
fn new_inserter_aims_at_the_default_bytesize() {
    let inserter = Inserter::new(SortBuf::<u64>::new());
    assert_eq!(inserter.bucket_size(), 2_097_152);
    assert_eq!(inserter.bucket_bytesize(), 16_777_216);

    let inserter = Inserter::new(SortBuf::<u8>::new());
    assert_eq!(inserter.bucket_size(), 16_777_216);

    let inserter = Inserter::new(SortBuf::<(u64, u64, u64)>::new());
    assert_eq!(inserter.bucket_size(), 699_050);
    assert_eq!(inserter.bucket_bytesize(), 16_777_200);
}

#[test]
fn bucket_size_is_read_back() {
    let mut inserter = Inserter::new(SortBuf::<u64>::new());
    assert_eq!(inserter.set_bucket_size(1000).bucket_size(), 1000);
    assert_eq!(inserter.bucket_bytesize(), 8000);
    assert_eq!(inserter.set_bucket_size(1).bucket_size(), 1);
    assert_eq!(inserter.bucket_bytesize(), 8);
}

#[test]
fn bucket_bytesize_is_divided_by_the_item_size() {
    let mut inserter = Inserter::new(SortBuf::<u64>::new());
    assert_eq!(inserter.set_bucket_bytesize(64).bucket_size(), 8);
    assert_eq!(inserter.set_bucket_bytesize(71).bucket_size(), 8);
    assert_eq!(inserter.bucket_bytesize(), 64);
    assert_eq!(inserter.set_bucket_bytesize(72).bucket_size(), 9);
}

#[test]
fn bucket_bytesize_pays_for_at_least_one_item() {
    let mut inserter = Inserter::new(SortBuf::<u64>::new());
    assert_eq!(inserter.set_bucket_bytesize(7).bucket_size(), 1);
    assert_eq!(inserter.set_bucket_bytesize(0).bucket_size(), 1);
    assert_eq!(inserter.bucket_bytesize(), 8);
}

#[test]
fn items_without_size_count_as_one_byte() {
    let mut inserter = Inserter::new(SortBuf::<()>::new());
    assert_eq!(inserter.bucket_size(), DEFAULT_BUCKET_BYTESIZE);
    assert_eq!(inserter.bucket_bytesize(), 0);
    assert_eq!(inserter.set_bucket_bytesize(5).bucket_size(), 5);
    inserter.insert_items(&mut std::iter::repeat(()).take(12)).expect("Failed to insert items");
    let buf = inserter.finish().map_err(|(e, _)| e).expect("Failed to add final bucket");
    assert_eq!(buf.into_iter().into_vec().len(), 12);
}

#[test]
fn bucket_knows_its_length() {
    assert_eq!(Bucket::new(Vec::<u64>::new()).len(), 0);
    assert_eq!(Bucket::new(vec![3u64, 1, 2]).len(), 3);
}

#[test]
fn bucket_is_sorted_ascending() {
    assert_eq!(Bucket::new(vec![3u64, 1, 2, 1]).into_inner(), vec![1, 1, 2, 3]);
}

#[test]
fn sorting_a_sorted_bucket_again_changes_nothing() {
    let once = Bucket::new(vec![5u64, 3, 9, 3, 0, 7]).into_inner();
    let twice = Bucket::new(once.clone()).into_inner();
    assert_eq!(once, vec![0, 3, 3, 5, 7, 9]);
    assert_eq!(twice, once);
}

#[test]
fn bucket_storage_is_trimmed() {
    let mut items = Vec::with_capacity(1000);
    items.extend([3u64, 1, 2]);
    let sorted = SortedBucket::from(Bucket::new(items));
    assert!(sorted.overcapacity() < 997);
}

#[test]
fn sorted_bucket_yields_its_greatest_item_first() {
    let mut sorted = SortedBucket::from(Bucket::new(vec![3u64, 1, 2]));
    assert_eq!(sorted.len(), 3);
    assert_eq!(sorted.next(), Some(3));
    assert_eq!(sorted.len(), 2);
    assert_eq!(sorted.next(), Some(2));
    assert_eq!(sorted.next(), Some(1));
    assert_eq!(sorted.len(), 0);
    assert_eq!(sorted.next(), None);
    assert_eq!(sorted.next(), None);
}

#[test]
fn sorted_bucket_sheds_overcapacity() {
    let mut sorted = SortedBucket::from(Bucket::new((0..1000u64).collect()));
    for expected in (100..1000).rev() {
        assert_eq!(sorted.next(), Some(expected));
    }
    assert!(sorted.overcapacity() >= 900);
    sorted.shink_to_fit();
    assert!(sorted.overcapacity() < 900);
    assert_eq!(sorted.len(), 100);
    assert_eq!(sorted.next(), Some(99));
}

#[test]
fn sorted_buckets_rank_by_their_greatest_items() {
    let small = SortedBucket::from(Bucket::new(vec![1u64, 5]));
    let large = SortedBucket::from(Bucket::new(vec![0u64, 6]));
    let empty: SortedBucket<u64> = SortedBucket::from(Bucket::new(Vec::new()));
    assert!(small.precedes(&large));
    assert!(!large.precedes(&small));
    assert!(small.precedes(&small));
    assert!(empty.precedes(&small));
    assert!(!small.precedes(&empty));
    assert!(empty.precedes(&empty));
}

#[test]
fn empty_sorted_bucket_has_no_items() {
    let mut empty: SortedBucket<u64> = SortedBucket::from(Bucket::new(Vec::new()));
    assert_eq!(empty.len(), 0);
    assert_eq!(empty.next(), None);
}

#[test]
fn iter_counts_what_is_left() {
    let buckets: Vec<SortedBucket<u64>> = vec![
        Bucket::new(vec![4, 8]).into(),
        Bucket::new(vec![]).into(),
        Bucket::new(vec![9, 1, 5]).into(),
    ];
    let mut iter: Iter<u64> = buckets.into();
    assert_eq!(iter.size_hint(), (5, Some(5)));
    assert_eq!(iter.len(), 5);
    assert_eq!(iter.next(), Some(9));
    assert_eq!(iter.size_hint(), (4, Some(4)));
    assert_eq!(iter.next(), Some(8));
    assert_eq!(iter.next(), Some(5));
    assert_eq!(iter.next(), Some(4));
    assert_eq!(iter.next(), Some(1));
    assert_eq!(iter.size_hint(), (0, Some(0)));
    assert_eq!(iter.next(), None);
    assert_eq!(iter.next(), None);
    assert_eq!(iter.len(), 0);
}

#[test]
fn iter_hint_saturates() {
    let buckets: Vec<SortedBucket<()>> = vec![
        Bucket::new(vec![(); usize::MAX]).into(),
        Bucket::new(vec![(); 2]).into(),
    ];
    let iter: Iter<()> = buckets.into();
    assert_eq!(iter.size_hint(), (usize::MAX, None));
}

#[test]
fn iter_without_buckets_is_exhausted() {
    let mut iter: Iter<u64> = Vec::new().into();
    assert_eq!(iter.size_hint(), (0, Some(0)));
    assert_eq!(iter.next(), None);
    assert_eq!(iter.into_vec(), Vec::<u64>::new());
}

#[test]
fn shrink_threshold_does_not_change_the_output() {
    let make = || -> Iter<u64> {
        (0..10u64)
            .map(|n| SortedBucket::from(Bucket::new((0..100).map(|i| 10 * i + n).collect())))
            .collect::<Vec<_>>()
            .into()
    };
    let expected: Vec<u64> = (0..1000).rev().collect();
    assert_eq!(make().into_vec(), expected);
    assert_eq!(make().with_shrink_threshold(0).into_vec(), expected);
    assert_eq!(make().with_shrink_threshold(7).into_vec(), expected);
    assert_eq!(make().with_shrink_threshold_bytes(0).into_vec(), expected);
    assert_eq!(make().with_shrink_threshold_bytes(64).into_vec(), expected);
    assert_eq!(make().with_shrink_threshold(usize::MAX).into_vec(), expected);
}

#[test]
fn items_that_rank_equal_all_come_out() {
    let buckets: Vec<SortedBucket<u8>> = vec![
        Bucket::new(vec![1, 1, 2]).into(),
        Bucket::new(vec![2, 1]).into(),
        Bucket::new(vec![1]).into(),
    ];
    let iter: Iter<u8> = buckets.into();
    assert_eq!(iter.into_vec(), vec![2, 2, 1, 1, 1, 1]);
}

#[test]
fn shrink_threshold_is_counted_in_items() {
    let iter: Iter<u64> = Vec::new().into();
    assert!(format!("{:?}", iter).contains("shrink_threshold: 131072"));
    let iter = iter.with_shrink_threshold(5);
    assert!(format!("{:?}", iter).contains("shrink_threshold: 5"));
    let iter = iter.with_shrink_threshold_bytes(64);
    assert!(format!("{:?}", iter).contains("shrink_threshold: 8"));
    let iter = iter.with_shrink_threshold_bytes(71);
    assert!(format!("{:?}", iter).contains("shrink_threshold: 8"));
    let iter = iter.with_shrink_threshold_bytes(7);
    assert!(format!("{:?}", iter).contains("shrink_threshold: 0"));

    let iter: Iter<()> = Vec::new().into();
    assert!(format!("{:?}", iter).contains("shrink_threshold: 1048576"));
}

#[test]
fn overcapacity_is_what_a_capacity_leaves_unused() {
    let sorted = SortedBucket::from(Bucket::new(vec![3u64, 1, 2]));
    assert_eq!(sorted.overcapacity_of(10), 7);
    assert_eq!(sorted.overcapacity_of(3), 0);
    assert_eq!(sorted.overcapacity_of(2), 0);
    assert_eq!(sorted.overcapacity_of(usize::MAX), usize::MAX - 3);

    let mut items = Vec::with_capacity(1000);
    items.extend([3u64, 1, 2]);
    let capacity = Bucket::new(items).into_inner().capacity();
    let sorted = SortedBucket::from(Bucket::new(vec![3u64, 1, 2]));
    assert_eq!(sorted.overcapacity_of(capacity), capacity - 3);
}

use sortbuf::error::{InsertionError, InsertionResult};
use sortbuf::{Bucket, BucketAccumulator, Inserter, SortBuf};

/// A reservation that cannot succeed
fn capacity_error() -> InsertionError {
    Vec::<u64>::new().try_reserve(usize::MAX).expect_err("Reservation did not fail").into()
}

/// An accumulator that rejects a number of buckets before it accepts any
struct Flaky {
    inner: SortBuf<u64>,
    rejections: usize,
}

impl BucketAccumulator for Flaky {
    type Item = u64;

    fn add_bucket(&mut self, bucket: Bucket<u64>) -> InsertionResult<Bucket<u64>> {
        if self.rejections > 0 {
            self.rejections -= 1;
            Err((capacity_error(), bucket))
        } else {
            self.inner.add_bucket(bucket)
        }
    }
}

#[test]
fn rejected_last_bucket_comes_back_with_the_inserter() {
    let mut inserter = Inserter::new(Flaky { inner: SortBuf::new(), rejections: 2 });
    inserter.set_bucket_size(10);
    inserter.insert_items(&mut [4u64, 9, 1].into_iter()).expect("Failed to insert items");

    let inserter = match inserter.finish() {
        Err((_, inserter)) => inserter,
        Ok(_) => panic!("Finish did not fail"),
    };
    let inserter = match inserter.finish() {
        Err((_, inserter)) => inserter,
        Ok(_) => panic!("Finish did not fail"),
    };
    let flaky = inserter.finish().map_err(|(e, _)| e).expect("Failed to add final bucket");

    assert_eq!(flaky.inner.into_iter().into_vec(), vec![9, 4, 1]);
}

#[test]
fn every_rejection_is_recovered_from() {
    let items: Vec<u64> = (0..100).map(|i| (i * 37) % 101).collect();
    let mut expected = items.clone();
    expected.sort_unstable_by(|a, b| b.cmp(a));

    let mut inserter = Inserter::new(Flaky { inner: SortBuf::new(), rejections: 25 });
    inserter.set_bucket_size(7);
    let mut source = items.into_iter();
    let mut failures = 0;
    while inserter.insert_items(&mut source).is_err() {
        failures += 1;
    }
    let flaky = inserter.finish().map_err(|(e, _)| e).expect("Failed to add final bucket");

    assert_eq!(failures, 25);
    assert_eq!(flaky.inner.into_iter().into_vec(), expected);
}

#[test]
fn rejected_bucket_is_inserted_by_retry() {
    let mut inserter = Inserter::new(Flaky { inner: SortBuf::new(), rejections: 1 });
    inserter.set_bucket_size(2);
    let mut items = vec![4u64, 9, 1, 7, 3].into_iter();

    inserter.insert_items(&mut items).expect_err("Insertion did not fail");
    inserter.insert_items(&mut items).expect("Failed to insert items");
    let flaky = inserter.finish().map_err(|(e, _)| e).expect("Failed to add final bucket");

    assert_eq!(flaky.rejections, 0);
    assert_eq!(flaky.inner.into_iter().into_vec(), vec![9, 7, 4, 3, 1]);
}

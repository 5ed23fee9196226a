use sortbuf::error::InsertionError;
use sortbuf::order::is_le;
use sortbuf::{Bucket, BucketAccumulator, Inserter, SortBuf};

/// A reservation that cannot succeed
fn failed_reservation() -> std::collections::TryReserveError {
    Vec::<u64>::new().try_reserve(usize::MAX).expect_err("Reservation did not fail")
}

#[test]
fn new_buffer_is_empty() {
    assert_eq!(SortBuf::<u64>::new().into_iter().into_vec(), Vec::<u64>::new());
    assert_eq!(SortBuf::<u64>::default().into_iter().size_hint(), (0, Some(0)));
}

#[test]
fn take_leaves_an_empty_buffer() {
    let mut buf = SortBuf::new();
    buf.add_bucket(Bucket::new(vec![2u64, 3])).expect("Failed to add bucket");
    buf.add_bucket(Bucket::new(vec![4u64, 1])).expect("Failed to add bucket");
    let contents = buf.take();
    assert_eq!(buf.into_iter().into_vec(), Vec::<u64>::new());
    assert_eq!(contents.into_iter().into_vec(), vec![4, 3, 2, 1]);
}

#[test]
fn buffer_merges_its_buckets() {
    let mut buf = SortBuf::new();
    buf.add_bucket(Bucket::new(vec![7u64, 1, 4])).expect("Failed to add bucket");
    buf.add_bucket(Bucket::new(vec![])).expect("Failed to add bucket");
    buf.add_bucket(Bucket::new(vec![9, 2])).expect("Failed to add bucket");
    buf.add_bucket(Bucket::new(vec![5])).expect("Failed to add bucket");
    assert_eq!(buf.into_iter().into_vec(), vec![9, 7, 5, 4, 2, 1]);
}

#[test]
fn buffer_places_a_bucket_where_room_was_reserved() {
    let mut buf = SortBuf::new();
    buf.place(Bucket::new(vec![2u64, 1]), Ok(())).expect("Failed to place bucket");
    assert_eq!(buf.into_iter().into_vec(), vec![2, 1]);
}

#[test]
fn buffer_hands_back_a_bucket_without_room() {
    let mut buf = SortBuf::new();
    let (error, bucket) = buf
        .place(Bucket::new(vec![2u64, 1]), Err(failed_reservation()))
        .expect_err("Bucket was placed");
    assert!(error.cause().is_some());
    assert_eq!(bucket.len(), 2);

    // what was rejected comes out once after it was added again
    buf.add_bucket(bucket).expect("Failed to add bucket");
    assert_eq!(buf.into_iter().into_vec(), vec![2, 1]);
}

#[test]
fn borrowed_buffer_takes_buckets() {
    let mut buf = SortBuf::new();
    let mut borrowed = &mut buf;
    borrowed.add_bucket(Bucket::new(vec![1u64, 2])).expect("Failed to add bucket");
    assert_eq!(buf.into_iter().into_vec(), vec![2, 1]);
}

#[test]
fn insertion_error_has_a_message_and_a_cause() {
    let error = InsertionError::from(failed_reservation());
    assert_eq!(error.to_string(), "Could not add items to accumulator");
    assert_eq!(error.cause(), Some(&failed_reservation()));
}

#[test]
fn fewer_items_than_a_bucket_wait_for_the_finish() {
    let mut buf = SortBuf::new();
    let mut inserter = Inserter::new(&mut buf);
    inserter.set_bucket_size(1000);
    inserter.insert_items(&mut (0..999u64)).expect("Failed to insert items");
    let buf = inserter.finish().map_err(|(e, _)| e).expect("Failed to add final bucket");
    assert_eq!(buf.take().into_iter().len(), 999);

    let mut inserter = Inserter::new(&mut *buf);
    inserter.set_bucket_size(1000);
    inserter.insert_items(&mut (0..999u64)).expect("Failed to insert items");
    // without the finish, nothing was committed
    drop(inserter);
    assert_eq!(buf.take().into_iter().len(), 0);
}

#[test]
fn full_buckets_leave_nothing_pending() {
    let mut buf = SortBuf::new();
    let mut inserter = Inserter::new(&mut buf);
    inserter.set_bucket_size(1000);
    inserter.insert_items(&mut (0..3000u64)).expect("Failed to insert items");
    // all items are committed before the finish
    drop(inserter);
    assert_eq!(buf.take().into_iter().len(), 3000);
}

#[test]
fn one_item_more_than_a_bucket_stays_pending() {
    let mut buf = SortBuf::new();
    let mut inserter = Inserter::new(&mut buf);
    inserter.set_bucket_size(1000);
    inserter.insert_items(&mut (0..3001u64)).expect("Failed to insert items");
    drop(inserter);
    assert_eq!(buf.take().into_iter().len(), 3000);
}

#[test]
fn insertion_in_parts_keeps_all_items() {
    let items: Vec<u64> = (0..1000).map(|i| (i * 7919) % 1009).collect();
    let mut expected = items.clone();
    expected.sort_unstable_by(|a, b| b.cmp(a));

    for part in [1, 2, 3, 10, 99, 100, 101, 999, 1000] {
        let mut inserter = Inserter::new(SortBuf::new());
        inserter.set_bucket_size(100);
        for chunk in items.chunks(part) {
            inserter.insert_items(&mut chunk.iter().copied()).expect("Failed to insert items");
        }
        let buf = inserter.finish().map_err(|(e, _)| e).expect("Failed to add final bucket");
        assert_eq!(buf.into_iter().into_vec(), expected);
    }
}

#[test]
fn bucket_size_may_change_between_insertions() {
    let mut buf = SortBuf::new();
    let mut inserter = Inserter::new(&mut buf);
    inserter.set_bucket_size(10);
    inserter.insert_items(&mut (0..15u64)).expect("Failed to insert items");
    inserter.set_bucket_size(1000);
    // the pending buffer was made for ten items: it is sealed at ten, not at a thousand
    inserter.insert_items(&mut (15..25u64)).expect("Failed to insert items");
    drop(inserter);
    assert_eq!(buf.take().into_iter().len(), 20);

    let mut inserter = Inserter::new(&mut buf);
    inserter.set_bucket_size(10);
    inserter.insert_items(&mut (0..15u64)).expect("Failed to insert items");
    inserter.set_bucket_size(3);
    // five items are pending: they are sealed at once, the others in buckets of three
    inserter.insert_items(&mut (15..20u64)).expect("Failed to insert items");
    drop(inserter);
    assert_eq!(buf.take().into_iter().len(), 18);
}

#[test]
fn finish_without_pending_items_adds_no_bucket() {
    let inserter = Inserter::new(SortBuf::<u64>::new());
    let buf = inserter.finish().map_err(|(e, _)| e).expect("Failed to add final bucket");
    assert_eq!(buf.into_iter().size_hint(), (0, Some(0)));
}

#[test]
fn insertion_fails_where_no_room_can_be_reserved() {
    let mut inserter = Inserter::new(SortBuf::new());
    inserter.set_bucket_size(usize::MAX);
    let mut items = [3u64, 1, 2].into_iter();

    let error = inserter.insert_items(&mut items).expect_err("Insertion did not fail");
    assert_eq!(error.to_string(), "Could not add items to accumulator");
    assert!(error.cause().is_some());

    // no item was taken from the source: all of them are inserted by the next attempt
    inserter.set_bucket_size(2);
    inserter.insert_items(&mut items).expect("Failed to insert items");
    let buf = inserter.finish().map_err(|(e, _)| e).expect("Failed to add final bucket");
    assert_eq!(buf.into_iter().into_vec(), vec![3, 2, 1]);
}

#[test]
fn settle_takes_back_a_rejected_bucket() {
    let mut inserter = Inserter::new(SortBuf::new());
    inserter.set_bucket_size(4);
    inserter.settle(Ok(())).expect("Nothing was rejected");

    let rejected = Bucket::new(vec![8u64, 6, 7]);
    inserter
        .settle(Err((InsertionError::from(failed_reservation()), rejected)))
        .expect_err("Error was not handed on");
    let rejected = Bucket::new(vec![5u64]);
    inserter
        .settle(Err((InsertionError::from(failed_reservation()), rejected)))
        .expect_err("Error was not handed on");

    inserter.insert_items(&mut [1u64, 2].into_iter()).expect("Failed to insert items");
    let buf = inserter.finish().map_err(|(e, _)| e).expect("Failed to add final bucket");
    assert_eq!(buf.into_iter().into_vec(), vec![8, 7, 6, 5, 2, 1]);
}

#[test]
fn reserved_room_raises_the_fill_limit() {
    let mut inserter = Inserter::new(SortBuf::new());
    inserter.set_bucket_size(3);
    inserter.reserved(Ok(())).expect("Room was reserved");
    // with room for three items, the inserter does not reserve again before it seals them
    inserter.insert_items(&mut [5u64, 6].into_iter()).expect("Failed to insert items");
    inserter.set_bucket_size(usize::MAX);
    inserter.insert_items(&mut [7u64].into_iter()).expect_err("Insertion did not fail");
    inserter.set_bucket_size(3);
    let buf = inserter.finish().map_err(|(e, _)| e).expect("Failed to add final bucket");
    assert_eq!(buf.into_iter().into_vec(), vec![7, 6, 5]);
}

#[test]
fn failed_reservation_is_handed_on() {
    let mut inserter = Inserter::new(SortBuf::<u64>::new());
    let error = inserter.reserved(Err(failed_reservation())).expect_err("Error was not handed on");
    assert_eq!(error.cause(), Some(&failed_reservation()));
    assert_eq!(error.to_string(), "Could not add items to accumulator");
}

#[test]
fn is_le_follows_the_order() {
    assert!(is_le(&1u64, &2));
    assert!(is_le(&2u64, &2));
    assert!(!is_le(&3u64, &2));
    assert!(is_le(&std::cmp::Reverse(3u64), &std::cmp::Reverse(2)));
}

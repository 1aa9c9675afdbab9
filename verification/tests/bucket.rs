use rusty_vessel::storage::bucket::{earlier, position_in, Bucket};
use rusty_vessel::storage::bucket_issuer::BucketIssuer;

#[test]
fn new_keeps_start_and_interval() {
    let bucket = Bucket::new(120_000, 60_000);
    assert_eq!(bucket.val, 120_000);
    assert_eq!(bucket.interval, 60_000);
}

#[test]
fn epoch_starts_at_zero() {
    assert_eq!(Bucket::epoch(60_000), Bucket::new(0, 60_000));
}

#[test]
fn next_is_the_adjacent_bucket() {
    let bucket = Bucket::new(60_000, 60_000);
    assert!(bucket.has_next());
    assert_eq!(bucket.next(), Bucket::new(120_000, 60_000));
}

#[test]
fn the_last_bucket_has_no_next() {
    let bucket = Bucket::new(i64::MAX - 10, 60_000);
    assert!(!bucket.has_next());
}

#[test]
fn for_time_floors_to_the_interval() {
    let bucket = Bucket::for_time(125_000, 60_000);
    assert_eq!(bucket.val, 120_000);
    assert_eq!(bucket.interval, 60_000);
}

#[test]
fn for_time_keeps_a_multiple() {
    assert_eq!(Bucket::for_time(120_000, 60_000).val, 120_000);
    assert_eq!(Bucket::for_time(0, 60_000).val, 0);
}

#[test]
fn for_time_floors_negative_timestamps_downwards() {
    assert!(Bucket::fits(-1, 60_000));
    assert_eq!(Bucket::for_time(-1, 60_000).val, -60_000);
    assert_eq!(Bucket::for_time(-60_000, 60_000).val, -60_000);
    assert_eq!(Bucket::for_time(-60_001, 60_000).val, -120_000);
}

#[test]
fn the_bucket_of_a_timestamp_holds_it() {
    for time in [-250_i64, -1, 0, 1, 99, 100, 101, 12_345] {
        let bucket = Bucket::for_time(time, 100);
        assert!(bucket.val <= time && time < bucket.val + 100);
        assert_eq!(bucket.val % 100, 0);
    }
}

#[test]
fn fits_refuses_what_cannot_be_addressed() {
    assert!(!Bucket::fits(5, 0));
    assert!(!Bucket::fits(5, -60_000));
    assert!(!Bucket::fits(i64::MIN + 1, 60_000));
    assert!(Bucket::fits(i64::MIN, 1));
    assert!(Bucket::fits(i64::MAX, i64::MAX));
    assert_eq!(Bucket::for_time(i64::MAX, i64::MAX).val, i64::MAX);
}

#[test]
fn position_in_is_never_negative() {
    assert_eq!(position_in(7, 3), 1);
    assert_eq!(position_in(-1, 3), 2);
    assert_eq!(position_in(-3, 3), 0);
    assert_eq!(position_in(0, 3), 0);
}

#[test]
fn issuer_takes_its_width_from_the_stride() {
    let issuer = BucketIssuer::new(1000, chrono::Duration::seconds(60)).unwrap();
    assert_eq!(issuer.bucket_width, 60_000_000);
    let other = BucketIssuer::new(3, chrono::Duration::milliseconds(250)).unwrap();
    assert_eq!(other.bucket_width, 750);
}

#[test]
fn issuer_from_millis_multiplies() {
    assert_eq!(BucketIssuer::from_millis(1000, 60_000).unwrap().bucket_width, 60_000_000);
}

#[test]
fn issuer_refuses_a_width_that_is_not_positive() {
    assert!(BucketIssuer::from_millis(0, 60_000).is_none());
    assert!(BucketIssuer::from_millis(10, 0).is_none());
    assert!(BucketIssuer::from_millis(-1, 60_000).is_none());
    assert!(BucketIssuer::new(10, chrono::Duration::zero()).is_none());
}

#[test]
fn issuer_refuses_a_width_that_does_not_fit() {
    assert!(BucketIssuer::from_millis(i32::MAX, i64::MAX).is_none());
}

#[test]
fn issuer_hands_out_the_bucket_of_an_instant() {
    let issuer = BucketIssuer::from_millis(10, 100).unwrap();
    assert!(issuer.issues(2_500));
    let bucket = issuer.get_bucket_for(2_500);
    assert_eq!(bucket, Bucket::new(2_000, 1_000));
    assert_eq!(issuer.next(bucket), Bucket::new(3_000, 1_000));
}

#[test]
fn buckets_are_ordered_by_their_start() {
    let first = Bucket::new(0, 60_000);
    let second = Bucket::new(60_000, 60_000);
    let third = Bucket::new(120_000, 60_000);
    assert!(first < second && second < third && first < third);
    assert!(third > first && !(second < first));
    assert!(first <= first && first >= first);
    assert_eq!(first.partial_cmp(&second), Some(std::cmp::Ordering::Less));
    assert_eq!(second.cmp(&first), std::cmp::Ordering::Greater);
    assert_eq!(second.cmp(&second), std::cmp::Ordering::Equal);
    assert!(earlier(first, second));
    assert!(!earlier(second, first));
    assert!(!earlier(first, first));
    assert!(Bucket::new(-60_000, 60_000) < first);
    let mut buckets = vec![third, first, second];
    buckets.sort();
    assert_eq!(buckets, vec![first, second, third]);
    assert_eq!(buckets.iter().max(), Some(&third));
}

#[test]
fn the_order_by_hand_is_the_derived_order() {
    let buckets = [
        Bucket::new(0, 1),
        Bucket::new(0, 2),
        Bucket::new(1, 1),
        Bucket::new(-1, 5),
        Bucket::new(1, 0),
    ];
    for a in buckets {
        for b in buckets {
            assert_eq!(a.partial_cmp(&b), Some(a.cmp(&b)));
            assert_eq!(earlier(a, b), a < b);
        }
    }
}

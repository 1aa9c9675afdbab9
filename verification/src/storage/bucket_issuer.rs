use crate::storage::bucket::{bucket_fits, bucket_start, Bucket, UnixTime};
use vstd::prelude::*;

verus! {

/// `chrono::TimeDelta`, the type behind `chrono::Duration`: a value of it is
/// carried through and never looked into.
#[verifier::external_type_specification]
#[verifier::external_body]
pub struct ExTimeDelta(chrono::TimeDelta);

/// The number of whole milliseconds in a duration, as
/// `chrono::TimeDelta::num_milliseconds` gives it. The duration has no view,
/// so the name takes the duration itself.
pub uninterp spec fn milliseconds_in(stride: chrono::TimeDelta) -> i64;

/// `chrono::TimeDelta::num_milliseconds`: the number of whole milliseconds in
/// the duration, which depends on the duration alone.
#[verifier::external_body]
fn whole_milliseconds(stride: &chrono::TimeDelta) -> (millis: i64)
    ensures
        millis == milliseconds_in(*stride),
{
    stride.num_milliseconds()
}

/// The width of the buckets of batches of `batch_size` samples that lie
/// `millis` milliseconds apart, where a timestamp can hold it and it is positive.
pub open spec fn width_of(batch_size: i32, millis: i64) -> Option<i64> {
    if 0 < batch_size * millis <= i64::MAX {
        Some((batch_size * millis) as i64)
    } else {
        None
    }
}

/// Hands out the buckets of one width.
#[derive(PartialEq, Eq, Structural, Clone, Copy, Debug)]
pub struct BucketIssuer {
    pub bucket_width: i64,
}

impl BucketIssuer {
    /// The issuer for batches of `batch_size` samples that lie `stride`
    /// apart: `from_millis` of the whole milliseconds in `stride`.
    pub fn new(batch_size: i32, stride: chrono::Duration) -> (issuer: Option<BucketIssuer>)
        ensures
            issuer == BucketIssuer::issued(batch_size, milliseconds_in(stride)),
    {
        let millis = whole_milliseconds(&stride);
        BucketIssuer::from_millis(batch_size, millis)
    }

    /// The issuer that `from_millis` makes.
    pub open spec fn issued(batch_size: i32, millis: i64) -> Option<BucketIssuer> {
        match width_of(batch_size, millis) {
            Some(bucket_width) => Some(BucketIssuer { bucket_width }),
            None => None,
        }
    }

    /// The issuer for batches of `batch_size` samples that lie `millis`
    /// milliseconds apart; none where the width of a bucket would not be
    /// positive or would not fit a timestamp.
    pub fn from_millis(batch_size: i32, millis: i64) -> (issuer: Option<BucketIssuer>)
        ensures
            issuer == BucketIssuer::issued(batch_size, millis),
    {
        let count: i64 = batch_size as i64;
        match count.checked_mul(millis) {
            Some(bucket_width) => {
                if bucket_width > 0 {
                    Some(BucketIssuer { bucket_width })
                } else {
                    None
                }
            },
            None => None,
        }
    }

    /// Whether `get_bucket_for` can be asked for the bucket of `instant_unix`.
    pub fn issues(&self, instant_unix: UnixTime) -> (yes: bool)
        ensures
            yes == bucket_fits(instant_unix as int, self.bucket_width as int),
    {
        Bucket::fits(instant_unix, self.bucket_width)
    }

    /// The bucket of this issuer's width that an instant falls into.
    pub fn get_bucket_for(&self, instant_unix: UnixTime) -> (bucket: Bucket)
        requires
            bucket_fits(instant_unix as int, self.bucket_width as int),
        ensures
            bucket == (Bucket {
                val: bucket_start(instant_unix as int, self.bucket_width as int) as i64,
                interval: self.bucket_width,
            }),
            bucket.aligned(),
            bucket.holds(instant_unix as int),
    {
        Bucket::for_time(instant_unix, self.bucket_width)
    }

    /// The bucket of this issuer's width that follows `bucket`.
    pub fn next(&self, bucket: Bucket) -> (following: Bucket)
        requires
            i64::MIN <= bucket.val + self.bucket_width <= i64::MAX,
        ensures
            following == (Bucket {
                val: (bucket.val + self.bucket_width) as i64,
                interval: self.bucket_width,
            }),
    {
        Bucket::new(bucket.val + self.bucket_width, self.bucket_width)
    }
}

} // verus!

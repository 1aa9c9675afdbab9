use std::cmp::Ordering;
use vstd::prelude::*;
use vstd::std_specs::cmp::PartialOrdSpec;

verus! {

/// Milliseconds since the epoch.
pub type UnixTime = i64;

/// Start of the interval of width `interval` that contains `time`: the
/// greatest multiple of `interval` that is not above `time`.
pub open spec fn bucket_start(time: int, interval: int) -> int {
    time - time % interval
}

/// Whether the bucket of `time` has a start that an `i64` can hold.
pub open spec fn bucket_fits(time: int, interval: int) -> bool {
    interval > 0 && bucket_start(time, interval) >= i64::MIN
}

/// A fixed-width time interval, the key under which samples are stored.
/// Buckets are ordered by their start, and those of one start by their width.
#[derive(PartialEq, Eq, Structural, Ord, Clone, Copy, Debug, Hash)]
pub struct Bucket {
    pub val: i64,
    pub interval: i64,
}

impl PartialOrd for Bucket {
    fn partial_cmp(&self, other: &Bucket) -> (order: Option<Ordering>) {
        if self.val < other.val {
            Some(Ordering::Less)
        } else if self.val > other.val {
            Some(Ordering::Greater)
        } else if self.interval < other.interval {
            Some(Ordering::Less)
        } else if self.interval > other.interval {
            Some(Ordering::Greater)
        } else {
            Some(Ordering::Equal)
        }
    }
}

impl vstd::std_specs::cmp::PartialOrdSpecImpl for Bucket {
    open spec fn obeys_partial_cmp_spec() -> bool {
        true
    }

    open spec fn partial_cmp_spec(&self, other: &Bucket) -> Option<Ordering> {
        if self.val < other.val {
            Some(Ordering::Less)
        } else if self.val > other.val {
            Some(Ordering::Greater)
        } else if self.interval < other.interval {
            Some(Ordering::Less)
        } else if self.interval > other.interval {
            Some(Ordering::Greater)
        } else {
            Some(Ordering::Equal)
        }
    }
}

/// Buckets of one width are ordered as their starts are: the one that starts
/// earlier is the lesser, and two that start together are equal.
pub proof fn lemma_ordered_by_start(first: Bucket, second: Bucket)
    requires
        first.interval == second.interval,
    ensures
        first.partial_cmp_spec(&second) == Some(Ordering::Less) <==> first.val < second.val,
        first.partial_cmp_spec(&second) == Some(Ordering::Greater) <==> first.val > second.val,
        first.partial_cmp_spec(&second) == Some(Ordering::Equal) <==> first == second,
{
}

/// Whether the first bucket lies before the second.
pub fn earlier(first: Bucket, second: Bucket) -> (yes: bool)
    ensures
        yes == (first.partial_cmp_spec(&second) == Some(Ordering::Less)),
        first.interval == second.interval ==> yes == (first.val < second.val),
{
    first < second
}

impl Bucket {
    /// The interval starts on a multiple of its width.
    pub open spec fn aligned(self) -> bool {
        self.interval > 0 && self.val % self.interval == 0
    }

    /// Whether `time` falls into this interval.
    pub open spec fn holds(self, time: int) -> bool {
        self.val <= time < self.val + self.interval
    }

    /// The interval of width `interval` that starts at `val`.
    pub fn new(val: i64, interval: i64) -> (bucket: Bucket)
        ensures
            bucket == (Bucket { val, interval }),
    {
        Bucket { val, interval }
    }

    /// The interval of width `interval` that starts at the epoch.
    pub fn epoch(interval: i64) -> (bucket: Bucket)
        ensures
            bucket == (Bucket { val: 0, interval }),
    {
        Bucket { val: 0, interval }
    }

    /// Whether the interval that follows this one can be addressed.
    pub fn has_next(&self) -> (yes: bool)
        ensures
            yes == (i64::MIN <= self.val + self.interval <= i64::MAX),
    {
        self.val.checked_add(self.interval).is_some()
    }

    /// The interval that follows this one.
    pub fn next(&self) -> (bucket: Bucket)
        requires
            i64::MIN <= self.val + self.interval <= i64::MAX,
        ensures
            bucket == (Bucket { val: (self.val + self.interval) as i64, interval: self.interval }),
            self.aligned() ==> bucket.aligned(),
    {
        proof {
            if self.aligned() {
                lemma_next_multiple(self.val as int, self.interval as int);
            }
        }
        Bucket::new(self.val + self.interval, self.interval)
    }

    /// Whether `for_time` can be asked for the bucket of `val`.
    pub fn fits(val: i64, interval: i64) -> (yes: bool)
        ensures
            yes == bucket_fits(val as int, interval as int),
    {
        if interval <= 0 {
            return false;
        }
        let rem = position_in(val, interval);
        val.checked_sub(rem).is_some()
    }

    /// The bucket of width `interval` that the timestamp `val` falls into:
    /// `val` floored to a multiple of `interval`.
    pub fn for_time(val: i64, interval: i64) -> (bucket: Bucket)
        requires
            bucket_fits(val as int, interval as int),
        ensures
            bucket == (Bucket { val: bucket_start(val as int, interval as int) as i64, interval }),
            bucket.aligned(),
            bucket.holds(val as int),
    {
        let rem = position_in(val, interval);
        proof {
            lemma_start_is_multiple(val as int, interval as int);
        }
        Bucket { val: val - rem, interval }
    }
}

/// Offset of `time` from the start of its interval of width `width`.
pub fn position_in(time: i64, width: i64) -> (offset: i64)
    requires
        width > 0,
    ensures
        offset == time % width,
        0 <= offset < width,
{
    match time.checked_rem_euclid(width) {
        Some(offset) => offset,
        None => 0,
    }
}

/// The start of a timestamp's interval is the multiple of the width that
/// lies at or below the timestamp and less than one width away.
pub proof fn lemma_start_is_multiple(time: int, interval: int)
    requires
        interval > 0,
    ensures
        bucket_start(time, interval) % interval == 0,
        bucket_start(time, interval) <= time < bucket_start(time, interval) + interval,
        bucket_start(time, interval) == interval * (time / interval),
{
    vstd::arithmetic::div_mod::lemma_fundamental_div_mod(time, interval);
    vstd::arithmetic::div_mod::lemma_mod_multiples_basic(time / interval, interval);
    assert(interval * (time / interval) == (time / interval) * interval) by (nonlinear_arith);
}

/// One width behind a multiple of the width lies the next multiple.
pub proof fn lemma_next_multiple(start: int, interval: int)
    requires
        interval > 0,
        start % interval == 0,
    ensures
        (start + interval) % interval == 0,
{
    vstd::arithmetic::div_mod::lemma_mod_add_multiples_vanish(start, interval);
}

} // verus!

use vstd::prelude::*;

verus! {

/// The sign bit of a binary64 bit pattern; the bits below it hold the
/// exponent and the fraction.
pub const SIGN_BIT: u64 = 0x8000_0000_0000_0000;

/// The exponent bits all set and the fraction zero: positive infinity. Every
/// pattern whose lower 63 bits are above this one is a NaN.
pub const INFINITY_BITS: u64 = 0x7ff0_0000_0000_0000;

/// Exponent and fraction of a bit pattern, without the sign.
pub open spec fn magnitude(bits: u64) -> int {
    (bits % 0x8000_0000_0000_0000) as int
}

/// Whether the bit pattern is one of the NaNs.
pub open spec fn is_nan(bits: u64) -> bool {
    magnitude(bits) > 0x7ff0_0000_0000_0000
}

/// An integer that orders the patterns that are not NaN as their values are
/// ordered: the magnitude, negated where the sign bit is set. Both zeros get 0.
pub open spec fn order_key(bits: u64) -> int {
    if bits >= 0x8000_0000_0000_0000 {
        -magnitude(bits)
    } else {
        magnitude(bits)
    }
}

/// `a < b` as IEEE 754 defines it for the two values: false when either is a
/// NaN, and the two zeros are equal.
pub open spec fn value_lt(a: u64, b: u64) -> bool {
    !is_nan(a) && !is_nan(b) && order_key(a) < order_key(b)
}

/// A single timestamped sample. `data` is the IEEE 754 binary64 bit pattern of
/// the sample's value, so that a record read back is the record written, bit
/// for bit.
#[derive(PartialEq, Eq, Structural, Clone, Copy, Debug)]
pub struct Blob {
    pub timestamp: i64,
    pub data: u64,
}

impl Blob {
    /// The sample of the given time whose value has the bit pattern `data`.
    pub fn new(timestamp: i64, data: u64) -> (blob: Blob)
        ensures
            blob == (Blob { timestamp, data }),
    {
        Blob { timestamp, data }
    }
}

/// Whether the value with pattern `a` is less than the one with pattern `b`.
pub fn data_lt(a: u64, b: u64) -> (less: bool)
    ensures
        less == value_lt(a, b),
{
    let ma = a % SIGN_BIT;
    let mb = b % SIGN_BIT;
    if ma > INFINITY_BITS || mb > INFINITY_BITS {
        return false;
    }
    let a_negative = a >= SIGN_BIT;
    let b_negative = b >= SIGN_BIT;
    if a_negative {
        if b_negative {
            mb < ma
        } else {
            ma > 0 || mb > 0
        }
    } else {
        if b_negative {
            false
        } else {
            ma < mb
        }
    }
}

/// Whether the value with pattern `a` is greater than the one with pattern `b`.
pub fn data_gt(a: u64, b: u64) -> (greater: bool)
    ensures
        greater == value_lt(b, a),
{
    data_lt(b, a)
}

} // verus!

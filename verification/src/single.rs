//! Single-precision numbers held as their IEEE 754 bit patterns.
//!
//! Ranks and scores are binary32 values. Arithmetic on them is the caller's
//! business; what can be decided on the bit pattern alone (finiteness and
//! order) is decided here, exactly.

use vstd::prelude::*;

verus! {

/// The bit pattern of 1.0.
pub const ONE_BITS: u32 = 0x3F80_0000;

/// The bit pattern of 0.98, the retention floor.
pub const FLOOR_BITS: u32 = 0x3F7A_E148;

/// The bit pattern of 9000.0, the ceiling on the sum of all ranks.
pub const CEILING_BITS: u32 = 0x460C_A000;

/// The bit pattern of positive infinity; every larger magnitude is a NaN.
pub const INFINITY_BITS: u32 = 0x7F80_0000;

/// The bit pattern of a quiet NaN.
pub const NAN_BITS: u32 = 0x7FC0_0000;

/// The sign bit.
pub const SIGN_BIT: u32 = 0x8000_0000;

/// A binary32 value: one sign bit, eight exponent bits, 23 fraction bits.
#[derive(Clone, Copy, Debug, PartialEq, Eq, Structural)]
pub struct Single {
    pub bits: u32,
}

impl Single {
    /// The pattern with the sign bit cleared.
    pub open spec fn magnitude(self) -> int {
        if self.bits >= SIGN_BIT {
            self.bits - SIGN_BIT
        } else {
            self.bits as int
        }
    }

    /// Is the sign bit set?
    pub open spec fn negative(self) -> bool {
        self.bits >= SIGN_BIT
    }

    /// Neither an infinity nor a NaN.
    pub open spec fn finite(self) -> bool {
        self.magnitude() < INFINITY_BITS
    }

    /// Not a number.
    pub open spec fn nan(self) -> bool {
        self.magnitude() > INFINITY_BITS
    }

    /// An integer that orders the values that are not NaN as IEEE 754 does:
    /// both zeros share the key 0.
    pub open spec fn key(self) -> int {
        if self.negative() {
            -self.magnitude()
        } else {
            self.magnitude()
        }
    }

    /// IEEE 754 `<`: false whenever either side is a NaN.
    pub open spec fn below(self, other: Single) -> bool {
        !self.nan() && !other.nan() && self.key() < other.key()
    }

    /// IEEE 754 `==`: false whenever either side is a NaN; the zeros are equal.
    pub open spec fn same(self, other: Single) -> bool {
        !self.nan() && !other.nan() && self.key() == other.key()
    }

    pub fn from_bits(bits: u32) -> (r: Single)
        ensures
            r.bits == bits,
    {
        Single { bits }
    }

    pub fn to_bits(self) -> (r: u32)
        ensures
            r == self.bits,
    {
        self.bits
    }

    /// The value 1.0.
    pub fn one() -> (r: Single)
        ensures
            r.bits == ONE_BITS,
            r.finite(),
    {
        Single { bits: ONE_BITS }
    }

    /// A value that is not a number.
    pub fn not_a_number() -> (r: Single)
        ensures
            r.bits == NAN_BITS,
            !r.finite(),
    {
        Single { bits: NAN_BITS }
    }

    /// The retention floor, 0.98.
    pub fn floor() -> (r: Single)
        ensures
            r.bits == FLOOR_BITS,
    {
        Single { bits: FLOOR_BITS }
    }

    /// The ceiling on the sum of all ranks, 9000.0.
    pub fn ceiling() -> (r: Single)
        ensures
            r.bits == CEILING_BITS,
    {
        Single { bits: CEILING_BITS }
    }

    fn magnitude_bits(self) -> (r: u32)
        ensures
            r == self.magnitude(),
    {
        if self.bits >= SIGN_BIT {
            self.bits - SIGN_BIT
        } else {
            self.bits
        }
    }

    pub fn is_finite(self) -> (r: bool)
        ensures
            r == self.finite(),
    {
        self.magnitude_bits() < INFINITY_BITS
    }

    pub fn is_nan(self) -> (r: bool)
        ensures
            r == self.nan(),
    {
        self.magnitude_bits() > INFINITY_BITS
    }

    /// The order key as a machine integer.
    pub fn order_key(self) -> (r: i64)
        ensures
            r == self.key(),
    {
        let m: u32 = self.magnitude_bits();
        let wide: i64 = m as i64;
        if self.bits >= SIGN_BIT {
            -wide
        } else {
            wide
        }
    }

    /// `self < other` as IEEE 754 compares.
    pub fn lt(self, other: Single) -> (r: bool)
        ensures
            r == self.below(other),
    {
        !self.is_nan() && !other.is_nan() && self.order_key() < other.order_key()
    }

    /// `self > other` as IEEE 754 compares.
    pub fn gt(self, other: Single) -> (r: bool)
        ensures
            r == other.below(self),
    {
        other.lt(self)
    }
}

/// On values that are not NaN, `below` is a strict total order up to `same`:
/// exactly one of less, same and greater holds, and less is transitive.
pub proof fn lemma_order_total(a: Single, b: Single, c: Single)
    requires
        !a.nan(),
        !b.nan(),
        !c.nan(),
    ensures
        a.below(b) || a.same(b) || b.below(a),
        !(a.below(b) && b.below(a)),
        !(a.below(b) && a.same(b)),
        a.below(b) && b.below(c) ==> a.below(c),
{
}

/// One is finite, lies above the retention floor and below the ceiling.
pub proof fn lemma_constants()
    ensures
        (Single { bits: ONE_BITS }).finite(),
        (Single { bits: FLOOR_BITS }).below(Single { bits: ONE_BITS }),
        (Single { bits: ONE_BITS }).below(Single { bits: CEILING_BITS }),
{
}

} // verus!

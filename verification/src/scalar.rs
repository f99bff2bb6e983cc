//! Single-precision numbers held by their bit patterns.
//!
//! Similarity scores and embedding components are IEEE 754 binary32 values.
//! The library never computes with them; it carries, compares and stores them,
//! and for that the bit pattern is all it needs.

use vstd::prelude::*;

verus! {

/// An IEEE 754 binary32 value, as its bit pattern.
#[derive(Clone, Copy, Debug, PartialEq, Eq, Structural)]
pub struct Scalar {
    pub bits: u32,
}

/// The bit that holds the sign.
pub const SIGN_BIT: u32 = 0x8000_0000;

/// The bit pattern of positive infinity.
pub const INFINITY_BITS: u32 = 0x7f80_0000;

/// The bit pattern of ten to the sixteenth power.
pub const COORDINATE_LIMIT_BITS: u32 = 0x5a0e_1bca;

impl Scalar {
    /// The pattern with the sign cleared: it grows with the absolute value.
    pub open spec fn magnitude(self) -> int {
        if self.bits >= SIGN_BIT {
            self.bits - SIGN_BIT
        } else {
            self.bits as int
        }
    }

    /// An integer that orders numbers as their values do; both zeros map to 0.
    pub open spec fn key(self) -> int {
        if self.bits >= SIGN_BIT {
            -self.magnitude()
        } else {
            self.magnitude()
        }
    }

    /// Whether the pattern encodes no number.
    pub open spec fn nan(self) -> bool {
        self.magnitude() > INFINITY_BITS
    }

    /// The numeric `<`: false as soon as one side is not a number.
    pub open spec fn less(self, other: Scalar) -> bool {
        !self.nan() && !other.nan() && self.key() < other.key()
    }

    /// Whether the value is a number of absolute value below ten to the
    /// sixteenth power: what the quantized index takes as a coordinate.
    pub open spec fn coordinate(self) -> bool {
        self.magnitude() < COORDINATE_LIMIT_BITS
    }

    /// Whether the pattern encodes no number.
    pub fn is_nan(self) -> (r: bool)
        ensures
            r == self.nan(),
    {
        let magnitude: u32 = if self.bits >= SIGN_BIT {
            self.bits - SIGN_BIT
        } else {
            self.bits
        };
        magnitude > INFINITY_BITS
    }

    /// Compares by numeric value.
    pub fn is_less(self, other: Scalar) -> (r: bool)
        ensures
            r == self.less(other),
    {
        if self.is_nan() || other.is_nan() {
            false
        } else if self.bits >= SIGN_BIT {
            if other.bits >= SIGN_BIT {
                self.bits > other.bits
            } else {
                self.bits > SIGN_BIT || other.bits > 0
            }
        } else {
            other.bits < SIGN_BIT && self.bits < other.bits
        }
    }

    /// Whether the quantized index takes the value as a coordinate.
    pub fn is_coordinate(self) -> (r: bool)
        ensures
            r == self.coordinate(),
    {
        let magnitude: u32 = if self.bits >= SIGN_BIT {
            self.bits - SIGN_BIT
        } else {
            self.bits
        };
        magnitude < COORDINATE_LIMIT_BITS
    }
}

/// The numeric order is a strict order, total on numbers: it is irreflexive and
/// transitive, and two numbers of which neither is less have the same value.
pub proof fn law_scalar_order(a: Scalar, b: Scalar, c: Scalar)
    ensures
        !a.less(a),
        a.less(b) ==> !b.less(a),
        a.less(b) && b.less(c) ==> a.less(c),
        !a.nan() && !b.nan() && !a.less(b) && !b.less(a) ==> a.key() == b.key(),
{
}

/// The order is that of the values: a number with its sign bit set is not above one
/// without, among numbers without it the greater pattern is the greater number, and
/// among those with it the lesser. The two zeros are equal, and so nothing is between
/// them. Patterns above that of infinity are no numbers and have no order.
pub proof fn law_scalar_order_is_numeric(a: Scalar, b: Scalar)
    ensures
        a.bits <= 0x7f80_0000 && b.bits <= 0x7f80_0000 ==> (a.less(b) <==> a.bits < b.bits),
        0x8000_0000 <= a.bits <= 0xff80_0000 && 0x8000_0000 <= b.bits <= 0xff80_0000 ==> (a.less(b)
            <==> a.bits > b.bits),
        0x8000_0000 <= a.bits <= 0xff80_0000 && b.bits <= 0x7f80_0000 ==> !b.less(a) && (a.less(b)
            <==> !(a.bits == 0x8000_0000 && b.bits == 0)),
        0x7f80_0000 < a.bits < 0x8000_0000 || a.bits > 0xff80_0000 ==> !a.less(b) && !b.less(a),
        a.nan() <==> 0x7f80_0000 < a.bits < 0x8000_0000 || a.bits > 0xff80_0000,
{
}

} // verus!

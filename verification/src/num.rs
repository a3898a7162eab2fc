//! Binary64 numbers, carried by their bit patterns and compared exactly.

use vstd::prelude::*;
use crate::text::join2;

verus! {

/// A binary64 number, as its bit pattern.
#[derive(Debug, Clone, Copy, PartialEq, Eq, Structural)]
pub struct Num {
    pub bits: u64,
}

/// The weight of the sign bit.
pub const SIGN_BIT: u64 = 0x8000_0000_0000_0000;

/// The pattern of positive infinity; what lies above it is not a number.
pub const INFINITY_BITS: u64 = 0x7ff0_0000_0000_0000;

/// The pattern of one million.
pub const MILLION_BITS: u64 = 0x412e_8480_0000_0000;

impl Num {
    /// The pattern without its sign.
    pub open spec fn magnitude(self) -> int {
        if self.bits >= SIGN_BIT {
            self.bits - SIGN_BIT
        } else {
            self.bits as int
        }
    }

    /// The pattern is not that of a number.
    pub open spec fn is_nan(self) -> bool {
        self.magnitude() > INFINITY_BITS
    }

    /// The place of a number among all numbers. The patterns of positive
    /// numbers ascend as the numbers do, those of negative ones descend, and
    /// both zeros share one place.
    pub open spec fn rank(self) -> int {
        if self.bits >= SIGN_BIT {
            -self.magnitude()
        } else {
            self.magnitude()
        }
    }

    /// One number is less than or equal to another; never so of what is not a number.
    pub open spec fn le(self, other: Num) -> bool {
        !self.is_nan() && !other.is_nan() && self.rank() <= other.rank()
    }

    /// One number is less than another; never so of what is not a number.
    pub open spec fn lt(self, other: Num) -> bool {
        !self.is_nan() && !other.is_nan() && self.rank() < other.rank()
    }

    /// Two numbers are equal; never so of what is not a number.
    pub open spec fn equals(self, other: Num) -> bool {
        !self.is_nan() && !other.is_nan() && self.rank() == other.rank()
    }

    /// A number of which the absolute value is at most one million.
    pub open spec fn in_range(self) -> bool {
        self.magnitude() <= MILLION_BITS
    }

    fn magnitude_bits(self) -> (r: u64)
        ensures
            r == self.magnitude(),
    {
        if self.bits >= SIGN_BIT {
            self.bits - SIGN_BIT
        } else {
            self.bits
        }
    }

    /// Whether the pattern is not that of a number.
    pub fn nan(self) -> (r: bool)
        ensures
            r == self.is_nan(),
    {
        self.magnitude_bits() > INFINITY_BITS
    }

    /// Whether one number is less than or equal to another.
    pub fn at_most(self, other: Num) -> (r: bool)
        ensures
            r == self.le(other),
    {
        if self.nan() || other.nan() {
            return false;
        }
        let a = self.magnitude_bits();
        let b = other.magnitude_bits();
        if self.bits >= SIGN_BIT {
            if other.bits >= SIGN_BIT {
                b <= a
            } else {
                true
            }
        } else if other.bits >= SIGN_BIT {
            a == 0 && b == 0
        } else {
            a <= b
        }
    }

    /// Whether one number is less than another.
    pub fn below(self, other: Num) -> (r: bool)
        ensures
            r == self.lt(other),
    {
        !self.nan() && !other.nan() && !other.at_most(self)
    }

    /// Whether two numbers are equal.
    pub fn same(self, other: Num) -> (r: bool)
        ensures
            r == self.equals(other),
    {
        self.at_most(other) && other.at_most(self)
    }

    /// The lesser of two numbers; the other one when one is not a number.
    pub open spec fn lesser(self, other: Num) -> Num {
        if self.is_nan() || other.lt(self) {
            other
        } else {
            self
        }
    }

    /// The greater of two numbers; the other one when one is not a number.
    pub open spec fn greater(self, other: Num) -> Num {
        if self.is_nan() || self.lt(other) {
            other
        } else {
            self
        }
    }

    /// The lesser of two numbers.
    pub fn min_with(self, other: Num) -> (r: Num)
        ensures
            r == self.lesser(other),
    {
        if self.nan() || other.below(self) {
            other
        } else {
            self
        }
    }

    /// The greater of two numbers.
    pub fn max_with(self, other: Num) -> (r: Num)
        ensures
            r == self.greater(other),
    {
        if self.nan() || self.below(other) {
            other
        } else {
            self
        }
    }
}

/// The number itself when it can be a coordinate, or the refusal that names it.
pub fn valid_number(v: Num, name: &str) -> (r: Result<Num, String>)
    ensures
        match r {
            Ok(n) => v.in_range() && n == v,
            Err(m) => !v.in_range() && m@ == name@
                + " must be finite and within ±1000000 mm"@,
        },
{
    if v.magnitude_bits() <= MILLION_BITS {
        Ok(v)
    } else {
        Err(join2(name, " must be finite and within ±1000000 mm"))
    }
}

/// Comparing numbers is a total order on what is a number: of two of them one
/// is at most the other, both are only when they are equal, and the relation
/// carries over a third.
pub proof fn law_order(a: Num, b: Num, c: Num)
    requires
        !a.is_nan(),
        !b.is_nan(),
        !c.is_nan(),
    ensures
        a.le(b) || b.le(a),
        a.le(b) && b.le(a) <==> a.equals(b),
        a.le(b) && b.le(c) ==> a.le(c),
        a.lt(b) <==> a.le(b) && !a.equals(b),
{
}

/// A number within range is a number, and so is everything between two such numbers.
pub proof fn law_in_range(a: Num, b: Num, c: Num)
    requires
        a.in_range(),
        c.in_range(),
        a.le(b),
        b.le(c),
    ensures
        !a.is_nan(),
        b.in_range(),
{
}

/// The order of two numbers in the order of their patterns: that of the
/// patterns without a sign, the reverse with one, and a number with a sign
/// before one without. The two zeros are equal.
pub proof fn law_order_of_patterns(a: Num, b: Num)
    requires
        !a.is_nan(),
        !b.is_nan(),
    ensures
        a.bits < 0x8000_0000_0000_0000 && b.bits < 0x8000_0000_0000_0000 ==> (a.lt(b) <==> a.bits
            < b.bits),
        a.bits >= 0x8000_0000_0000_0000 && b.bits >= 0x8000_0000_0000_0000 ==> (a.lt(b)
            <==> b.bits < a.bits),
        a.bits >= 0x8000_0000_0000_0000 && b.bits < 0x8000_0000_0000_0000 ==> a.le(b) && (a.lt(b)
            <==> a.bits != 0x8000_0000_0000_0000 || b.bits != 0),
{
}

/// What is no number lies beyond the pattern of infinity, on either side of
/// the sign.
pub proof fn law_no_number(a: Num)
    ensures
        a.is_nan() <==> 0x7ff0_0000_0000_0000 < a.bits < 0x8000_0000_0000_0000 || 0xfff0_0000_0000_0000
            < a.bits,
{
}

/// The lesser of two numbers is one of them and at most either, the greater
/// one of them and at least either. What is no number gives way to the other.
pub proof fn law_lesser_and_greater(a: Num, b: Num)
    ensures
        a.lesser(b) == a || a.lesser(b) == b,
        a.greater(b) == a || a.greater(b) == b,
        !a.is_nan() && !b.is_nan() ==> {
            &&& a.lesser(b).le(a)
            &&& a.lesser(b).le(b)
            &&& a.le(a.greater(b))
            &&& b.le(a.greater(b))
        },
        a.is_nan() ==> a.lesser(b) == b && a.greater(b) == b,
        b.is_nan() && !a.is_nan() ==> a.lesser(b) == a && a.greater(b) == a,
{
}

} // verus!

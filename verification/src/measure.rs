//! Measured numbers, held by their IEEE 754 bit pattern.
use vstd::prelude::*;

verus! {

/// The sign bit of a double.
pub const SIGN_BIT: u64 = 0x8000_0000_0000_0000;

/// The magnitude bits of an infinity; a larger magnitude is not a number.
pub const INFINITE_MAGNITUDE: u64 = 0x7FF0_0000_0000_0000;

/// The bits of `1.0`.
pub const ONE_BITS: u64 = 0x3FF0_0000_0000_0000;

/// A double-precision number, held by its bit pattern.
///
/// The library compares such numbers and flips their sign; it never adds,
/// multiplies or rounds them. Equality of two values is equality of the bits.
#[derive(Clone, Copy, Debug, PartialEq, Eq, Structural)]
pub struct Measure {
    /// The bits of the number, sign first.
    pub bits: u64,
}

impl Measure {
    /// The bits without the sign.
    pub open spec fn magnitude(self) -> int {
        if self.bits < SIGN_BIT {
            self.bits as int
        } else {
            self.bits - SIGN_BIT
        }
    }

    /// Where a number stands among the others: both zeros stand at 0, and
    /// consecutive doubles stand at consecutive integers.
    pub open spec fn position(self) -> int {
        if self.bits < SIGN_BIT {
            self.magnitude()
        } else {
            -self.magnitude()
        }
    }

    /// Not a number: unordered against everything.
    pub open spec fn nan(self) -> bool {
        self.magnitude() > INFINITE_MAGNITUDE
    }

    /// Neither an infinity nor a NaN.
    pub open spec fn finite(self) -> bool {
        self.magnitude() < INFINITE_MAGNITUDE
    }

    /// `self < other`, as doubles compare.
    pub open spec fn below(self, other: Measure) -> bool {
        !self.nan() && !other.nan() && self.position() < other.position()
    }

    /// `self <= other`, as doubles compare.
    pub open spec fn at_most(self, other: Measure) -> bool {
        !self.nan() && !other.nan() && self.position() <= other.position()
    }

    /// The number with the opposite sign.
    pub open spec fn opposite(self) -> Measure {
        if self.bits < SIGN_BIT {
            Measure { bits: (self.bits + SIGN_BIT) as u64 }
        } else {
            Measure { bits: (self.bits - SIGN_BIT) as u64 }
        }
    }

    /// The number without its sign.
    pub open spec fn unsigned(self) -> Measure {
        Measure { bits: self.magnitude() as u64 }
    }

    /// `0.0`.
    pub fn zero() -> (r: Measure)
        ensures
            r == (Measure { bits: 0 }),
            r.position() == 0,
            r.finite(),
    {
        Measure { bits: 0 }
    }

    /// `1.0`.
    pub fn one() -> (r: Measure)
        ensures
            r == (Measure { bits: ONE_BITS }),
            r.finite(),
    {
        Measure { bits: ONE_BITS }
    }

    /// Positive infinity.
    pub fn infinity() -> (r: Measure)
        ensures
            r == (Measure { bits: INFINITE_MAGNITUDE }),
            !r.nan(),
            !r.finite(),
    {
        Measure { bits: INFINITE_MAGNITUDE }
    }

    fn magnitude_bits(self) -> (m: u64)
        ensures
            m == self.magnitude(),
    {
        if self.bits < SIGN_BIT {
            self.bits
        } else {
            self.bits - SIGN_BIT
        }
    }

    /// Whether the number is a NaN.
    pub fn is_nan(self) -> (b: bool)
        ensures
            b == self.nan(),
    {
        self.magnitude_bits() > INFINITE_MAGNITUDE
    }

    /// Whether the number is neither infinite nor a NaN.
    pub fn is_finite(self) -> (b: bool)
        ensures
            b == self.finite(),
    {
        self.magnitude_bits() < INFINITE_MAGNITUDE
    }

    /// `self < other`; false when either is a NaN.
    pub fn lt(self, other: Measure) -> (b: bool)
        ensures
            b == self.below(other),
    {
        if self.is_nan() || other.is_nan() {
            return false;
        }
        let a: u64 = self.magnitude_bits();
        let b: u64 = other.magnitude_bits();
        if self.bits < SIGN_BIT {
            other.bits < SIGN_BIT && a < b
        } else if other.bits < SIGN_BIT {
            a > 0 || b > 0
        } else {
            a > b
        }
    }

    /// `self <= other`; false when either is a NaN.
    pub fn le(self, other: Measure) -> (b: bool)
        ensures
            b == self.at_most(other),
    {
        !self.is_nan() && !other.is_nan() && !other.lt(self)
    }

    /// `-self`.
    pub fn negated(self) -> (r: Measure)
        ensures
            r == self.opposite(),
    {
        if self.bits < SIGN_BIT {
            Measure { bits: self.bits + SIGN_BIT }
        } else {
            Measure { bits: self.bits - SIGN_BIT }
        }
    }
}

impl Measure {
    /// The absolute value of the number.
    pub fn abs(self) -> (r: Measure)
        ensures
            r == self.unsigned(),
            r.nan() == self.nan(),
            !self.nan() ==> r.position() >= 0,
    {
        Measure { bits: self.magnitude_bits() }
    }
}

/// Among numbers, exactly one of below, above and equal standing holds, and
/// a NaN is neither below nor above anything.
pub proof fn law_comparison_is_total_without_nan(a: Measure, b: Measure)
    ensures
        !a.nan() && !b.nan() ==> (a.below(b) <==> !b.at_most(a)),
        !a.nan() && !b.nan() ==> a.below(b) || b.below(a) || a.position() == b.position(),
        a.below(b) ==> !b.below(a),
        a.nan() ==> !a.below(b) && !b.below(a) && !a.at_most(b) && !b.at_most(a),
{
}

/// Flipping the sign twice gives the number back, and flipping both signs
/// reverses a comparison.
pub proof fn law_negation_reverses_order(a: Measure, b: Measure)
    ensures
        a.opposite().opposite() == a,
        a.opposite().nan() == a.nan(),
        a.opposite().position() == -a.position(),
        a.opposite().below(b.opposite()) == b.below(a),
{
}

/// Numbers that are not negative compare as their bits do, negative ones the other
/// way round and below them; the two zeros stand level, and a NaN compares with
/// nothing.
pub proof fn law_comparison_follows_the_bits(a: Measure, b: Measure)
    ensures
        a.bits <= 0x7FF0_0000_0000_0000 && b.bits <= 0x7FF0_0000_0000_0000 ==> (a.below(b)
            <==> a.bits < b.bits) && (a.at_most(b) <==> a.bits <= b.bits),
        a.bits >= 0x8000_0000_0000_0000 && a.bits <= 0xFFF0_0000_0000_0000 && b.bits
            >= 0x8000_0000_0000_0000 && b.bits <= 0xFFF0_0000_0000_0000 ==> (a.below(b) <==> a.bits
            > b.bits),
        a.bits > 0x8000_0000_0000_0000 && a.bits <= 0xFFF0_0000_0000_0000 && b.bits
            <= 0x7FF0_0000_0000_0000 ==> a.below(b) && !b.below(a),
        (Measure { bits: 0 }).at_most(Measure { bits: 0x8000_0000_0000_0000 }),
        (Measure { bits: 0x8000_0000_0000_0000 }).at_most(Measure { bits: 0 }),
        (0x7FF0_0000_0000_0000 < a.bits < 0x8000_0000_0000_0000 || a.bits > 0xFFF0_0000_0000_0000)
            ==> a.nan() && !a.below(b) && !b.below(a) && !a.at_most(b) && !b.at_most(a),
        a.finite() <==> a.bits < 0x7FF0_0000_0000_0000 || 0x8000_0000_0000_0000 <= a.bits
            < 0xFFF0_0000_0000_0000,
{
}

/// Flipping the sign changes the first bit alone, and taking it off clears it.
pub proof fn law_signs_are_the_first_bit(a: Measure)
    ensures
        a.bits < 0x8000_0000_0000_0000 ==> a.opposite().bits == a.bits + 0x8000_0000_0000_0000
            && a.unsigned() == a,
        a.bits >= 0x8000_0000_0000_0000 ==> a.opposite().bits == a.bits - 0x8000_0000_0000_0000
            && a.unsigned().bits == a.bits - 0x8000_0000_0000_0000,
{
}

} // verus!

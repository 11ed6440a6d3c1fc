//! Real numbers as IEEE-754 binary64 bit patterns.
//!
//! Every coordinate, ray parameter and colour channel in this crate is a
//! [`Scalar`]: the 64 bits of a binary64 datum. The crate never does
//! arithmetic on them. It compares them, flips and clears their sign bit, and
//! stores them; sums, products, quotients and roots are the caller's to
//! compute and to hand in.
//!
//! The comparisons follow IEEE-754: a NaN is unordered against everything,
//! itself included, and the two zeros are equal.
use vstd::prelude::*;

verus! {

/// The sign bit of a binary64 pattern.
pub const SIGN_BIT: u64 = 0x8000_0000_0000_0000;

/// The pattern of positive infinity: all exponent bits set, no fraction bit.
pub const INFINITY_BITS: u64 = 0x7ff0_0000_0000_0000;

/// The pattern of negative infinity.
pub const NEG_INFINITY_BITS: u64 = 0xfff0_0000_0000_0000;

/// The pattern of 1.
pub const ONE_BITS: u64 = 0x3ff0_0000_0000_0000;

/// A binary64 datum, by its bits.
#[derive(Clone, Copy, Debug, PartialEq, Eq, Structural)]
pub struct Scalar {
    pub bits: u64,
}

impl Scalar {
    /// The bits without the sign bit.
    pub open spec fn magnitude(self) -> int {
        if self.bits >= SIGN_BIT {
            self.bits - SIGN_BIT
        } else {
            self.bits as int
        }
    }

    /// The sign bit is set. This holds of negative zero and of half the NaNs too.
    pub open spec fn sign_negative(self) -> bool {
        self.bits >= SIGN_BIT
    }

    /// The datum is a NaN: exponent all ones and a fraction that is not zero.
    pub open spec fn nan(self) -> bool {
        self.magnitude() > INFINITY_BITS
    }

    /// The place of a datum that is no NaN on the number line, as an integer
    /// that grows with the number it stands for. Among the patterns of one
    /// sign a larger magnitude is a number further from zero, so the rank is
    /// the magnitude, negated under a set sign bit. Both zeros have rank 0.
    pub open spec fn rank(self) -> int {
        if self.sign_negative() {
            -self.magnitude()
        } else {
            self.magnitude()
        }
    }

    /// `self < other` as IEEE-754 has it.
    pub open spec fn lt_spec(self, other: Scalar) -> bool {
        !self.nan() && !other.nan() && self.rank() < other.rank()
    }

    /// `self <= other` as IEEE-754 has it.
    pub open spec fn le_spec(self, other: Scalar) -> bool {
        !self.nan() && !other.nan() && self.rank() <= other.rank()
    }

    /// `self == other` as IEEE-754 has it: true of the two zeros, false of a
    /// NaN and itself.
    pub open spec fn same_number(self, other: Scalar) -> bool {
        !self.nan() && !other.nan() && self.rank() == other.rank()
    }

    /// The place of any datum in the order that surfaces are sorted by: the
    /// rank of a number, and one place above positive infinity for a NaN.
    pub open spec fn total_rank(self) -> int {
        if self.nan() {
            INFINITY_BITS + 1
        } else {
            self.rank()
        }
    }

    /// `self` comes strictly before `other` in the order for sorting. On
    /// numbers this is `<`; a NaN comes after every number.
    pub open spec fn sorts_before_spec(self, other: Scalar) -> bool {
        self.total_rank() < other.total_rank()
    }

    /// The datum with its sign bit flipped.
    pub open spec fn neg_spec(self) -> Scalar {
        if self.bits >= SIGN_BIT {
            Scalar { bits: (self.bits - SIGN_BIT) as u64 }
        } else {
            Scalar { bits: (self.bits + SIGN_BIT) as u64 }
        }
    }

    /// The datum with its sign bit cleared.
    pub open spec fn abs_spec(self) -> Scalar {
        Scalar { bits: self.magnitude() as u64 }
    }

    pub open spec fn zero() -> Scalar {
        Scalar { bits: 0 }
    }

    pub open spec fn one() -> Scalar {
        Scalar { bits: ONE_BITS }
    }

    pub open spec fn infinity() -> Scalar {
        Scalar { bits: INFINITY_BITS }
    }

    pub open spec fn neg_infinity() -> Scalar {
        Scalar { bits: NEG_INFINITY_BITS }
    }

    pub fn from_bits(bits: u64) -> (s: Scalar)
        ensures
            s.bits == bits,
    {
        Scalar { bits }
    }

    pub fn to_bits(self) -> (bits: u64)
        ensures
            bits == self.bits,
    {
        self.bits
    }

    #[verifier::when_used_as_spec(nan)]
    pub fn is_nan(self) -> (r: bool)
        ensures
            r == self.nan(),
    {
        let m: u64 = if self.bits >= SIGN_BIT {
            self.bits - SIGN_BIT
        } else {
            self.bits
        };
        m > INFINITY_BITS
    }

    /// The magnitude and the sign, for the comparisons.
    fn parts(self) -> (r: (u64, bool))
        ensures
            r.0 == self.magnitude(),
            r.1 == self.sign_negative(),
    {
        if self.bits >= SIGN_BIT {
            (self.bits - SIGN_BIT, true)
        } else {
            (self.bits, false)
        }
    }

    #[verifier::when_used_as_spec(lt_spec)]
    pub fn lt(self, other: Scalar) -> (r: bool)
        ensures
            r == self.lt_spec(other),
    {
        let (m, neg) = self.parts();
        let (n, other_neg) = other.parts();
        if m > INFINITY_BITS || n > INFINITY_BITS {
            false
        } else if neg {
            if other_neg {
                n < m
            } else {
                m != 0 || n != 0
            }
        } else {
            !other_neg && m < n
        }
    }

    #[verifier::when_used_as_spec(le_spec)]
    pub fn le(self, other: Scalar) -> (r: bool)
        ensures
            r == self.le_spec(other),
    {
        let (m, neg) = self.parts();
        let (n, other_neg) = other.parts();
        if m > INFINITY_BITS || n > INFINITY_BITS {
            false
        } else if neg {
            if other_neg {
                n <= m
            } else {
                true
            }
        } else {
            if other_neg {
                m == 0 && n == 0
            } else {
                m <= n
            }
        }
    }

    #[verifier::when_used_as_spec(sorts_before_spec)]
    pub fn sorts_before(self, other: Scalar) -> (r: bool)
        ensures
            r == self.sorts_before_spec(other),
    {
        if self.is_nan() {
            false
        } else if other.is_nan() {
            true
        } else {
            self.lt(other)
        }
    }

    /// `self > other`.
    pub fn gt(self, other: Scalar) -> (r: bool)
        ensures
            r == other.lt_spec(self),
    {
        other.lt(self)
    }

    /// `self >= other`.
    pub fn ge(self, other: Scalar) -> (r: bool)
        ensures
            r == other.le_spec(self),
    {
        other.le(self)
    }

    #[verifier::when_used_as_spec(neg_spec)]
    pub fn neg(self) -> (r: Scalar)
        ensures
            r == self.neg_spec(),
    {
        if self.bits >= SIGN_BIT {
            Scalar { bits: self.bits - SIGN_BIT }
        } else {
            Scalar { bits: self.bits + SIGN_BIT }
        }
    }

    #[verifier::when_used_as_spec(abs_spec)]
    pub fn abs(self) -> (r: Scalar)
        ensures
            r == self.abs_spec(),
    {
        if self.bits >= SIGN_BIT {
            Scalar { bits: self.bits - SIGN_BIT }
        } else {
            Scalar { bits: self.bits }
        }
    }
}

/// Negation keeps the magnitude and mirrors the rank; twice is the identity.
pub proof fn lemma_neg(a: Scalar)
    ensures
        a.neg_spec().magnitude() == a.magnitude(),
        a.neg_spec().nan() == a.nan(),
        a.neg_spec().rank() == -a.rank(),
        a.neg_spec().neg_spec() == a,
{
}

/// Among data that are no NaN the order is total, and `<` is the strict part
/// of `<=`.
pub proof fn lemma_order_total(a: Scalar, b: Scalar)
    requires
        !a.nan(),
        !b.nan(),
    ensures
        a.le_spec(b) || b.le_spec(a),
        a.lt_spec(b) <==> !b.le_spec(a),
        a.le_spec(b) && b.le_spec(a) <==> a.same_number(b),
{
}

/// `<=` and `<` are transitive, NaNs or not.
pub proof fn lemma_order_transitive(a: Scalar, b: Scalar, c: Scalar)
    ensures
        a.le_spec(b) && b.le_spec(c) ==> a.le_spec(c),
        a.lt_spec(b) && b.le_spec(c) ==> a.lt_spec(c),
        a.le_spec(b) && b.lt_spec(c) ==> a.lt_spec(c),
{
}

/// A NaN compares false with everything, itself included.
pub proof fn lemma_nan_unordered(a: Scalar, b: Scalar)
    requires
        a.nan() || b.nan(),
    ensures
        !a.lt_spec(b),
        !a.le_spec(b),
        !b.lt_spec(a),
        !b.le_spec(a),
        !a.same_number(b),
{
}

} // verus!

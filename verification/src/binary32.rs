//! IEEE-754 binary32 numbers as bit patterns, with their exact values.
//!
//! Every finite value is a whole multiple of 2^-149. The model therefore
//! speaks of a number by its *scaled value*: the integer that the number is
//! when counted in units of 2^-149. The two zeros have the scaled value 0;
//! the infinities stand at `limit()` and `-limit()`, beyond every finite
//! value; a NaN has no value.
use vstd::prelude::*;
use vstd::arithmetic::power2::*;
use vstd::arithmetic::mul::*;

verus! {

/// Number of fraction bits of the encoding, as a factor.
pub const FRACTION_RANGE: u32 = 0x80_0000;

/// Bit of the sign.
pub const SIGN_BIT: u32 = 0x8000_0000;

/// The scaled value that stands for infinity: 2^128 in units of 2^-149, the
/// first power of two that is too large to be a finite number.
pub open spec fn limit() -> int {
    pow2(277) as int
}

/// A binary32 number, held as its encoding: the sign bit, eight exponent
/// bits, twenty-three fraction bits. Two values are equal where their
/// encodings are.
#[derive(Clone, Copy, Debug, PartialEq, Eq, Structural)]
pub struct Binary32 {
    pub bits: u32,
}

impl Binary32 {
    /// The encoding without its sign bit.
    pub open spec fn low_bits(self) -> int {
        self.bits as int % 0x8000_0000
    }

    /// The eight exponent bits.
    pub open spec fn biased_exponent(self) -> int {
        self.low_bits() / 0x80_0000
    }

    /// The twenty-three fraction bits.
    pub open spec fn fraction(self) -> int {
        self.bits as int % 0x80_0000
    }

    /// The sign bit is set (true of `-0.0` too).
    pub open spec fn sign(self) -> bool {
        self.bits >= 0x8000_0000
    }

    /// Neither an infinity nor a NaN.
    pub open spec fn is_finite(self) -> bool {
        self.biased_exponent() != 0xff
    }

    /// One of the two infinities.
    pub open spec fn is_infinite(self) -> bool {
        self.biased_exponent() == 0xff && self.fraction() == 0
    }

    /// Not a number.
    pub open spec fn is_nan(self) -> bool {
        self.biased_exponent() == 0xff && self.fraction() != 0
    }

    /// The significand with its hidden bit, below 2^24.
    pub open spec fn significand(self) -> int {
        if self.biased_exponent() == 0 {
            self.fraction()
        } else {
            0x80_0000 + self.fraction()
        }
    }

    /// The power of two that scales the significand, in units of 2^-149.
    pub open spec fn exponent(self) -> nat {
        if self.biased_exponent() == 0 {
            0
        } else {
            (self.biased_exponent() - 1) as nat
        }
    }

    /// The absolute value of a finite number, in units of 2^-149; `limit()`
    /// for an infinity.
    pub open spec fn magnitude(self) -> int {
        self.significand() * pow2(self.exponent())
    }

    /// The value of a finite number, in units of 2^-149; `limit()` and
    /// `-limit()` for the infinities.
    pub open spec fn scaled(self) -> int {
        if self.sign() {
            -self.magnitude()
        } else {
            self.magnitude()
        }
    }

    /// The number with the given encoding.
    pub fn from_bits(bits: u32) -> (r: Binary32)
        ensures
            r.bits == bits,
    {
        Binary32 { bits }
    }

    /// The encoding of the number.
    pub fn to_bits(self) -> (r: u32)
        ensures
            r == self.bits,
    {
        self.bits
    }

    /// The sign bit.
    pub fn is_sign_negative(self) -> (r: bool)
        ensures
            r == self.sign(),
    {
        self.bits >= SIGN_BIT
    }

    /// The significand of the encoding.
    pub(crate) fn sig(self) -> (r: u32)
        ensures
            r == self.significand(),
            r < 0x100_0000,
            self.exponent() > 0 ==> r >= 0x80_0000,
    {
        let e: u32 = (self.bits % SIGN_BIT) / FRACTION_RANGE;
        let f: u32 = self.bits % FRACTION_RANGE;
        if e == 0 {
            f
        } else {
            FRACTION_RANGE + f
        }
    }

    /// The exponent of the encoding; 254 for an infinity or a NaN.
    pub(crate) fn exp(self) -> (r: u32)
        ensures
            r == self.exponent(),
            r <= 254,
            self.is_finite() <==> r < 254,
    {
        let e: u32 = (self.bits % SIGN_BIT) / FRACTION_RANGE;
        if e == 0 {
            0
        } else {
            e - 1
        }
    }

    /// The number with the given sign, significand and exponent; a
    /// significand of 2^24 at the exponent 253 makes an infinity.
    pub(crate) fn compose(negative: bool, sig: u32, exp: u32) -> (r: Binary32)
        requires
            sig <= 0x100_0000,
            exp <= 253,
            sig < 0x80_0000 ==> exp == 0,
        ensures
            !r.is_nan(),
            r.is_finite() <==> !(exp == 253 && sig == 0x100_0000),
            r.magnitude() == sig * pow2(exp as nat),
            r.sign() == negative,
    {
        let low: u32 = if sig < FRACTION_RANGE {
            sig
        } else {
            (exp + 1) * FRACTION_RANGE + (sig - FRACTION_RANGE)
        };
        let bits: u32 = if negative {
            low + SIGN_BIT
        } else {
            low
        };
        let r = Binary32 { bits };
        proof {
            if sig == 0x100_0000 {
                assert(r.significand() == 0x80_0000);
                assert(r.exponent() == exp + 1);
                lemma_pow2_unfold((exp + 1) as nat);
                assert(0x80_0000 * (2 * pow2(exp as nat)) == 0x100_0000 * pow2(exp as nat))
                    by (nonlinear_arith);
            } else if sig >= 0x80_0000 {
                assert(r.significand() == sig);
                assert(r.exponent() == exp);
            } else {
                assert(r.significand() == sig);
                assert(r.exponent() == 0);
            }
        }
        r
    }

    /// The infinity of the given sign.
    pub(crate) fn infinity(negative: bool) -> (r: Binary32)
        ensures
            r.is_infinite(),
            r.magnitude() == limit(),
            r.sign() == negative,
    {
        let r = Binary32 {
            bits: if negative {
                0xff80_0000
            } else {
                0x7f80_0000
            },
        };
        proof {
            lemma2_to64();
            assert(r.significand() == pow2(23) && r.exponent() == 254);
            lemma_pow2_adds(23, 254);
        }
        r
    }

    /// Whether the number is a NaN.
    pub fn nan(self) -> (r: bool)
        ensures
            r == self.is_nan(),
    {
        self.bits % SIGN_BIT > 0x7f80_0000
    }

    /// Whether the number is an infinity.
    pub fn infinite(self) -> (r: bool)
        ensures
            r == self.is_infinite(),
    {
        self.bits % SIGN_BIT == 0x7f80_0000
    }

    /// Whether the number is one of the two zeros.
    pub fn zero(self) -> (r: bool)
        ensures
            r == (self.scaled() == 0),
    {
        proof {
            lemma_magnitude_zero(self);
        }
        self.bits % SIGN_BIT == 0
    }

    /// A NaN.
    pub(crate) fn quiet_nan() -> (r: Binary32)
        ensures
            r.is_nan(),
    {
        Binary32 { bits: 0x7fc0_0000 }
    }

    /// The encoding with the other sign bit.
    pub open spec fn spec_negated(self) -> Binary32 {
        Binary32 {
            bits: if self.bits >= 0x8000_0000 {
                (self.bits - 0x8000_0000) as u32
            } else {
                (self.bits + 0x8000_0000) as u32
            },
        }
    }

    /// The number with the opposite sign.
    pub fn negated(self) -> (r: Binary32)
        ensures
            r == self.spec_negated(),
            r.is_finite() == self.is_finite(),
            r.is_nan() == self.is_nan(),
            r.is_infinite() == self.is_infinite(),
            r.magnitude() == self.magnitude(),
            r.exponent() == self.exponent(),
            r.sign() == !self.sign(),
            r.scaled() == -self.scaled(),
    {
        if self.bits >= SIGN_BIT {
            Binary32 { bits: self.bits - SIGN_BIT }
        } else {
            Binary32 { bits: self.bits + SIGN_BIT }
        }
    }

    /// The number without its sign.
    pub fn abs(self) -> (r: Binary32)
        ensures
            r.is_finite() == self.is_finite(),
            r.is_nan() == self.is_nan(),
            r.is_infinite() == self.is_infinite(),
            r.magnitude() == self.magnitude(),
            r.exponent() == self.exponent(),
            !r.sign(),
            r.scaled() == self.magnitude(),
    {
        if self.bits >= SIGN_BIT {
            Binary32 { bits: self.bits - SIGN_BIT }
        } else {
            self
        }
    }

    /// Whether the number is finite.
    pub fn finite(self) -> (r: bool)
        ensures
            r == self.is_finite(),
    {
        (self.bits % SIGN_BIT) / FRACTION_RANGE != 0xff
    }

    /// Whether `self` is the smaller of the two numbers. The two zeros are
    /// equal, and a NaN is neither smaller nor larger than anything.
    pub fn less_than(self, other: Binary32) -> (r: bool)
        ensures
            r == (!self.is_nan() && !other.is_nan() && self.scaled() < other.scaled()),
    {
        if self.nan() || other.nan() {
            return false;
        }
        let a: u32 = self.bits % SIGN_BIT;
        let b: u32 = other.bits % SIGN_BIT;
        proof {
            lemma_magnitude_order(self, other);
            lemma_magnitude_order(other, self);
            lemma_magnitude_zero(self);
            lemma_magnitude_zero(other);
        }
        if self.bits >= SIGN_BIT {
            if other.bits >= SIGN_BIT {
                b < a
            } else {
                a != 0 || b != 0
            }
        } else {
            if other.bits >= SIGN_BIT {
                false
            } else {
                a < b
            }
        }
    }
}

/// The magnitude of a number is zero only for the two zeros, and never
/// negative.
pub proof fn lemma_magnitude_zero(a: Binary32)
    ensures
        a.magnitude() >= 0,
        a.magnitude() == 0 <==> a.low_bits() == 0,
{
    lemma_pow2_pos(a.exponent());
    let s = a.significand();
    let p = pow2(a.exponent()) as int;
    assert(s * p >= 0 && (s * p == 0 <==> s == 0)) by (nonlinear_arith)
        requires
            s >= 0,
            p > 0,
    ;
}

/// The magnitude that an exponent field and a fraction field make.
pub open spec fn field_magnitude(biased: int, fraction: int) -> int {
    (if biased == 0 {
        fraction
    } else {
        0x80_0000 + fraction
    }) * pow2(
        if biased == 0 {
            0
        } else {
            (biased - 1) as nat
        },
    )
}

/// The encoding without its sign bit is the exponent field followed by the
/// fraction field.
pub proof fn lemma_fields(a: Binary32)
    ensures
        a.low_bits() == a.biased_exponent() * 0x80_0000 + a.fraction(),
        0 <= a.fraction() < 0x80_0000,
        0 <= a.biased_exponent() <= 0xff,
        a.magnitude() == field_magnitude(a.biased_exponent(), a.fraction()),
{
    let bits = a.bits;
    assert(bits % 0x8000_0000 == ((bits % 0x8000_0000) / 0x80_0000) * 0x80_0000 + bits % 0x80_0000)
        by (bit_vector);
    assert((bits % 0x8000_0000) / 0x80_0000 <= 0xff) by (bit_vector);
}

/// Two encodings without their sign bits are ordered as their exponent
/// fields, and so are their magnitudes.
pub proof fn lemma_fields_order(ea: int, fa: int, eb: int, fb: int)
    requires
        0 <= ea,
        0 <= eb,
        0 <= fa < 0x80_0000,
        0 <= fb < 0x80_0000,
        ea * 0x80_0000 + fa < eb * 0x80_0000 + fb,
    ensures
        ea <= eb,
        field_magnitude(ea, fa) < field_magnitude(eb, fb),
{
    lemma2_to64();
    if ea == eb {
        let p = pow2(if ea == 0 {
            0
        } else {
            (ea - 1) as nat
        });
        lemma_pow2_pos(if ea == 0 {
            0
        } else {
            (ea - 1) as nat
        });
        assert(fa * p < fb * p && (0x80_0000 + fa) * p < (0x80_0000 + fb) * p)
            by (nonlinear_arith)
            requires
                fa < fb,
                p > 0,
        ;
    } else {
        assert(ea < eb);
        let pb = pow2((eb - 1) as nat);
        lemma_pow2_pos((eb - 1) as nat);
        if ea == 0 {
            assert(fa * pow2(0) < (0x80_0000 + fb) * pb) by (nonlinear_arith)
                requires
                    0 <= fa < 0x80_0000,
                    0 <= fb,
                    pow2(0) == 1,
                    pb >= 1,
            ;
        } else {
            let pa = pow2((ea - 1) as nat);
            lemma_pow2_pos((ea - 1) as nat);
            lemma_pow2_unfold(ea as nat);
            crate::rounding::lemma_pow2_monotone(ea as nat, (eb - 1) as nat);
            assert((0x80_0000 + fa) * pa < (0x80_0000 + fb) * pb) by (nonlinear_arith)
                requires
                    0 <= fa < 0x80_0000,
                    0 <= fb,
                    2 * pa <= pb,
                    pa > 0,
            ;
        }
    }
}

/// The magnitudes are ordered as the encodings without their sign bits.
pub proof fn lemma_magnitude_order(a: Binary32, b: Binary32)
    ensures
        a.low_bits() < b.low_bits() ==> a.magnitude() < b.magnitude(),
        a.low_bits() == b.low_bits() ==> a.magnitude() == b.magnitude(),
        a.low_bits() <= b.low_bits() ==> a.exponent() <= b.exponent(),
{
    lemma_fields(a);
    lemma_fields(b);
    let ea = a.biased_exponent();
    let eb = b.biased_exponent();
    let fa = a.fraction();
    let fb = b.fraction();
    if a.low_bits() < b.low_bits() {
        lemma_fields_order(ea, fa, eb, fb);
    } else if a.low_bits() == b.low_bits() {
        assert(ea == eb && fa == fb);
    }
}

/// The magnitudes of the finite numbers are those below `limit()`, which is
/// the magnitude of the infinities.
pub proof fn lemma_limit(a: Binary32)
    requires
        !a.is_nan(),
    ensures
        0 <= a.magnitude() <= limit(),
        a.is_finite() <==> a.magnitude() < limit(),
        a.is_infinite() <==> a.magnitude() == limit(),
{
    let s = a.significand();
    let e = a.exponent();
    lemma2_to64();
    lemma_pow2_pos(e);
    lemma_pow2_adds(23, 254);
    lemma_pow2_adds(24, 253);
    lemma_magnitude_zero(a);
    if a.is_finite() {
        crate::rounding::lemma_pow2_monotone(e, 253);
        assert(s * pow2(e) < pow2(24) * pow2(253)) by (nonlinear_arith)
            requires
                0 <= s < pow2(24),
                0 < pow2(e) <= pow2(253),
        ;
    } else {
        assert(s == pow2(23) && e == 254);
    }
}

} // verus!

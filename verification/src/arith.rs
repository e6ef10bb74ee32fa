//! The arithmetic of binary32 on encodings: each operation returns the
//! encoding of the exact result rounded to the nearest representable value.
//!
//! The contracts speak of scaled values (integers in units of 2^-149), so a
//! zero has no sign in them.
use vstd::prelude::*;
use vstd::arithmetic::power2::*;
use vstd::arithmetic::mul::*;
use vstd::arithmetic::div_mod::*;
use crate::binary32::{
    lemma_limit, lemma_magnitude_order, lemma_magnitude_zero, limit, Binary32, SIGN_BIT,
};
use crate::rounding::{
    capped, lemma_nearest_even_le, lemma_nearest_even_scale, lemma_pow2_monotone,
    lemma_pow2_sum, lemma_quotient_bracket, lemma_round_absorb, lemma_round_ratio_nonnegative,
    lemma_round_ratio_scale, lemma_round_representable, lemma_small_ratio, lemma_spacing_unique,
    nearest_even_of, power_of_two, round_dyadic, round_pack, round_ratio,
    round_signed, spacing_exponent,
};

verus! {

/// The scaled value of one.
pub open spec fn unit() -> int {
    pow2(149) as int
}

/// The rounded product of two scaled values.
pub open spec fn product(a: int, b: int) -> int {
    round_signed(a * b, unit())
}

/// The rounded sum of two scaled values.
pub open spec fn sum(a: int, b: int) -> int {
    round_signed(a + b, 1)
}

/// The rounded difference of two scaled values.
pub open spec fn difference(a: int, b: int) -> int {
    round_signed(a - b, 1)
}

/// The rounded quotient of two scaled values, for `b > 0`.
pub open spec fn quotient(a: int, b: int) -> int {
    round_signed(a * unit(), b)
}

/// The remainder of `a` by `b > 0` with the sign of `a`; it is exact.
pub open spec fn remainder(a: int, b: int) -> int {
    if a >= 0 {
        a % b
    } else {
        -((-a) % b)
    }
}

/// A rounded value as binary32 holds it: what reaches `limit()` on either
/// side becomes an infinity.
pub open spec fn clamped(v: int) -> int {
    if v >= limit() {
        limit()
    } else if v <= -limit() {
        -limit()
    } else {
        v
    }
}

/// The whole part of a scaled value, held to the range of a byte.
pub open spec fn to_byte(a: int) -> int {
    if a <= 0 {
        0
    } else if a / unit() >= 255 {
        255
    } else {
        a / unit()
    }
}

/// Zero rounds to zero whatever the denominator.
pub proof fn lemma_round_ratio_zero(d: int)
    requires
        0 < d,
    ensures
        round_ratio(0, d) == 0,
{
    lemma2_to64();
    assert(spacing_exponent(0, d) == 0);
    lemma_small_ratio(0, d * pow2(0));
}

/// A sign and a rounded magnitude make the rounded signed value.
pub proof fn lemma_signed_value(r: Binary32, n: int, d: int)
    requires
        0 < d,
        r.magnitude() == capped(round_ratio(if n < 0 {
            -n
        } else {
            n
        }, d)),
        n < 0 ==> r.sign(),
        n > 0 ==> !r.sign(),
    ensures
        r.scaled() == clamped(round_signed(n, d)),
{
    lemma_pow2_pos(277);
    if n == 0 {
        lemma_round_ratio_zero(d);
    } else if n < 0 {
        lemma_round_ratio_nonnegative(-n, d);
    } else {
        lemma_round_ratio_nonnegative(n, d);
    }
}

/// A number that is no NaN and holds a value within the limit holds it as
/// it is, and is finite.
pub proof fn lemma_within_limit(r: Binary32, v: int)
    requires
        !r.is_nan(),
        r.scaled() == clamped(v),
        -limit() < v < limit(),
    ensures
        r.is_finite(),
        r.scaled() == v,
{
    lemma_limit(r);
}

/// A product of a whole number and a power of two, taken in units of
/// 2^-149 of a unit, rounds as the dyadic number that it is.
pub proof fn lemma_product_dyadic(p: int, s: nat)
    requires
        0 <= p,
    ensures
        round_ratio(p * pow2(s), unit()) == round_dyadic(p, s - 149),
{
    if s >= 149 {
        let k = (s - 149) as nat;
        lemma_pow2_sum(k, 149);
        lemma_pow2_pos(k);
        let m = p * pow2(k);
        assert(p * pow2(s) == m * pow2(149)) by (nonlinear_arith)
            requires
                m == p * pow2(k),
                pow2(k) * pow2(149) == pow2(s),
        ;
        assert(0 <= m) by (nonlinear_arith)
            requires
                m == p * pow2(k),
                0 <= p,
                0 < pow2(k),
        ;
        lemma_pow2_pos(149);
        lemma_round_ratio_scale(m, 1, unit());
        assert(1 * unit() == unit());
    } else {
        let k = (149 - s) as nat;
        lemma_pow2_sum(k, s);
        lemma_pow2_pos(k);
        lemma_pow2_pos(s);
        lemma_round_ratio_scale(p, pow2(k) as int, pow2(s) as int);
    }
}

/// The magnitude of the sum of two numbers of magnitudes `mx >= my`: their
/// sum where the signs agree, their difference where they do not.
pub open spec fn distance(mx: int, my: int, same: bool) -> int {
    if same {
        mx + my
    } else {
        mx - my
    }
}

/// The sum of two numbers has the sign of the one that is larger in
/// magnitude, and `distance` for its magnitude.
pub proof fn lemma_sum_sign(sx: bool, mx: int, sy: bool, my: int)
    requires
        0 <= my <= mx,
    ensures
        ({
            let n = (if sx {
                -mx
            } else {
                mx
            }) + (if sy {
                -my
            } else {
                my
            });
            &&& distance(mx, my, sx == sy) == (if n < 0 {
                -n
            } else {
                n
            })
            &&& n < 0 ==> sx
            &&& n > 0 ==> !sx
        }),
{
}

/// Where two exponents are more than thirty-seven apart, the larger number
/// absorbs the smaller.
pub proof fn lemma_far_apart(sx: int, ex: nat, sy: int, ey: nat, same: bool)
    requires
        0 <= sx < 0x100_0000,
        ex > 0 ==> sx >= 0x80_0000,
        0 <= sy < 0x100_0000,
        ex > ey + 37,
    ensures
        round_ratio(distance(sx * pow2(ex), sy * pow2(ey), same), 1) == sx * pow2(ex),
{
    let my = sy * pow2(ey);
    lemma2_to64();
    lemma_pow2_pos(ey);
    lemma_pow2_sum(24, ey);
    lemma_pow2_monotone(ey + 26, ex);
    lemma_pow2_unfold(ey + 26);
    lemma_pow2_unfold(ey + 25);
    assert(0 <= my && 4 * my < pow2(ex)) by (nonlinear_arith)
        requires
            my == sy * pow2(ey),
            0 <= sy < pow2(24),
            pow2(24) * pow2(ey) == pow2(ey + 24),
            4 * pow2(ey + 24) <= pow2(ex),
            0 < pow2(ey),
    ;
    lemma_round_absorb(sx, ex, my);
}

/// Where two exponents are at most thirty-seven apart, the sum or
/// difference of the numbers is a machine integer times the smaller power.
pub proof fn lemma_close_by(sx: int, ex: nat, sy: int, ey: nat, same: bool)
    requires
        0 <= sx < 0x100_0000,
        0 <= sy < 0x100_0000,
        ey <= ex <= ey + 37,
        sy * pow2(ey) <= sx * pow2(ex),
    ensures
        ({
            let big = sx * pow2((ex - ey) as nat);
            let total = distance(big, sy, same);
            &&& sy <= big < 0x2000_0000_0000_0000
            &&& 0 <= total < 0x4000_0000_0000_0000
            &&& total * pow2(ey) == distance(sx * pow2(ex), sy * pow2(ey), same)
        }),
{
    let d = (ex - ey) as nat;
    let big = sx * pow2(d);
    lemma2_to64();
    lemma2_to64_rest();
    lemma_pow2_pos(ey);
    lemma_pow2_pos(d);
    lemma_pow2_monotone(d, 37);
    lemma_pow2_sum(d, ey);
    assert(0 <= big < 0x2000_0000_0000_0000) by (nonlinear_arith)
        requires
            big == sx * pow2(d),
            0 <= sx < 0x100_0000,
            0 < pow2(d) <= 0x20_0000_0000,
    ;
    assert(sx * pow2(ex) == big * pow2(ey)) by (nonlinear_arith)
        requires
            big == sx * pow2(d),
            pow2(d) * pow2(ey) == pow2(ex),
    ;
    assert(sy <= big) by (nonlinear_arith)
        requires
            sy * pow2(ey) <= big * pow2(ey),
            0 < pow2(ey),
    ;
    assert((big + sy) * pow2(ey) == big * pow2(ey) + sy * pow2(ey)) by (nonlinear_arith);
    assert((big - sy) * pow2(ey) == big * pow2(ey) - sy * pow2(ey)) by (nonlinear_arith);
}

/// Whether a product is a NaN: an operand is one, or an infinity meets a
/// zero.
pub open spec fn times_is_nan(a: Binary32, b: Binary32) -> bool {
    ||| a.is_nan()
    ||| b.is_nan()
    ||| a.is_infinite() && b.scaled() == 0
    ||| b.is_infinite() && a.scaled() == 0
}

/// The scaled value of a product that is no NaN.
pub open spec fn times_value(a: Binary32, b: Binary32) -> int {
    if a.is_infinite() || b.is_infinite() {
        if a.sign() != b.sign() {
            -limit()
        } else {
            limit()
        }
    } else {
        clamped(product(a.scaled(), b.scaled()))
    }
}

/// Whether a sum is a NaN: an operand is one, or the two are infinities of
/// opposite signs.
pub open spec fn plus_is_nan(a: Binary32, b: Binary32) -> bool {
    ||| a.is_nan()
    ||| b.is_nan()
    ||| a.is_infinite() && b.is_infinite() && a.sign() != b.sign()
}

/// The scaled value of a sum that is no NaN.
pub open spec fn plus_value(a: Binary32, b: Binary32) -> int {
    if a.is_infinite() {
        a.scaled()
    } else if b.is_infinite() {
        b.scaled()
    } else {
        clamped(sum(a.scaled(), b.scaled()))
    }
}

/// The scaled value of a difference that is no NaN.
pub open spec fn minus_value(a: Binary32, b: Binary32) -> int {
    if a.is_infinite() {
        a.scaled()
    } else if b.is_infinite() {
        -b.scaled()
    } else {
        clamped(difference(a.scaled(), b.scaled()))
    }
}

impl Binary32 {
    /// The product of two finite numbers, rounded; an infinity where the
    /// rounded product is too large.
    fn times_finite(self, other: Binary32) -> (r: Binary32)
        requires
            self.is_finite(),
            other.is_finite(),
        ensures
            !r.is_nan(),
            r.scaled() == clamped(product(self.scaled(), other.scaled())),
    {
        let sa: u64 = self.sig() as u64;
        let sb: u64 = other.sig() as u64;
        let ea: u32 = self.exp();
        let eb: u32 = other.exp();
        assert(sa * sb < 0x1_0000_0000_0000) by (nonlinear_arith)
            requires
                sa < 0x100_0000,
                sb < 0x100_0000,
        ;
        let p: u64 = sa * sb;
        let e: i32 = (ea + eb) as i32 - 149;
        let negative: bool = self.is_sign_negative() != other.is_sign_negative();
        let r = round_pack(negative, p, e);
        proof {
            let s = (ea + eb) as nat;
            lemma_product_dyadic(p as int, s);
            lemma_pow2_sum(ea as nat, eb as nat);
            lemma_pow2_pos(ea as nat);
            lemma_pow2_pos(eb as nat);
            let ma = self.magnitude();
            let mb = other.magnitude();
            assert(ma * mb == p * pow2(s)) by (nonlinear_arith)
                requires
                    ma == sa * pow2(ea as nat),
                    mb == sb * pow2(eb as nat),
                    p == sa * sb,
                    pow2(ea as nat) * pow2(eb as nat) == pow2(s),
            ;
            let n = self.scaled() * other.scaled();
            lemma_magnitude_zero(self);
            lemma_magnitude_zero(other);
            assert((if n < 0 {
                -n
            } else {
                n
            }) == ma * mb && (n < 0 ==> negative) && (n > 0 ==> !negative)) by (nonlinear_arith)
                requires
                    n == self.scaled() * other.scaled(),
                    self.scaled() == (if self.sign() {
                        -ma
                    } else {
                        ma
                    }),
                    other.scaled() == (if other.sign() {
                        -mb
                    } else {
                        mb
                    }),
                    ma >= 0,
                    mb >= 0,
                    negative == (self.sign() != other.sign()),
            ;
            lemma_pow2_pos(149);
            lemma_signed_value(r, n, unit());
        }
        r
    }

    /// The whole part of the number, held to the range of a byte: what is
    /// behind the point is dropped, not rounded. A NaN gives 0.
    pub fn to_byte(self) -> (r: u8)
        ensures
            r == (if self.is_nan() {
                0
            } else {
                to_byte(self.scaled())
            }),
    {
        if self.nan() {
            return 0;
        }
        let s: u32 = self.sig();
        let e: u32 = self.exp();
        proof {
            lemma_magnitude_zero(self);
            lemma_pow2_pos(e as nat);
            lemma_pow2_pos(149);
            lemma2_to64();
        }
        if self.is_sign_negative() {
            0
        } else if e >= 149 {
            proof {
                lemma_pow2_monotone(149, e as nat);
                let m = self.magnitude();
                assert(0x80_0000 * unit() <= m) by (nonlinear_arith)
                    requires
                        m == s * pow2(e as nat),
                        s >= 0x80_0000,
                        unit() <= pow2(e as nat),
                        0 < unit(),
                ;
                let top = m + 1;
                assert(m < top * unit()) by (nonlinear_arith)
                    requires
                        top == m + 1,
                        m >= 0,
                        unit() >= 1,
                ;
                lemma_quotient_bracket(m, 0x80_0000, top, unit());
            }
            255
        } else {
            let k: u32 = 149 - e;
            proof {
                lemma_pow2_sum(k as nat, e as nat);
                lemma_pow2_pos(k as nat);
            }
            if k >= 24 {
                proof {
                    lemma_pow2_monotone(24, k as nat);
                    let m = self.magnitude();
                    assert(0 <= m < unit()) by (nonlinear_arith)
                        requires
                            m == s * pow2(e as nat),
                            0 <= s < pow2(k as nat),
                            pow2(k as nat) * pow2(e as nat) == unit(),
                            0 < pow2(e as nat),
                    ;
                    lemma_small_mod(m as nat, unit() as nat);
                    lemma_basic_div(m, unit());
                }
                0
            } else {
                let d: u32 = power_of_two(k) as u32;
                let q: u32 = s / d;
                proof {
                    lemma_div_multiples_vanish_quotient(
                        pow2(e as nat) as int,
                        s as int,
                        pow2(k as nat) as int,
                    );
                    lemma_mul_is_commutative(pow2(e as nat) as int, s as int);
                    lemma_mul_is_commutative(pow2(e as nat) as int, pow2(k as nat) as int);
                    assert(self.magnitude() / unit() == q);
                }
                if q >= 255 {
                    255
                } else {
                    q as u8
                }
            }
        }
    }

    /// The remainder of a finite number by two.
    fn rem_two_finite(self) -> (r: Binary32)
        requires
            self.is_finite(),
        ensures
            r.is_finite(),
            r.scaled() == remainder(self.scaled(), 2 * unit()),
            r.magnitude() < 2 * unit(),
    {
        let s: u32 = self.sig();
        let e: u32 = self.exp();
        let negative = self.is_sign_negative();
        proof {
            lemma_magnitude_zero(self);
            lemma_pow2_pos(e as nat);
            lemma_pow2_unfold(150);
            lemma2_to64();
        }
        let ghost m = self.magnitude();
        let r = if e >= 150 {
            proof {
                let j = (e - 150) as nat;
                lemma_pow2_sum(j, 150);
                let c = s * pow2(j);
                assert(m == c * pow2(150)) by (nonlinear_arith)
                    requires
                        m == s * pow2(e as nat),
                        c == s * pow2(j),
                        pow2(j) * pow2(150) == pow2(e as nat),
                ;
                lemma_mod_multiples_basic(c, pow2(150) as int);
            }
            Binary32::compose(negative, 0, 0)
        } else if e >= 127 {
            let k: u32 = 150 - e;
            let d: u32 = power_of_two(k) as u32;
            let low: u32 = s % d;
            proof {
                lemma_pow2_sum(k as nat, e as nat);
                lemma_pow2_pos(k as nat);
                lemma_truncate_middle(s as int, pow2(e as nat) as int, pow2(k as nat) as int);
                lemma_mul_is_commutative(pow2(e as nat) as int, s as int);
                lemma_mul_is_commutative(pow2(e as nat) as int, pow2(k as nat) as int);
                lemma_mul_is_commutative(pow2(e as nat) as int, low as int);
                assert(m % pow2(150) as int == low * pow2(e as nat));
                lemma_pow2_monotone(k as nat, 23);
                lemma_round_representable(low as int, e as nat);
                lemma_mod_bound(m, pow2(150) as int);
                lemma_pow2_strictly_increases(150, 277);
            }
            let packed = round_pack(negative, low as u64, e as i32);
            proof {
                lemma_limit(packed);
            }
            packed
        } else {
            proof {
                lemma_pow2_monotone((e + 24) as nat, 150);
                lemma_pow2_sum(24, e as nat);
                assert(m < pow2(150)) by (nonlinear_arith)
                    requires
                        m == s * pow2(e as nat),
                        s < pow2(24),
                        pow2(24) * pow2(e as nat) <= pow2(150),
                        0 < pow2(e as nat),
                ;
                lemma_small_mod(m as nat, pow2(150));
            }
            self
        };
        proof {
            assert(r.magnitude() == m % (2 * unit()));
            lemma_mod_bound(m, 2 * unit());
        }
        r
    }

    /// The quotient of a finite number by sixty, rounded.
    fn div_sixty_finite(self) -> (r: Binary32)
        requires
            self.is_finite(),
        ensures
            r.is_finite(),
            r.scaled() == quotient(self.scaled(), 60 * unit()),
    {
        let s: u64 = self.sig() as u64;
        let e: u32 = self.exp();
        let negative = self.is_sign_negative();
        proof {
            lemma2_to64();
        }
        let g: u32 = if e >= 6 {
            if s >= 0xf0_0000 {
                e - 5
            } else {
                e - 6
            }
        } else {
            0
        };
        let j: u32 = e - g;
        let scale: u64 = power_of_two(j);
        proof {
            if j <= 5 {
                lemma_pow2_monotone(j as nat, 5);
            }
        }
        assert(s * scale < 0x100_0000 * 60 && (g >= 1 ==> 2 * (s * scale) >= 0x100_0000 * 60))
            by (nonlinear_arith)
            requires
                s < 0x100_0000,
                e >= 1 ==> s >= 0x80_0000,
                e <= 5 ==> scale <= 32 && g == 0,
                e >= 6 && s >= 0xf0_0000 ==> scale == 32,
                e >= 6 && s < 0xf0_0000 ==> scale == 64,
        ;
        let n: u64 = s * scale;
        let q: u64 = nearest_even_of(n, 60);
        proof {
            let m = self.magnitude();
            let pg = pow2(g as nat) as int;
            lemma_pow2_pos(g as nat);
            lemma_pow2_pos(149);
            lemma_pow2_sum(j as nat, g as nat);
            assert(m == n * pg) by (nonlinear_arith)
                requires
                    m == s * pow2(e as nat),
                    n == s * pow2(j as nat),
                    pow2(j as nat) * pg == pow2(e as nat),
            ;
            assert(m < 0x100_0000 * 60 * pg) by (nonlinear_arith)
                requires
                    m == n * pg,
                    n < 0x100_0000 * 60,
                    0 < pg,
            ;
            if g >= 1 {
                let ph = pow2((g - 1) as nat) as int;
                lemma_pow2_unfold(g as nat);
                lemma_pow2_pos((g - 1) as nat);
                assert(m >= 0x100_0000 * 60 * ph) by (nonlinear_arith)
                    requires
                        m == n * pg,
                        pg == 2 * ph,
                        2 * n >= 0x100_0000 * 60,
                        0 < ph,
                ;
                lemma_quotient_bracket(n as int, 0x80_0000, 0x100_0000, 60);
            }
            lemma_magnitude_zero(self);
            lemma_spacing_unique(m, 60, g as nat);
            lemma_nearest_even_scale(n as int, 60, pg);
            assert(round_ratio(m, 60) == q * pg);
            lemma_nearest_even_le(n as int, 60, 0x100_0000);
            // back to the units of the contract
            lemma_round_ratio_scale(m, 60, unit());
        }
        let r = Binary32::compose(negative, q as u32, g);
        proof {
            lemma_limit(r);
            let v = self.scaled() * unit();
            let m = self.magnitude();
            assert((if v < 0 {
                -v
            } else {
                v
            }) == m * unit() && (v < 0 ==> negative) && (v > 0 ==> !negative)) by (nonlinear_arith)
                requires
                    v == self.scaled() * unit(),
                    self.scaled() == (if negative {
                        -m
                    } else {
                        m
                    }),
                    m >= 0,
                    unit() > 0,
            ;
            lemma_signed_value(r, v, 60 * unit());
        }
        r
    }

    /// The sum of two finite numbers, rounded; an infinity where the
    /// rounded sum is too large.
    fn plus_finite(self, other: Binary32) -> (r: Binary32)
        requires
            self.is_finite(),
            other.is_finite(),
        ensures
            !r.is_nan(),
            r.scaled() == clamped(sum(self.scaled(), other.scaled())),
    {
        proof {
            lemma_magnitude_order(self, other);
            lemma_magnitude_order(other, self);
        }
        if self.bits % SIGN_BIT < other.bits % SIGN_BIT {
            other.plus_smaller(self)
        } else {
            self.plus_smaller(other)
        }
    }

    /// The sum with a number that is not the larger in magnitude, rounded.
    fn plus_smaller(self, y: Binary32) -> (r: Binary32)
        requires
            self.is_finite(),
            y.magnitude() <= self.magnitude(),
            y.exponent() <= self.exponent(),
        ensures
            !r.is_nan(),
            r.scaled() == clamped(sum(self.scaled(), y.scaled())),
            r.scaled() == clamped(sum(y.scaled(), self.scaled())),
    {
        let sx: u64 = self.sig() as u64;
        let sy: u64 = y.sig() as u64;
        let ex: u32 = self.exp();
        let ey: u32 = y.exp();
        let negative: bool = self.is_sign_negative();
        let same: bool = negative == y.is_sign_negative();
        let diff: u32 = ex - ey;
        let ghost target = distance(self.magnitude(), y.magnitude(), same);
        let r = if diff > 37 {
            proof {
                lemma_far_apart(sx as int, ex as nat, sy as int, ey as nat, same);
                lemma_limit(self);
            }
            self
        } else {
            let scale: u64 = power_of_two(diff);
            proof {
                lemma_close_by(sx as int, ex as nat, sy as int, ey as nat, same);
            }
            let big: u64 = sx * scale;
            let total: u64 = if same {
                big + sy
            } else {
                big - sy
            };
            round_pack(negative, total, ey as i32)
        };
        proof {
            lemma_magnitude_zero(self);
            lemma_magnitude_zero(y);
            lemma_sum_sign(negative, self.magnitude(), y.sign(), y.magnitude());
            lemma_signed_value(r, self.scaled() + y.scaled(), 1);
        }
        r
    }

    /// The product, rounded to the nearest number, ties to even.
    ///
    /// A NaN where an operand is one, and for an infinity times zero. An
    /// infinity where an operand is one or the rounded product is too
    /// large; its sign is that of the product.
    pub fn times(self, other: Binary32) -> (r: Binary32)
        ensures
            r.is_nan() <==> times_is_nan(self, other),
            !r.is_nan() ==> r.scaled() == times_value(self, other),
    {
        if self.nan() || other.nan() {
            return Binary32::quiet_nan();
        }
        if self.infinite() || other.infinite() {
            proof {
                lemma_limit(self);
                lemma_limit(other);
                lemma_pow2_pos(277);
            }
            if self.zero() || other.zero() {
                return Binary32::quiet_nan();
            }
            return Binary32::infinity(self.is_sign_negative() != other.is_sign_negative());
        }
        self.times_finite(other)
    }

    /// The sum, rounded to the nearest number, ties to even.
    ///
    /// A NaN where an operand is one, and for two infinities of opposite
    /// signs. An infinity where an operand is one or the rounded sum is too
    /// large.
    pub fn plus(self, other: Binary32) -> (r: Binary32)
        ensures
            r.is_nan() <==> plus_is_nan(self, other),
            !r.is_nan() ==> r.scaled() == plus_value(self, other),
    {
        if self.nan() || other.nan() {
            return Binary32::quiet_nan();
        }
        if self.infinite() {
            if other.infinite() && self.is_sign_negative() != other.is_sign_negative() {
                return Binary32::quiet_nan();
            }
            return self;
        }
        if other.infinite() {
            return other;
        }
        self.plus_finite(other)
    }

    /// The difference, rounded to the nearest number, ties to even: the sum
    /// of `self` and the negated `other`.
    pub fn minus(self, other: Binary32) -> (r: Binary32)
        ensures
            r.is_nan() <==> plus_is_nan(self, other.spec_negated()),
            !r.is_nan() ==> r.scaled() == minus_value(self, other),
    {
        self.plus(other.negated())
    }

    /// The quotient by sixty, rounded to the nearest number, ties to even.
    /// A NaN gives a NaN, an infinity itself.
    pub fn div_sixty(self) -> (r: Binary32)
        ensures
            r.is_nan() <==> self.is_nan(),
            r.is_finite() <==> self.is_finite(),
            self.is_infinite() ==> r.scaled() == self.scaled(),
            self.is_finite() ==> r.scaled() == quotient(self.scaled(), 60 * unit()),
    {
        if self.nan() || self.infinite() {
            return self;
        }
        self.div_sixty_finite()
    }

    /// The remainder by two, with the sign of the number; it is exact. A
    /// NaN or an infinity gives a NaN.
    pub fn rem_two(self) -> (r: Binary32)
        ensures
            r.is_nan() <==> !self.is_finite(),
            self.is_finite() ==> r.is_finite() && r.scaled() == remainder(
                self.scaled(),
                2 * unit(),
            ) && r.magnitude() < 2 * unit(),
    {
        if !self.finite() {
            return Binary32::quiet_nan();
        }
        self.rem_two_finite()
    }
}

} // verus!

//! Rounding of exact results to the binary32 grid: to the nearest
//! representable value, ties to the one with an even significand.
//!
//! All quantities are scaled values, that is integers in units of 2^-149. An
//! exact result is a ratio `n / d` of two integers. The grid has the
//! spacing 1 below 2^24 and doubles its spacing at each power of two from
//! there; in this file it goes on without an upper end, and `capped` turns
//! what reaches `limit()` into an infinity.
use vstd::prelude::*;
use vstd::arithmetic::power2::*;
use vstd::arithmetic::mul::*;
use vstd::arithmetic::div_mod::*;
use vstd::bits::*;
use crate::binary32::{limit, Binary32};

verus! {

/// The integer nearest to `n / d`; of two equally near, the even one.
pub open spec fn nearest_even(n: int, d: int) -> int {
    let q = n / d;
    let r = n % d;
    if 2 * r < d || (2 * r == d && q % 2 == 0) {
        q
    } else {
        q + 1
    }
}

/// The exponent `g` of the distance `2^g` between neighbouring representable
/// values at `n / d`: the least `g` with `n / d < 2^(24 + g)`.
pub open spec fn spacing_exponent(n: int, d: int) -> nat
    decreases excess(n, d),
{
    if d <= 0 || n < 0x100_0000 * d {
        0
    } else {
        1 + spacing_exponent(n, 2 * d)
    }
}

/// How far `n` is from falling below `2^24 * d`; the measure by which
/// `spacing_exponent` ends.
pub open spec fn excess(n: int, d: int) -> int {
    if d > 0 && n >= 0x100_0000 * d {
        n - 0x100_0000 * d + 1
    } else {
        0
    }
}

/// The representable value nearest to `n / d`, for `n >= 0` and `d > 0`.
pub open spec fn round_ratio(n: int, d: int) -> int {
    let g = spacing_exponent(n, d);
    nearest_even(n, d * pow2(g)) * pow2(g)
}

/// The representable value nearest to `n / d`, for `d > 0` and either sign
/// of `n`.
pub open spec fn round_signed(n: int, d: int) -> int {
    if n < 0 {
        -round_ratio(-n, d)
    } else {
        round_ratio(n, d)
    }
}

/// The representable value nearest to `m * 2^e`, for `m >= 0`.
pub open spec fn round_dyadic(m: int, e: int) -> int {
    if e >= 0 {
        round_ratio(m * pow2(e as nat), 1)
    } else {
        round_ratio(m, pow2((-e) as nat) as int)
    }
}

/// The nearest integer to a ratio is at most half away from it, and even
/// where it is exactly half away.
pub proof fn lemma_nearest_even_is_nearest(n: int, d: int)
    requires
        0 <= n,
        0 < d,
    ensures
        ({
            let q = nearest_even(n, d);
            let gap = if q * d < n {
                n - q * d
            } else {
                q * d - n
            };
            &&& 2 * gap <= d
            &&& 2 * gap == d ==> q % 2 == 0
        }),
{
    lemma_fundamental_div_mod(n, d);
    lemma_mod_bound(n, d);
    let q = nearest_even(n, d);
    let f = n / d;
    let r = n % d;
    assert(n == d * f + r);
    if q == f {
        assert(q * d == d * f) by (nonlinear_arith)
            requires
                q == f,
        ;
        assert(2 * r <= d);
    } else {
        assert(q == f + 1);
        assert(q * d == d * f + d) by (nonlinear_arith)
            requires
                q == f + 1,
        ;
        assert(2 * r >= d);
        if 2 * r == d {
            assert(f % 2 != 0);
            assert((f + 1) % 2 == 0);
        }
    }
}

/// The rounded value of a ratio is a multiple of the spacing at the ratio
/// with a significand of at most 2^24; it is at most half a spacing away
/// from the ratio, and its significand is even where it is exactly half a
/// spacing away.
pub proof fn lemma_round_ratio_is_nearest(n: int, d: int)
    requires
        0 <= n,
        0 < d,
    ensures
        ({
            let g = spacing_exponent(n, d);
            let sig = nearest_even(n, d * pow2(g));
            let gap = if round_ratio(n, d) * d < n {
                n - round_ratio(n, d) * d
            } else {
                round_ratio(n, d) * d - n
            };
            &&& round_ratio(n, d) == sig * pow2(g)
            &&& 0 <= sig <= 0x100_0000
            &&& g >= 1 ==> sig >= 0x80_0000
            &&& 2 * gap <= d * pow2(g)
            &&& 2 * gap == d * pow2(g) ==> sig % 2 == 0
        }),
{
    let g = spacing_exponent(n, d);
    lemma_spacing_bounds(n, d);
    lemma_pow2_pos(g);
    let dg = d * pow2(g);
    assert(0 < dg && n <= dg * 0x100_0000) by (nonlinear_arith)
        requires
            dg == d * pow2(g),
            0 < d,
            0 < pow2(g),
            n < 0x100_0000 * d * pow2(g),
    ;
    lemma_nearest_even_le(n, dg, 0x100_0000);
    lemma_nearest_even_is_nearest(n, dg);
    let sig = nearest_even(n, dg);
    assert(round_ratio(n, d) * d == sig * dg) by (nonlinear_arith)
        requires
            round_ratio(n, d) == sig * pow2(g),
            dg == d * pow2(g),
    ;
    if g >= 1 {
        let h = pow2((g - 1) as nat);
        lemma_pow2_unfold(g);
        assert(0x80_0000 * dg <= n) by (nonlinear_arith)
            requires
                n >= 0x100_0000 * d * h,
                dg == d * (2 * h),
        ;
        assert(n < (n + 1) * dg) by (nonlinear_arith)
            requires
                0 <= n,
                1 <= dg,
        ;
        lemma_quotient_bracket(n, 0x80_0000, n + 1, dg);
    }
}

/// The spacing exponent brackets the ratio.
pub proof fn lemma_spacing_bounds(n: int, d: int)
    requires
        0 <= n,
        0 < d,
    ensures
        n < 0x100_0000 * d * pow2(spacing_exponent(n, d)),
        spacing_exponent(n, d) >= 1 ==> n >= 0x100_0000 * d * pow2(
            (spacing_exponent(n, d) - 1) as nat,
        ),
    decreases excess(n, d),
{
    let g = spacing_exponent(n, d);
    if n < 0x100_0000 * d {
        assert(g == 0);
        lemma2_to64();
        assert(0x100_0000 * d * pow2(0) == 0x100_0000 * d) by (nonlinear_arith)
            requires
                pow2(0) == 1,
        ;
    } else {
        lemma_spacing_bounds(n, 2 * d);
        let g1 = spacing_exponent(n, 2 * d);
        assert(g == g1 + 1);
        lemma_pow2_unfold(g);
        assert(0x100_0000 * (2 * d) * pow2(g1) == 0x100_0000 * d * (2 * pow2(g1)))
            by (nonlinear_arith);
        assert(n < 0x100_0000 * d * pow2(g));
        if g1 >= 1 {
            lemma_pow2_unfold(g1);
            assert(0x100_0000 * (2 * d) * pow2((g1 - 1) as nat) == 0x100_0000 * d * (2 * pow2(
                (g1 - 1) as nat,
            ))) by (nonlinear_arith);
            assert(n >= 0x100_0000 * d * pow2(g1));
        } else {
            lemma2_to64();
            assert(0x100_0000 * d * pow2(0) == 0x100_0000 * d) by (nonlinear_arith)
                requires
                    pow2(0) == 1,
            ;
        }
    }
}

/// A bracket of the ratio fixes the spacing exponent.
pub proof fn lemma_spacing_unique(n: int, d: int, g: nat)
    requires
        0 <= n,
        0 < d,
        n < 0x100_0000 * d * pow2(g),
        g >= 1 ==> n >= 0x100_0000 * d * pow2((g - 1) as nat),
    ensures
        spacing_exponent(n, d) == g,
{
    let g0 = spacing_exponent(n, d);
    lemma_spacing_bounds(n, d);
    if g0 < g {
        lemma_pow2_monotone(g0, (g - 1) as nat);
        lemma_mul_inequality(pow2(g0) as int, pow2((g - 1) as nat) as int, 0x100_0000 * d);
        lemma_mul_is_commutative(pow2(g0) as int, 0x100_0000 * d);
        lemma_mul_is_commutative(pow2((g - 1) as nat) as int, 0x100_0000 * d);
    } else if g0 > g {
        lemma_pow2_monotone(g, (g0 - 1) as nat);
        lemma_mul_inequality(pow2(g) as int, pow2((g0 - 1) as nat) as int, 0x100_0000 * d);
        lemma_mul_is_commutative(pow2(g) as int, 0x100_0000 * d);
        lemma_mul_is_commutative(pow2((g0 - 1) as nat) as int, 0x100_0000 * d);
    }
}

/// Powers of two grow with the exponent.
pub proof fn lemma_pow2_monotone(a: nat, b: nat)
    requires
        a <= b,
    ensures
        pow2(a) <= pow2(b),
        pow2(a) > 0,
{
    lemma_pow2_pos(a);
    if a < b {
        lemma_pow2_strictly_increases(a, b);
    }
}

/// `2^a * 2^b == 2^(a + b)`, with the product written either way.
pub proof fn lemma_pow2_sum(a: nat, b: nat)
    ensures
        pow2(a) * pow2(b) == pow2(a + b),
        pow2(a + b) > 0,
{
    lemma_pow2_adds(a, b);
    lemma_pow2_pos(a + b);
}

/// Scaling both parts of a ratio leaves the nearest integer unchanged.
pub proof fn lemma_nearest_even_scale(n: int, d: int, c: int)
    requires
        0 <= n,
        0 < d,
        0 < c,
    ensures
        nearest_even(n * c, d * c) == nearest_even(n, d),
{
    lemma_div_multiples_vanish_quotient(c, n, d);
    lemma_truncate_middle(n, c, d);
    lemma_mul_is_commutative(n, c);
    lemma_mul_is_commutative(d, c);
    let r = n % d;
    assert((n * c) % (d * c) == c * r);
    assert((n * c) / (d * c) == n / d);
    assert(2 * (c * r) < d * c <==> 2 * r < d) by (nonlinear_arith)
        requires
            0 < c,
    ;
    assert(2 * (c * r) == d * c <==> 2 * r == d) by (nonlinear_arith)
        requires
            0 < c,
    ;
}

/// Scaling both parts of a ratio leaves the spacing exponent unchanged.
pub proof fn lemma_spacing_scale(n: int, d: int, c: int)
    requires
        0 <= n,
        0 < d,
        0 < c,
    ensures
        spacing_exponent(n * c, d * c) == spacing_exponent(n, d),
{
    let g = spacing_exponent(n, d);
    lemma_spacing_bounds(n, d);
    lemma_pow2_pos(g);
    assert(n * c < 0x100_0000 * (d * c) * pow2(g)) by (nonlinear_arith)
        requires
            n < 0x100_0000 * d * pow2(g),
            0 < c,
    ;
    if g >= 1 {
        let p = pow2((g - 1) as nat);
        assert(n * c >= 0x100_0000 * (d * c) * p) by (nonlinear_arith)
            requires
                n >= 0x100_0000 * d * p,
                0 < c,
        ;
    }
    assert(0 <= n * c) by (nonlinear_arith)
        requires
            0 <= n,
            0 < c,
    ;
    assert(0 < d * c) by (nonlinear_arith)
        requires
            0 < d,
            0 < c,
    ;
    lemma_spacing_unique(n * c, d * c, g);
}

/// Scaling both parts of a ratio leaves the rounded value unchanged.
pub proof fn lemma_round_ratio_scale(n: int, d: int, c: int)
    requires
        0 <= n,
        0 < d,
        0 < c,
    ensures
        round_ratio(n * c, d * c) == round_ratio(n, d),
{
    lemma_spacing_scale(n, d, c);
    let g = spacing_exponent(n, d);
    lemma_pow2_pos(g);
    assert(0 < d * pow2(g)) by (nonlinear_arith)
        requires
            0 < d,
            0 < pow2(g),
    ;
    lemma_nearest_even_scale(n, d * pow2(g), c);
    assert((d * pow2(g)) * c == (d * c) * pow2(g)) by (nonlinear_arith);
}

/// A quotient by a positive divisor, bracketed by brackets of the dividend.
pub proof fn lemma_quotient_bracket(m: int, lo: int, hi: int, d: int)
    requires
        0 < d,
        lo * d <= m < hi * d,
    ensures
        lo <= m / d < hi,
{
    lemma_fundamental_div_mod(m, d);
    lemma_mod_bound(m, d);
    let q = m / d;
    assert(lo <= q) by (nonlinear_arith)
        requires
            lo * d <= m,
            m == d * q + m % d,
            0 <= m % d < d,
            0 < d,
    ;
    assert(q < hi) by (nonlinear_arith)
        requires
            m < hi * d,
            m == d * q + m % d,
            0 <= m % d < d,
            0 < d,
    ;
}

/// `m * 2^e` rounds to itself where it needs no more than twenty-four bits.
///
/// `l` is the bit length of `m`, and `g` the spacing exponent that follows
/// from it.
pub proof fn lemma_dyadic_exact(m: int, e: nat, l: nat, g: nat)
    requires
        0 < m,
        1 <= l,
        pow2((l - 1) as nat) <= m < pow2(l),
        g == (if l + e > 24 {
            l + e - 24
        } else {
            0
        }),
        g <= e,
    ensures
        round_dyadic(m, e as int) == (m * pow2((e - g) as nat)) * pow2(g),
        m * pow2((e - g) as nat) < 0x100_0000,
        g >= 1 ==> m * pow2((e - g) as nat) >= 0x80_0000,
{
    lemma2_to64();
    let k = (e - g) as nat;
    let sig = m * pow2(k);
    let n = m * pow2(e);
    lemma_pow2_sum(k, g);
    lemma_pow2_pos(g);
    lemma_pow2_pos(k);
    assert(n == sig * pow2(g)) by (nonlinear_arith)
        requires
            n == m * pow2(e),
            sig == m * pow2(k),
            pow2(k) * pow2(g) == pow2(e),
    ;
    // the bracket of sig
    lemma_pow2_sum(l, k);
    assert(sig < pow2(l + k)) by (nonlinear_arith)
        requires
            sig == m * pow2(k),
            m < pow2(l),
            pow2(l) * pow2(k) == pow2(l + k),
            0 < pow2(k),
    ;
    if g >= 1 {
        assert(l + k == 24);
        lemma_pow2_sum((l - 1) as nat, k);
        assert(sig >= pow2(23)) by (nonlinear_arith)
            requires
                sig == m * pow2(k),
                m >= pow2((l - 1) as nat),
                pow2((l - 1) as nat) * pow2(k) == pow2(23),
                0 < pow2(k),
        ;
        lemma_pow2_pos((g - 1) as nat);
        lemma_pow2_unfold(g);
        assert(n >= 0x100_0000 * 1 * pow2((g - 1) as nat)) by (nonlinear_arith)
            requires
                n == sig * pow2(g),
                sig >= 0x80_0000,
                pow2(g) == 2 * pow2((g - 1) as nat),
                0 < pow2((g - 1) as nat),
        ;
    } else {
        lemma_pow2_monotone(l + k, 24);
    }
    assert(sig < 0x100_0000);
    assert(n < 0x100_0000 * 1 * pow2(g)) by (nonlinear_arith)
        requires
            n == sig * pow2(g),
            sig < 0x100_0000,
            0 < pow2(g),
    ;
    assert(0 <= n) by (nonlinear_arith)
        requires
            n == sig * pow2(g),
            0 <= sig,
            0 < pow2(g),
    ;
    lemma_spacing_unique(n, 1, g);
    // the multiple divides evenly
    lemma_div_multiples_vanish(sig, pow2(g) as int);
    lemma_mod_multiples_basic(sig, pow2(g) as int);
    assert(1 * pow2(g) == pow2(g));
    assert(nearest_even(n, 1int * pow2(g)) == sig);
}

/// `m * 2^e` rounds to a multiple of the spacing `2^g` above `2^e`: the
/// nearest integer to `m / 2^(g - e)`, times `2^g`.
pub proof fn lemma_dyadic_rounded(m: int, e: int, l: nat, g: nat)
    requires
        0 < m,
        1 <= l,
        pow2((l - 1) as nat) <= m < pow2(l),
        g == (if l + e > 24 {
            l + e - 24
        } else {
            0
        }),
        g > e,
    ensures
        round_dyadic(m, e) == nearest_even(m, pow2((g - e) as nat) as int) * pow2(g),
        0 <= nearest_even(m, pow2((g - e) as nat) as int) <= 0x100_0000,
        g >= 1 ==> nearest_even(m, pow2((g - e) as nat) as int) >= 0x80_0000,
{
    lemma2_to64();
    let k = (g - e) as nat;
    let dk = pow2(k) as int;
    lemma_pow2_pos(k);
    lemma_pow2_pos(g);
    // brackets of m over 2^k
    if g >= 1 {
        assert(l == 24 + k);
        lemma_pow2_sum(24, k);
        lemma_pow2_sum(23, k);
    } else {
        assert(l <= 24 + k);
        lemma_pow2_sum(24, k);
        lemma_pow2_monotone(l, 24 + k);
    }
    assert(m < 0x100_0000 * dk);
    assert(0 * dk <= m);
    lemma_quotient_bracket(m, 0, 0x100_0000, dk);
    if g >= 1 {
        assert(0x80_0000 * dk <= m);
        lemma_quotient_bracket(m, 0x80_0000, 0x100_0000, dk);
    }
    if e >= 0 {
        let en = e as nat;
        let n = m * pow2(en);
        lemma_pow2_pos(en);
        lemma_pow2_sum(k, en);
        lemma_pow2_sum(l, en);
        lemma_pow2_sum((l - 1) as nat, en);
        lemma_pow2_sum(24, g);
        lemma_pow2_sum(24, (g - 1) as nat);
        assert(n < pow2(l + en)) by (nonlinear_arith)
            requires
                n == m * pow2(en),
                m < pow2(l),
                pow2(l) * pow2(en) == pow2(l + en),
                0 < pow2(en),
        ;
        assert(n >= pow2((l - 1 + en) as nat)) by (nonlinear_arith)
            requires
                n == m * pow2(en),
                m >= pow2((l - 1) as nat),
                pow2((l - 1) as nat) * pow2(en) == pow2((l - 1 + en) as nat),
                0 < pow2(en),
        ;
        assert(0x100_0000 * 1 * pow2(g) == pow2(24) * pow2(g));
        assert(0x100_0000 * 1 * pow2((g - 1) as nat) == pow2(24) * pow2((g - 1) as nat));
        lemma_spacing_unique(n, 1, g);
        lemma_nearest_even_scale(m, dk, pow2(en) as int);
        assert(1 * pow2(g) == dk * pow2(en));
    } else {
        let en = (-e) as nat;
        let d = pow2(en) as int;
        lemma_pow2_pos(en);
        lemma_pow2_sum(en, g);
        lemma_pow2_sum(24, en);
        assert(d * pow2(g) == dk);
        if g >= 1 {
            lemma_pow2_sum(24 + en, g);
            lemma_pow2_sum(24 + en, (g - 1) as nat);
            assert(0x100_0000 * d * pow2(g) == pow2(l)) by (nonlinear_arith)
                requires
                    pow2(24) * pow2(en) == pow2(24 + en),
                    pow2(24 + en) * pow2(g) == pow2(l),
                    pow2(24) == 0x100_0000,
                    d == pow2(en),
            ;
            assert(0x100_0000 * d * pow2((g - 1) as nat) == pow2((l - 1) as nat))
                by (nonlinear_arith)
                requires
                    pow2(24) * pow2(en) == pow2(24 + en),
                    pow2(24 + en) * pow2((g - 1) as nat) == pow2((l - 1) as nat),
                    pow2(24) == 0x100_0000,
                    d == pow2(en),
            ;
        } else {
            lemma_pow2_monotone(l, 24 + en);
            assert(0x100_0000 * d * pow2(0) == pow2(24 + en)) by (nonlinear_arith)
                requires
                    pow2(24) * pow2(en) == pow2(24 + en),
                    pow2(24) == 0x100_0000,
                    pow2(0) == 1,
                    d == pow2(en),
            ;
        }
        lemma_spacing_unique(m, d, g);
    }
}

/// `2^k` as a machine integer.
pub(crate) fn power_of_two(k: u32) -> (r: u64)
    requires
        k < 64,
    ensures
        r == pow2(k as nat),
        r > 0,
{
    proof {
        lemma_u64_pow2_no_overflow(k as nat);
        lemma_u64_shl_is_mul(1, k as u64);
        lemma_pow2_pos(k as nat);
    }
    1u64 << (k as u64)
}

/// The number of bits of `m`: the least `l` with `m < 2^l`.
pub(crate) fn bit_length(m: u64) -> (l: u32)
    requires
        m < 0x4000_0000_0000_0000,
    ensures
        l <= 62,
        m < pow2(l as nat),
        l >= 1 ==> m >= pow2((l - 1) as nat),
        m == 0 <==> l == 0,
{
    let mut l: u32 = 0;
    let mut p: u64 = 1;
    proof {
        lemma2_to64();
        lemma2_to64_rest();
    }
    while p <= m
        invariant
            m < 0x4000_0000_0000_0000,
            pow2(62) == 0x4000_0000_0000_0000,
            p == pow2(l as nat),
            l <= 62,
            l >= 1 ==> m >= pow2((l - 1) as nat),
            l == 0 ==> p == 1,
        decreases 62 - l,
    {
        proof {
            if l >= 62 {
                lemma_pow2_monotone(62, l as nat);
            }
            lemma_pow2_unfold((l + 1) as nat);
        }
        p = p * 2;
        l = l + 1;
    }
    l
}

/// Rounds `m * 2^e` to binary32 and encodes it with the given sign.
pub(crate) fn round_pack(negative: bool, m: u64, e: i32) -> (r: Binary32)
    requires
        m < 0x4000_0000_0000_0000,
        -1000 <= e <= 1000,
    ensures
        !r.is_nan(),
        r.magnitude() == capped(round_dyadic(m as int, e as int)),
        r.sign() == negative,
{
    if m == 0 {
        proof {
            lemma_round_zero(e as int);
            lemma2_to64();
            lemma_pow2_pos(277);
        }
        return Binary32::compose(negative, 0, 0);
    }
    let l: u32 = bit_length(m);
    let top: i32 = l as i32 + e;
    let g: i32 = if top > 24 {
        top - 24
    } else {
        0
    };
    let sig: u64 = if g <= e {
        let k: u32 = (e - g) as u32;
        proof {
            lemma_dyadic_exact(m as int, e as nat, l as nat, g as nat);
        }
        m * power_of_two(k)
    } else {
        let k: i32 = g - e;
        proof {
            lemma_dyadic_rounded(m as int, e as int, l as nat, g as nat);
        }
        if k > l as i32 + 1 {
            proof {
                lemma_pow2_monotone((l + 2) as nat, k as nat);
                lemma_pow2_unfold((l + 2) as nat);
                lemma_pow2_unfold((l + 1) as nat);
                lemma_small_ratio(m as int, pow2(k as nat) as int);
            }
            0
        } else {
            let d: u64 = power_of_two(k as u32);
            let q: u64 = m / d;
            let rest: u64 = m % d;
            let half: u64 = d / 2;
            proof {
                lemma_pow2_unfold(k as nat);
            }
            if rest > half || (rest == half && q % 2 == 1) {
                q + 1
            } else {
                q
            }
        }
    };
    proof {
        lemma2_to64();
        lemma_cap(sig as int, g as nat);
    }
    if g > 253 {
        Binary32::infinity(negative)
    } else {
        Binary32::compose(negative, sig as u32, g as u32)
    }
}

/// A significand at an exponent above 253 reaches the limit; up to 253 it
/// does not pass it.
pub proof fn lemma_cap(sig: int, g: nat)
    requires
        0 <= sig <= 0x100_0000,
        g >= 1 ==> sig >= 0x80_0000,
    ensures
        g > 253 ==> capped(sig * pow2(g)) == limit(),
        g <= 253 ==> capped(sig * pow2(g)) == sig * pow2(g),
{
    lemma2_to64();
    lemma_pow2_pos(g);
    if g > 253 {
        lemma_pow2_monotone(254, g);
        lemma_pow2_sum(23, 254);
        assert(sig * pow2(g) >= pow2(23) * pow2(254)) by (nonlinear_arith)
            requires
                sig >= pow2(23),
                pow2(g) >= pow2(254),
        ;
    } else {
        lemma_pow2_monotone(g, 253);
        lemma_pow2_sum(24, 253);
        assert(sig * pow2(g) <= pow2(24) * pow2(253)) by (nonlinear_arith)
            requires
                0 <= sig <= pow2(24),
                0 < pow2(g) <= pow2(253),
        ;
    }
}

/// A rounded magnitude as binary32 holds it: what reaches `limit()` becomes
/// an infinity.
pub open spec fn capped(v: int) -> int {
    if v >= limit() {
        limit()
    } else {
        v
    }
}

/// Zero rounds to zero.
pub proof fn lemma_round_zero(e: int)
    ensures
        round_dyadic(0, e) == 0,
{
    lemma2_to64();
    if e >= 0 {
        assert(0 * pow2(e as nat) == 0);
        assert(spacing_exponent(0, 1) == 0);
        assert(nearest_even(0, 1int * pow2(0)) == 0);
    } else {
        let d = pow2((-e) as nat) as int;
        lemma_pow2_pos((-e) as nat);
        assert(spacing_exponent(0, d) == 0);
        lemma_small_ratio(0, d * pow2(0));
    }
}

/// A ratio below a quarter has zero for its nearest integer.
pub proof fn lemma_small_ratio(m: int, d: int)
    requires
        0 <= m,
        4 * m < d,
    ensures
        nearest_even(m, d) == 0,
{
    lemma_small_mod(m as nat, d as nat);
    lemma_basic_div(m, d);
}

/// A number of at most twenty-four bits times a power of two is
/// representable: it rounds to itself.
pub proof fn lemma_round_representable(m: int, e: nat)
    requires
        0 <= m < 0x100_0000,
    ensures
        round_dyadic(m, e as int) == m * pow2(e),
{
    let n = m * pow2(e);
    lemma_pow2_pos(e);
    assert(0 <= n < 0x100_0000 * pow2(e)) by (nonlinear_arith)
        requires
            n == m * pow2(e),
            0 <= m < 0x100_0000,
            0 < pow2(e),
    ;
    let g = spacing_exponent(n, 1);
    lemma_spacing_bounds(n, 1);
    lemma_pow2_pos(g);
    if g > e {
        lemma_pow2_monotone(e, (g - 1) as nat);
        assert(false) by (nonlinear_arith)
            requires
                n < 0x100_0000 * pow2(e),
                n >= 0x100_0000 * 1 * pow2((g - 1) as nat),
                pow2(e) <= pow2((g - 1) as nat),
        ;
    }
    let k = (e - g) as nat;
    lemma_pow2_sum(k, g);
    let sig = m * pow2(k);
    assert(n == sig * pow2(g)) by (nonlinear_arith)
        requires
            n == m * pow2(e),
            sig == m * pow2(k),
            pow2(k) * pow2(g) == pow2(e),
    ;
    lemma_div_multiples_vanish(sig, pow2(g) as int);
    lemma_mod_multiples_basic(sig, pow2(g) as int);
    assert(nearest_even(n, 1int * pow2(g)) == sig);
}

/// The nearest integer to a ratio of at most `b` is at most `b`, and it is
/// not negative.
pub proof fn lemma_nearest_even_le(n: int, d: int, b: int)
    requires
        0 <= n <= d * b,
        0 < d,
    ensures
        0 <= nearest_even(n, d) <= b,
{
    lemma_fundamental_div_mod(n, d);
    lemma_mod_bound(n, d);
    let q = n / d;
    let r = n % d;
    assert(0 <= q && q <= b && (q == b ==> r == 0)) by (nonlinear_arith)
        requires
            n == d * q + r,
            0 <= r < d,
            0 <= n <= d * b,
            0 < d,
    ;
}

/// A rounded value is not negative.
pub proof fn lemma_round_ratio_nonnegative(n: int, d: int)
    requires
        0 <= n,
        0 < d,
    ensures
        0 <= round_ratio(n, d),
{
    let g = spacing_exponent(n, d);
    lemma_pow2_pos(g);
    let dg = d * pow2(g);
    assert(0 < dg) by (nonlinear_arith)
        requires
            dg == d * pow2(g),
            0 < d,
            0 < pow2(g),
    ;
    assert(n <= dg * n) by (nonlinear_arith)
        requires
            0 <= n,
            1 <= dg,
    ;
    lemma_nearest_even_le(n, dg, n);
    let q = nearest_even(n, dg);
    assert(0 <= q * pow2(g)) by (nonlinear_arith)
        requires
            0 <= q,
            0 < pow2(g),
    ;
}

/// Rounding does not lead above a power of two that bounds the ratio.
pub proof fn lemma_round_ratio_le(n: int, d: int, k: nat)
    requires
        0 <= n <= d * pow2(k),
        0 < d,
    ensures
        0 <= round_ratio(n, d) <= pow2(k),
{
    let g = spacing_exponent(n, d);
    lemma_spacing_bounds(n, d);
    lemma_pow2_pos(g);
    lemma_pow2_pos(k);
    let dg = d * pow2(g);
    assert(0 < dg) by (nonlinear_arith)
        requires
            dg == d * pow2(g),
            0 < d,
            0 < pow2(g),
    ;
    if g > k {
        lemma_pow2_monotone(k, (g - 1) as nat);
        assert(false) by (nonlinear_arith)
            requires
                n <= d * pow2(k),
                n >= 0x100_0000 * d * pow2((g - 1) as nat),
                pow2(k) <= pow2((g - 1) as nat),
                0 < d,
                0 < pow2(k),
        ;
    }
    let j = (k - g) as nat;
    lemma_pow2_sum(g, j);
    assert(d * pow2(k) == dg * pow2(j)) by (nonlinear_arith)
        requires
            dg == d * pow2(g),
            pow2(g) * pow2(j) == pow2(k),
    ;
    lemma_nearest_even_le(n, dg, pow2(j) as int);
    let q = nearest_even(n, dg);
    assert(0 <= q * pow2(g) <= pow2(k)) by (nonlinear_arith)
        requires
            0 <= q <= pow2(j),
            pow2(g) * pow2(j) == pow2(k),
            0 < pow2(g),
    ;
}

/// The nearest integer to `n / d`, on machine integers.
pub(crate) fn nearest_even_of(n: u64, d: u64) -> (q: u64)
    requires
        0 < d <= 0x1_0000_0000,
        n < 0x4000_0000_0000_0000,
    ensures
        q == nearest_even(n as int, d as int),
{
    let q: u64 = n / d;
    let r: u64 = n % d;
    if 2 * r < d || (2 * r == d && q % 2 == 0) {
        q
    } else {
        q + 1
    }
}

/// A number with a full significand absorbs what is under a quarter of its
/// last place, added or taken away.
pub proof fn lemma_round_absorb(sx: int, ex: nat, y: int)
    requires
        0x80_0000 <= sx < 0x100_0000,
        ex >= 2,
        0 <= y,
        4 * y < pow2(ex),
    ensures
        round_ratio(sx * pow2(ex) + y, 1) == sx * pow2(ex),
        round_ratio(sx * pow2(ex) - y, 1) == sx * pow2(ex),
{
    let p = pow2(ex) as int;
    let h = pow2((ex - 1) as nat) as int;
    let a = sx * p;
    lemma_pow2_pos(ex);
    lemma_pow2_pos((ex - 1) as nat);
    lemma_pow2_pos((ex - 2) as nat);
    lemma_pow2_unfold(ex);
    lemma_pow2_unfold((ex - 1) as nat);
    assert(p == 2 * h);
    assert(0x80_0000 * p <= a <= 0xff_ffff * p) by (nonlinear_arith)
        requires
            a == sx * p,
            0x80_0000 <= sx <= 0xff_ffff,
            0 < p,
    ;
    // adding
    {
        let n = a + y;
        assert(0x100_0000 * 1 * p == 0x100_0000 * p);
        assert(0x100_0000 * 1 * h == 0x80_0000 * p) by (nonlinear_arith)
            requires
                p == 2 * h,
        ;
        lemma_spacing_unique(n, 1, ex);
        assert(n == p * sx + y) by (nonlinear_arith)
            requires
                n == a + y,
                a == sx * p,
        ;
        lemma_fundamental_div_mod_converse(n, p, sx, y);
        assert(1int * pow2(ex) == p);
        assert(nearest_even(n, 1int * pow2(ex)) == sx);
    }
    // taking away
    if y > 0 {
        let n = a - y;
        if sx > 0x80_0000 {
            assert(0x80_0000 * p <= (sx - 1) * p) by (nonlinear_arith)
                requires
                    0x80_0000 < sx,
                    0 < p,
            ;
            assert(n == p * (sx - 1) + (p - y)) by (nonlinear_arith)
                requires
                    n == a - y,
                    a == sx * p,
            ;
            assert(0x100_0000 * 1 * h == 0x80_0000 * p) by (nonlinear_arith)
                requires
                    p == 2 * h,
            ;
            lemma_spacing_unique(n, 1, ex);
            lemma_fundamental_div_mod_converse(n, p, sx - 1, p - y);
            assert(1int * pow2(ex) == p);
            assert(nearest_even(n, 1int * pow2(ex)) == sx);
        } else {
            let g = (ex - 1) as nat;
            assert(a == 0x100_0000 * h) by (nonlinear_arith)
                requires
                    a == sx * p,
                    sx == 0x80_0000,
                    p == 2 * h,
            ;
            assert(n == h * 0xff_ffff + (h - y));
            if g >= 1 {
                let h2 = pow2((g - 1) as nat) as int;
                assert(h == 2 * h2);
                assert(0x100_0000 * 1 * h2 == 0x80_0000 * h) by (nonlinear_arith)
                    requires
                        h == 2 * h2,
                ;
            }
            assert(0x100_0000 * 1 * h == 0x100_0000 * h);
            lemma_spacing_unique(n, 1, g);
            lemma_fundamental_div_mod_converse(n, h, 0xff_ffff, h - y);
            assert(1int * pow2(g) == h);
            assert(nearest_even(n, 1int * pow2(g)) == 0x100_0000);
        }
    }
}

/// A rounded value is representable: rounding it again changes nothing.
pub proof fn lemma_round_is_representable(n: int, d: int)
    requires
        0 <= n,
        0 < d,
    ensures
        round_ratio(round_ratio(n, d), 1) == round_ratio(n, d),
{
    let g = spacing_exponent(n, d);
    lemma_spacing_bounds(n, d);
    lemma_pow2_pos(g);
    let dg = d * pow2(g);
    assert(0 < dg && n <= dg * 0x100_0000) by (nonlinear_arith)
        requires
            dg == d * pow2(g),
            0 < d,
            0 < pow2(g),
            n < 0x100_0000 * d * pow2(g),
    ;
    lemma_nearest_even_le(n, dg, 0x100_0000);
    let q = nearest_even(n, dg);
    if q < 0x100_0000 {
        lemma_round_representable(q, g);
    } else {
        lemma_round_representable(0x80_0000, g + 1);
        lemma_pow2_unfold(g + 1);
        assert(0x80_0000 * pow2(g + 1) == q * pow2(g)) by (nonlinear_arith)
            requires
                q == 0x100_0000,
                pow2(g + 1) == 2 * pow2(g),
        ;
    }
}

} // verus!

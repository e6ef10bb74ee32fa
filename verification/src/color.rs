//! Conversion of a colour from hue, saturation and brightness to red, green
//! and blue.
use vstd::prelude::*;
use vstd::arithmetic::power2::*;
use bmp::Pixel;
use crate::arith::{
    clamped, difference, lemma_within_limit, product, quotient, remainder, sum, to_byte, unit,
};
use crate::binary32::{lemma_magnitude_zero, limit, Binary32};
use crate::canvas::pixel_channels;
use crate::rounding::{
    lemma_pow2_sum, lemma_round_is_representable, lemma_round_ratio_le,
    lemma_round_ratio_scale, lemma_round_representable, round_ratio, round_signed,
};
use vstd::arithmetic::div_mod::lemma_truncate_middle;

verus! {

/// The component that is outside its range.
#[derive(Debug, Clone, Copy, PartialEq, Eq, Structural)]
pub enum OutOfRangeValue {
    /// The hue is not from 0 up to, but not with, 360.
    Hue,
    /// The saturation is not from 0 to 1.
    Saturation,
    /// The brightness is not from 0 to 1.
    Brightness,
}

impl OutOfRangeValue {
    /// The range that the component has to be in, as a sentence.
    pub fn message(&self) -> (r: &'static str)
        ensures
            r@ == (match *self {
                OutOfRangeValue::Hue => "Hue is out of range: 0 <= hue < 360"@,
                OutOfRangeValue::Saturation => "Saturation is out of range: 0 <= saturation <= 1"@,
                OutOfRangeValue::Brightness => "Brightness is out of range: 0 <= brightness <= 1"@,
            }),
    {
        match self {
            OutOfRangeValue::Hue => "Hue is out of range: 0 <= hue < 360",
            OutOfRangeValue::Saturation => "Saturation is out of range: 0 <= saturation <= 1",
            OutOfRangeValue::Brightness => "Brightness is out of range: 0 <= brightness <= 1",
        }
    }
}

/// A hue is valid from 0 up to, but not with, 360. A NaN is in no range.
pub open spec fn hue_in_range(hue: Binary32) -> bool {
    hue.is_finite() && 0 <= hue.scaled() < 360 * unit()
}

/// A saturation or brightness is valid from 0 to 1, both included.
pub open spec fn fraction_in_range(v: Binary32) -> bool {
    v.is_finite() && 0 <= v.scaled() <= unit()
}

/// The error that a triple gives, if any: the hue is looked at first, then
/// the saturation, then the brightness.
pub open spec fn range_error(hue: Binary32, saturation: Binary32, brightness: Binary32) -> Option<
    OutOfRangeValue,
> {
    if !hue_in_range(hue) {
        Some(OutOfRangeValue::Hue)
    } else if !fraction_in_range(saturation) {
        Some(OutOfRangeValue::Saturation)
    } else if !fraction_in_range(brightness) {
        Some(OutOfRangeValue::Brightness)
    } else {
        None
    }
}

/// The absolute value of a scaled value.
pub open spec fn absolute(a: int) -> int {
    if a < 0 {
        -a
    } else {
        a
    }
}

/// `C = saturation * brightness`.
pub open spec fn chroma(saturation: int, brightness: int) -> int {
    product(saturation, brightness)
}

/// `1 - |((hue / 60) mod 2) - 1|`, each step rounded as binary32 rounds it.
pub open spec fn ramp(hue: int) -> int {
    let turn = remainder(quotient(hue, 60 * unit()), 2 * unit());
    difference(unit(), absolute(difference(turn, unit())))
}

/// `X = C * (1 - |((hue / 60) mod 2) - 1|)`.
pub open spec fn secondary(hue: int, c: int) -> int {
    product(c, ramp(hue))
}

/// `M = brightness - C`.
pub open spec fn lift(brightness: int, c: int) -> int {
    difference(brightness, c)
}

/// The sextant of a hue in range: 0 for the hues below 60, up to 5 for
/// those from 300.
pub open spec fn sextant(hue: int) -> int {
    if hue < 60 * unit() {
        0
    } else if hue < 120 * unit() {
        1
    } else if hue < 180 * unit() {
        2
    } else if hue < 240 * unit() {
        3
    } else if hue < 300 * unit() {
        4
    } else {
        5
    }
}

/// The three parts before the lift, as the formula of a sextant gives them.
pub open spec fn sextant_formula(sextant: int, c: int, x: int) -> (int, int, int) {
    if sextant == 0 {
        (c, x, 0)
    } else if sextant == 1 {
        (x, c, 0)
    } else if sextant == 2 {
        (0, c, x)
    } else if sextant == 3 {
        (0, x, c)
    } else if sextant == 4 {
        (x, 0, c)
    } else {
        (c, 0, x)
    }
}

/// The three parts before the lift, by the sextant of the hue.
pub open spec fn sextant_parts(hue: int, c: int, x: int) -> (int, int, int) {
    sextant_formula(sextant(hue), c, x)
}

/// `(part + M) * 255` without what is behind the point.
pub open spec fn channel(part: int, m: int) -> u8 {
    to_byte(product(sum(part, m), 255 * unit())) as u8
}

/// The red, green and blue of a colour whose components are in range.
pub open spec fn rgb_of(hue: Binary32, saturation: Binary32, brightness: Binary32) -> (
    u8,
    u8,
    u8,
) {
    let c = chroma(saturation.scaled(), brightness.scaled());
    let x = secondary(hue.scaled(), c);
    let m = lift(brightness.scaled(), c);
    let parts = sextant_parts(hue.scaled(), c, x);
    (channel(parts.0, m), channel(parts.1, m), channel(parts.2, m))
}

/// What the conversion gives for any triple: the colour, or the component
/// that is out of range.
pub open spec fn conversion(hue: Binary32, saturation: Binary32, brightness: Binary32) -> Result<
    (u8, u8, u8),
    OutOfRangeValue,
> {
    match range_error(hue, saturation, brightness) {
        Some(e) => Err(e),
        None => Ok(rgb_of(hue, saturation, brightness)),
    }
}

/// A significand `c * 2^a` at exponent `e` makes the whole number
/// `c * 2^(a + e - 149)`.
pub proof fn lemma_whole_number(c: int, a: nat, e: nat)
    requires
        a + e >= 149,
    ensures
        (c * pow2(a)) * pow2(e) == (c * pow2((a + e - 149) as nat)) * unit(),
{
    let j = (a + e - 149) as nat;
    lemma_pow2_sum(a, e);
    lemma_pow2_sum(j, 149);
    assert((c * pow2(a)) * pow2(e) == (c * pow2(j)) * pow2(149)) by (nonlinear_arith)
        requires
            pow2(a) * pow2(e) == pow2(j) * pow2(149),
    ;
}

/// The number that the given small whole number is in binary32.
pub(crate) fn whole(n: u16) -> (r: Binary32)
    requires
        n == 0 || n == 1 || n == 60 || n == 120 || n == 180 || n == 240 || n == 255 || n == 300
            || n == 360,
    ensures
        r.is_finite(),
        !r.sign(),
        r.scaled() == n * unit(),
{
    proof {
        lemma2_to64();
        lemma_whole_number(0, 0, 149);
        lemma_whole_number(1, 23, 126);
        lemma_whole_number(15, 20, 131);
        lemma_whole_number(15, 20, 132);
        lemma_whole_number(45, 18, 133);
        lemma_whole_number(15, 20, 133);
        lemma_whole_number(255, 16, 133);
        lemma_whole_number(75, 17, 134);
        lemma_whole_number(45, 18, 134);
    }
    let bits: u32 = if n == 0 {
        0
    } else if n == 1 {
        0x3f80_0000
    } else if n == 60 {
        0x4270_0000
    } else if n == 120 {
        0x42f0_0000
    } else if n == 180 {
        0x4334_0000
    } else if n == 240 {
        0x4370_0000
    } else if n == 255 {
        0x437f_0000
    } else if n == 300 {
        0x4396_0000
    } else {
        0x43b4_0000
    };
    let r = Binary32 { bits };
    proof {
        if n == 0 {
            assert(r.significand() == 0 && r.exponent() == 0);
            assert(r.magnitude() == 0) by (nonlinear_arith)
                requires
                    r.magnitude() == 0 * pow2(0),
            ;
            assert(0 * unit() == 0);
        } else if n == 1 {
            assert(r.significand() == 1 * pow2(23) && r.exponent() == 126);
        } else if n == 60 {
            assert(r.significand() == 15 * pow2(20) && r.exponent() == 131);
        } else if n == 120 {
            assert(r.significand() == 15 * pow2(20) && r.exponent() == 132);
        } else if n == 180 {
            assert(r.significand() == 45 * pow2(18) && r.exponent() == 133);
        } else if n == 240 {
            assert(r.significand() == 15 * pow2(20) && r.exponent() == 133);
        } else if n == 255 {
            assert(r.significand() == 255 * pow2(16) && r.exponent() == 133);
        } else if n == 300 {
            assert(r.significand() == 75 * pow2(17) && r.exponent() == 134);
        } else {
            assert(r.significand() == 45 * pow2(18) && r.exponent() == 134);
        }
    }
    r
}

/// Rounding keeps a result within a power of two that bounds the exact
/// value on both sides.
pub proof fn lemma_round_signed_le(n: int, d: int, k: nat)
    requires
        0 < d,
        -(d * pow2(k)) <= n <= d * pow2(k),
    ensures
        -pow2(k) <= round_signed(n, d) <= pow2(k),
{
    if n < 0 {
        lemma_round_ratio_le(-n, d, k);
    } else {
        lemma_round_ratio_le(n, d, k);
    }
}

/// A result whose exact value is within `2^k`, far below the limit, is
/// finite and is the rounded value itself.
pub proof fn lemma_in_reach(r: Binary32, n: int, d: int, k: nat)
    requires
        !r.is_nan(),
        r.scaled() == clamped(round_signed(n, d)),
        0 < d,
        -(d * pow2(k)) <= n <= d * pow2(k),
        k <= 160,
    ensures
        r.is_finite(),
        r.scaled() == round_signed(n, d),
        r.magnitude() <= pow2(k),
{
    lemma_round_signed_le(n, d, k);
    lemma_pow2_strictly_increases(k, 277);
    lemma_within_limit(r, round_signed(n, d));
    lemma_magnitude_zero(r);
}

/// The magnitude of a number is the absolute value of its scaled value.
pub proof fn lemma_magnitude_absolute(x: Binary32)
    ensures
        x.magnitude() == absolute(x.scaled()),
{
    lemma_magnitude_zero(x);
}

/// Whether the hue is in its range.
pub fn valid_hue(hue: Binary32) -> (r: bool)
    ensures
        r == hue_in_range(hue),
{
    hue.finite() && !hue.less_than(whole(0)) && hue.less_than(whole(360))
}

/// Whether a saturation or a brightness is in its range.
pub fn valid_fraction(v: Binary32) -> (r: bool)
    ensures
        r == fraction_in_range(v),
{
    v.finite() && !v.less_than(whole(0)) && !whole(1).less_than(v)
}

/// `1 - |((hue / 60) mod 2) - 1|`.
fn ramp_of(hue: Binary32) -> (r: Binary32)
    requires
        hue.is_finite(),
    ensures
        r.is_finite(),
        r.scaled() == ramp(hue.scaled()),
        r.magnitude() <= pow2(152),
{
    let one = whole(1);
    let turn = hue.div_sixty().rem_two();
    proof {
        lemma_pow2_unfold(150);
        lemma_pow2_unfold(151);
        lemma_pow2_unfold(152);
        lemma_pow2_pos(149);
        lemma_magnitude_absolute(turn);
        assert(1 * pow2(151) == pow2(151));
        assert(1 * pow2(152) == pow2(152));
    }
    let d1 = turn.minus(one);
    proof {
        lemma_in_reach(d1, turn.scaled() - unit(), 1, 151);
        lemma_magnitude_absolute(d1);
    }
    let a = d1.abs();
    let r = one.minus(a);
    proof {
        lemma_in_reach(r, unit() - a.scaled(), 1, 152);
    }
    r
}

/// `(part + m) * 255`, cut to a byte.
fn channel_of(part: Binary32, m: Binary32) -> (r: u8)
    requires
        part.is_finite(),
        part.magnitude() <= pow2(152),
        m.is_finite(),
        m.magnitude() <= pow2(150),
    ensures
        r == channel(part.scaled(), m.scaled()),
{
    proof {
        lemma_pow2_unfold(151);
        lemma_pow2_unfold(152);
        lemma_pow2_unfold(153);
        lemma_pow2_unfold(154);
        lemma_pow2_unfold(155);
        lemma_pow2_unfold(156);
        lemma_pow2_unfold(157);
        lemma_pow2_unfold(158);
        lemma_pow2_unfold(159);
        lemma_pow2_unfold(160);
        lemma_pow2_unfold(161);
        lemma_pow2_pos(149);
        lemma_pow2_pos(153);
        lemma_magnitude_absolute(part);
        lemma_magnitude_absolute(m);
        assert(1 * pow2(153) == pow2(153));
    }
    let v = part.plus(m);
    let scale = whole(255);
    proof {
        lemma_in_reach(v, part.scaled() + m.scaled(), 1, 153);
        lemma_magnitude_absolute(v);
        let vv = v.scaled();
        assert(-(unit() * pow2(161)) <= vv * (255 * unit()) <= unit() * pow2(161))
            by (nonlinear_arith)
            requires
                -pow2(153) <= vv <= pow2(153),
                pow2(161) == 256 * pow2(153),
                0 < unit(),
        ;
    }
    let f = v.times(scale);
    proof {
        lemma_scaled_result(f, v.scaled() * scale.scaled());
    }
    f.to_byte()
}

/// A product within `2^161` is far below the limit: the number that holds
/// it is finite and holds the rounded product itself.
proof fn lemma_scaled_result(f: Binary32, n: int)
    requires
        !f.is_nan(),
        f.scaled() == clamped(round_signed(n, unit())),
        -(unit() * pow2(161)) <= n <= unit() * pow2(161),
    ensures
        f.scaled() == round_signed(n, unit()),
{
    lemma_pow2_pos(149);
    lemma_round_signed_le(n, unit(), 161);
    lemma_pow2_strictly_increases(161, 277);
    lemma_within_limit(f, round_signed(n, unit()));
}

/// `C = saturation * brightness`.
fn chroma_of(saturation: Binary32, brightness: Binary32) -> (c: Binary32)
    requires
        fraction_in_range(saturation),
        fraction_in_range(brightness),
    ensures
        c.is_finite(),
        c.scaled() == chroma(saturation.scaled(), brightness.scaled()),
        c.magnitude() <= pow2(149),
{
    let c = saturation.times(brightness);
    proof {
        lemma_pow2_pos(149);
        let sv = saturation.scaled();
        let bv = brightness.scaled();
        assert(0 <= sv * bv <= unit() * pow2(149)) by (nonlinear_arith)
            requires
                0 <= sv <= unit(),
                0 <= bv <= unit(),
                unit() == pow2(149),
        ;
        lemma_in_reach(c, sv * bv, unit(), 149);
    }
    c
}

/// `X = C * (1 - |((hue / 60) mod 2) - 1|)`.
fn secondary_of(hue: Binary32, c: Binary32) -> (x: Binary32)
    requires
        hue.is_finite(),
        c.is_finite(),
        c.magnitude() <= pow2(149),
    ensures
        x.is_finite(),
        x.scaled() == secondary(hue.scaled(), c.scaled()),
        x.magnitude() <= pow2(152),
{
    let w = ramp_of(hue);
    let x = c.times(w);
    proof {
        lemma_pow2_pos(149);
        lemma_pow2_pos(152);
        lemma_magnitude_absolute(c);
        lemma_magnitude_absolute(w);
        let cv = c.scaled();
        let wv = w.scaled();
        assert(-(unit() * pow2(152)) <= cv * wv <= unit() * pow2(152)) by (nonlinear_arith)
            requires
                -unit() <= cv <= unit(),
                -pow2(152) <= wv <= pow2(152),
                0 < unit(),
                0 < pow2(152),
        ;
        lemma_in_reach(x, cv * wv, unit(), 152);
    }
    x
}

/// `M = brightness - C`.
fn lift_of(brightness: Binary32, c: Binary32) -> (m: Binary32)
    requires
        fraction_in_range(brightness),
        c.is_finite(),
        c.magnitude() <= pow2(149),
    ensures
        m.is_finite(),
        m.scaled() == lift(brightness.scaled(), c.scaled()),
        m.magnitude() <= pow2(150),
{
    let m = brightness.minus(c);
    proof {
        lemma_pow2_unfold(150);
        lemma_magnitude_absolute(c);
        assert(1 * pow2(150) == pow2(150));
        lemma_in_reach(m, brightness.scaled() - c.scaled(), 1, 150);
    }
    m
}

/// The sextant of a hue.
fn sextant_of(hue: Binary32) -> (k: u8)
    requires
        !hue.is_nan(),
    ensures
        k == sextant(hue.scaled()),
        k < 6,
{
    if hue.less_than(whole(60)) {
        0
    } else if hue.less_than(whole(120)) {
        1
    } else if hue.less_than(whole(180)) {
        2
    } else if hue.less_than(whole(240)) {
        3
    } else if hue.less_than(whole(300)) {
        4
    } else {
        5
    }
}

/// The three parts before the lift, as the formula of the sextant `k`
/// gives them.
fn parts_of(k: u8, c: Binary32, x: Binary32) -> (p: (Binary32, Binary32, Binary32))
    requires
        k < 6,
        c.is_finite(),
        c.magnitude() <= pow2(152),
        x.is_finite(),
        x.magnitude() <= pow2(152),
    ensures
        (p.0.scaled(), p.1.scaled(), p.2.scaled()) == sextant_formula(
            k as int,
            c.scaled(),
            x.scaled(),
        ),
        p.0.is_finite() && p.1.is_finite() && p.2.is_finite(),
        p.0.magnitude() <= pow2(152),
        p.1.magnitude() <= pow2(152),
        p.2.magnitude() <= pow2(152),
{
    let zero = whole(0);
    proof {
        lemma_magnitude_absolute(zero);
        lemma_pow2_pos(152);
    }
    if k == 0 {
        (c, x, zero)
    } else if k == 1 {
        (x, c, zero)
    } else if k == 2 {
        (zero, c, x)
    } else if k == 3 {
        (zero, x, c)
    } else if k == 4 {
        (x, zero, c)
    } else {
        (c, zero, x)
    }
}

/// The red, green and blue of a colour whose components are in range.
fn colour_of(hue: Binary32, saturation: Binary32, brightness: Binary32) -> (rgb: (u8, u8, u8))
    requires
        hue_in_range(hue),
        fraction_in_range(saturation),
        fraction_in_range(brightness),
    ensures
        rgb == rgb_of(hue, saturation, brightness),
{
    let c = chroma_of(saturation, brightness);
    let x = secondary_of(hue, c);
    let m = lift_of(brightness, c);
    proof {
        lemma_pow2_strictly_increases(149, 152);
    }
    let parts = parts_of(sextant_of(hue), c, x);
    (channel_of(parts.0, m), channel_of(parts.1, m), channel_of(parts.2, m))
}

/// Converts a colour from hue (in degrees), saturation and brightness to
/// red, green and blue.
///
/// The hue has to be at least 0 and below 360, the saturation and the
/// brightness from 0 to 1; the first of them that is not gives the error.
/// In range, the result is
/// `C = saturation * brightness`,
/// `X = C * (1 - |((hue / 60) mod 2) - 1|)`, `M = brightness - C`, the parts
/// `(C, X, 0)`, `(X, C, 0)`, `(0, C, X)`, `(0, X, C)`, `(X, 0, C)`,
/// `(C, 0, X)` for the six sextants of the hue, and for each part
/// `(part + M) * 255` without what is behind the point. Each step is
/// rounded as binary32 arithmetic rounds it.
pub fn hsv_to_rgb(hue: Binary32, saturation: Binary32, brightness: Binary32) -> (res: Result<
    Pixel,
    OutOfRangeValue,
>)
    ensures
        match res {
            Ok(p) => conversion(hue, saturation, brightness) == Ok::<
                (u8, u8, u8),
                OutOfRangeValue,
            >(pixel_channels(p)),
            Err(e) => conversion(hue, saturation, brightness) == Err::<
                (u8, u8, u8),
                OutOfRangeValue,
            >(e),
        },
        res is Ok <==> hue_in_range(hue) && fraction_in_range(saturation) && fraction_in_range(
            brightness,
        ),
{
    if !valid_hue(hue) {
        return Err(OutOfRangeValue::Hue);
    }
    if !valid_fraction(saturation) {
        return Err(OutOfRangeValue::Saturation);
    }
    if !valid_fraction(brightness) {
        return Err(OutOfRangeValue::Brightness);
    }
    let (r, g, b) = colour_of(hue, saturation, brightness);
    Ok(Pixel::new(r, g, b))
}

/// A whole number of units up to five rounds to itself.
proof fn lemma_small_whole(k: int)
    requires
        0 <= k < 6,
    ensures
        round_ratio(k * unit(), 1) == k * unit(),
{
    lemma_round_representable(k, 149);
}

/// The ramp is 0 at the hues 0, 120 and 240 and 1 at the hues 60, 180 and
/// 300: where two sextants meet, the secondary part is nothing or all.
pub proof fn lemma_ramp_at_boundary(k: int)
    requires
        0 <= k < 6,
    ensures
        ramp(60 * k * unit()) == (if k % 2 == 0 {
            0
        } else {
            unit()
        }),
{
    let u = unit();
    let hue = 60 * k * u;
    lemma_pow2_pos(149);
    // the quotient is the whole number k
    assert(hue * u == (k * u) * (60 * u)) by (nonlinear_arith)
        requires
            hue == 60 * k * u,
    ;
    assert(0 <= k * u) by (nonlinear_arith)
        requires
            0 <= k,
            0 < u,
    ;
    assert(0 < 60 * u);
    lemma_round_ratio_scale(k * u, 1, 60 * u);
    assert(1 * (60 * u) == 60 * u);
    lemma_small_whole(k);
    assert(0 <= hue * u) by (nonlinear_arith)
        requires
            hue * u == (k * u) * (60 * u),
            0 <= k * u,
            0 < u,
    ;
    assert(quotient(hue, 60 * u) == k * u);
    // its remainder by two
    lemma_truncate_middle(k, u, 2);
    assert(u * k == k * u && u * 2 == 2 * u && u * (k % 2) == (k % 2) * u) by (nonlinear_arith);
    let turn = remainder(k * u, 2 * u);
    assert(turn == (k % 2) * u);
    lemma_small_whole(0);
    lemma_small_whole(1);
    assert(0 * u == 0 && 1 * u == u);
    if k % 2 == 0 {
        assert(turn == 0);
        assert(difference(turn, u) == -u);
        assert(difference(u, absolute(-u)) == 0);
    } else {
        assert(turn == u);
        assert(difference(turn, u) == 0);
        assert(difference(u, absolute(0)) == u);
    }
}

/// Where two sextants meet, the formulas of both give the same parts: the
/// colour does not jump when the hue passes from one sextant to the next,
/// nor from the last to the first.
///
/// The boundary is the hue `60 * k`, `prior` the sextant that ends there
/// and `k` the one that starts; `c` is the chroma of any saturation and
/// brightness.
pub proof fn lemma_sextants_meet(k: int, saturation: int, brightness: int)
    requires
        0 <= k < 6,
    ensures
        ({
            let hue = 60 * k * unit();
            let c = chroma(saturation, brightness);
            let x = secondary(hue, c);
            let prior = (k + 5) % 6;
            &&& sextant(hue) == k
            &&& sextant_formula(k, c, x) == sextant_formula(prior, c, x)
        }),
{
    let u = unit();
    let hue = 60 * k * u;
    let c = chroma(saturation, brightness);
    lemma_pow2_pos(149);
    lemma_ramp_at_boundary(k);
    assert(sextant(hue) == k) by (nonlinear_arith)
        requires
            hue == 60 * k * u,
            0 <= k < 6,
            0 < u,
            sextant(hue) == (if hue < 60 * u {
                0int
            } else if hue < 120 * u {
                1int
            } else if hue < 180 * u {
                2int
            } else if hue < 240 * u {
                3int
            } else if hue < 300 * u {
                4int
            } else {
                5int
            }),
    ;
    if k % 2 == 0 {
        assert(c * 0 == 0);
        crate::arith::lemma_round_ratio_zero(u);
        assert(secondary(hue, c) == 0);
    } else {
        // the chroma is a rounded value, so one times it is itself
        let n = saturation * brightness;
        let m = if n < 0 {
            -n
        } else {
            n
        };
        let v = round_ratio(m, u);
        lemma_round_is_representable(m, u);
        crate::rounding::lemma_round_ratio_nonnegative(m, u);
        lemma_round_ratio_scale(v, 1, u);
        assert(1 * u == u);
        assert(round_ratio(v * u, u) == v);
        let p = c * u;
        if c < 0 {
            assert(p < 0 && -p == v * u) by (nonlinear_arith)
                requires
                    p == c * u,
                    c == -v,
                    c < 0,
                    0 < u,
            ;
        } else {
            assert(p >= 0 && p == v * u) by (nonlinear_arith)
                requires
                    p == c * u,
                    c == v,
                    0 <= c,
                    0 < u,
            ;
        }
        assert(product(c, u) == c);
        assert(secondary(hue, c) == c);
    }
}

} // verus!

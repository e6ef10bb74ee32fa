use random_gradient_generator::Binary32;

fn enc(x: f32) -> Binary32 {
    Binary32::from_bits(x.to_bits())
}

fn dec(x: Binary32) -> f32 {
    f32::from_bits(x.to_bits())
}

/// The result is the number that the hardware gives; all NaNs count as one,
/// and the two zeros as one.
fn same(got: Binary32, want: f32, what: &str) {
    if want.is_nan() {
        assert!(dec(got).is_nan(), "{what}: {:e} for a NaN", dec(got));
    } else {
        assert_eq!(dec(got), want, "{what}");
    }
}

/// A small generator of bit patterns, the same on every run.
struct Lcg(u64);

impl Lcg {
    fn next(&mut self) -> u32 {
        self.0 = self.0.wrapping_mul(6364136223846793005).wrapping_add(1442695040888963407);
        (self.0 >> 32) as u32
    }

    /// Any encoding.
    fn any(&mut self) -> f32 {
        f32::from_bits(self.next())
    }

    /// A number with an exponent near that of one.
    fn near_one(&mut self) -> f32 {
        let bits = self.next();
        let frac = bits & 0x007f_ffff;
        let exp = 100 + (bits >> 23) % 29;
        let sign = bits & 0x8000_0000;
        f32::from_bits(sign | (exp << 23) | frac)
    }

    /// A number with few bits set in its fraction, near one.
    fn sparse(&mut self) -> f32 {
        let bits = self.next();
        let frac = (1u32 << (bits % 23)) | (1u32 << ((bits >> 5) % 23)) | ((bits >> 10) & 1);
        let exp = 120 + (bits >> 23) % 9;
        let sign = bits & 0x8000_0000;
        f32::from_bits(sign | (exp << 23) | (frac & 0x007f_ffff))
    }
}

const SPECIAL: [u32; 22] = [
    0x0000_0000,
    0x8000_0000,
    0x0000_0001,
    0x8000_0001,
    0x007f_ffff,
    0x0080_0000,
    0x0080_0001,
    0x3380_0000,
    0x3f7f_ffff,
    0x3f80_0000,
    0xbf80_0000,
    0x3f80_0001,
    0x4000_0000,
    0x4270_0000,
    0x437f_0000,
    0x7f00_0000,
    0x7f7f_ffff,
    0xff7f_ffff,
    0x7f80_0000,
    0xff80_0000,
    0x7fc0_0000,
    0xffc0_0001,
];

#[test]
fn times_matches_hardware() {
    let mut g = Lcg(1);
    for _ in 0..200_000 {
        let (a, b) = (g.any(), g.any());
        same(enc(a).times(enc(b)), a * b, &format!("{a:e} * {b:e}"));
        let (a, b) = (g.near_one(), g.near_one());
        same(enc(a).times(enc(b)), a * b, &format!("{a:e} * {b:e}"));
        let (a, b) = (g.sparse(), g.sparse());
        same(enc(a).times(enc(b)), a * b, &format!("{a:e} * {b:e}"));
    }
    for a in SPECIAL.map(f32::from_bits) {
        for b in SPECIAL.map(f32::from_bits) {
            same(enc(a).times(enc(b)), a * b, &format!("{a:e} * {b:e}"));
        }
    }
}

#[test]
fn plus_and_minus_match_hardware() {
    let mut g = Lcg(2);
    for _ in 0..200_000 {
        for (a, b) in [(g.any(), g.any()), (g.near_one(), g.near_one()), (g.sparse(), g.sparse())] {
            same(enc(a).plus(enc(b)), a + b, &format!("{a:e} + {b:e}"));
            same(enc(a).minus(enc(b)), a - b, &format!("{a:e} - {b:e}"));
        }
    }
    for a in SPECIAL.map(f32::from_bits) {
        for b in SPECIAL.map(f32::from_bits) {
            same(enc(a).plus(enc(b)), a + b, &format!("{a:e} + {b:e}"));
            same(enc(a).minus(enc(b)), a - b, &format!("{a:e} - {b:e}"));
        }
    }
}

#[test]
fn plus_rounds_ties_to_even() {
    // 1 + 2^-24 lies half way between 1 and the next number: it goes to 1.
    let one = enc(1.0);
    let half_ulp = Binary32::from_bits(0x3380_0000);
    assert_eq!(one.plus(half_ulp).to_bits(), 0x3f80_0000);
    // 1 + 2^-23 + 2^-24 lies half way too: it goes up, to the even one.
    let odd = Binary32::from_bits(0x3f80_0001);
    assert_eq!(odd.plus(half_ulp).to_bits(), 0x3f80_0002);
    // 1 - 2^-26 is absorbed, 1 - 2^-25 is a tie and goes to 1 as well.
    assert_eq!(one.minus(Binary32::from_bits(0x3280_0000)).to_bits(), 0x3f80_0000);
    assert_eq!(one.minus(Binary32::from_bits(0x3300_0000)).to_bits(), 0x3f80_0000);
    // 1 - 2^-24 is a number of its own
    assert_eq!(one.minus(half_ulp).to_bits(), 0x3f7f_ffff);
}

#[test]
fn results_too_large_are_infinite() {
    let largest = Binary32::from_bits(0x7f7f_ffff);
    assert_eq!(largest.plus(largest).to_bits(), 0x7f80_0000);
    assert_eq!(largest.negated().minus(largest).to_bits(), 0xff80_0000);
    assert_eq!(largest.times(enc(2.0)).to_bits(), 0x7f80_0000);
    assert_eq!(largest.times(enc(-2.0)).to_bits(), 0xff80_0000);
    // half a last place more rounds up to the infinity, less does not
    assert_eq!(largest.plus(Binary32::from_bits(0x7300_0000)).to_bits(), 0x7f80_0000);
    assert_eq!(largest.plus(Binary32::from_bits(0x72ff_ffff)).to_bits(), 0x7f7f_ffff);
    assert_eq!(largest.times(enc(1.0)).to_bits(), 0x7f7f_ffff);
}

#[test]
fn results_too_small_are_subnormal_or_zero() {
    let least = Binary32::from_bits(1);
    assert_eq!(dec(least.times(enc(0.5))), 0.0);
    assert_eq!(least.times(enc(0.75)).to_bits(), 1);
    assert_eq!(least.times(enc(1.5)).to_bits(), 2);
    assert_eq!(least.times(enc(2.5)).to_bits(), 2);
    assert_eq!(enc(f32::MIN_POSITIVE).times(enc(0.5)).to_bits(), 0x0040_0000);
    assert_eq!(enc(f32::MIN_POSITIVE).minus(least).to_bits(), 0x007f_ffff);
}

#[test]
fn div_sixty_matches_hardware() {
    let mut g = Lcg(3);
    for _ in 0..200_000 {
        for a in [g.any(), g.near_one() * 64.0, g.sparse() * 60.0] {
            same(enc(a).div_sixty(), a / 60.0, &format!("{a:e} / 60"));
        }
    }
    for a in SPECIAL.map(f32::from_bits) {
        same(enc(a).div_sixty(), a / 60.0, &format!("{a:e} / 60"));
    }
    for bits in 0..70_000u32 {
        let a = f32::from_bits(bits);
        same(enc(a).div_sixty(), a / 60.0, &format!("{a:e} / 60"));
        let a = f32::from_bits(0x0280_0000 - bits);
        same(enc(a).div_sixty(), a / 60.0, &format!("{a:e} / 60"));
    }
    assert_eq!(dec(enc(120.0).div_sixty()), 2.0);
    assert_eq!(dec(enc(90.0).div_sixty()), 1.5);
    assert_eq!(dec(enc(0.0).div_sixty()), 0.0);
}

#[test]
fn rem_two_matches_hardware() {
    let mut g = Lcg(4);
    for _ in 0..200_000 {
        for a in [g.any(), g.near_one() * 4.0, g.sparse() * 16.0] {
            same(enc(a).rem_two(), a % 2.0, &format!("{a:e} % 2"));
        }
    }
    for a in SPECIAL.map(f32::from_bits) {
        same(enc(a).rem_two(), a % 2.0, &format!("{a:e} % 2"));
    }
    assert_eq!(dec(enc(5.5).rem_two()), 1.5);
    assert_eq!(dec(enc(-5.5).rem_two()), -1.5);
    assert_eq!(dec(enc(4.0).rem_two()), 0.0);
}

#[test]
fn to_byte_drops_the_fraction() {
    let mut g = Lcg(5);
    for _ in 0..200_000 {
        for a in [g.any(), g.near_one() * 128.0] {
            assert_eq!(enc(a).to_byte(), a as u8, "{a:e}");
        }
    }
    for a in SPECIAL.map(f32::from_bits) {
        assert_eq!(enc(a).to_byte(), a as u8, "{a:e}");
    }
    assert_eq!(enc(127.6).to_byte(), 127);
    assert_eq!(enc(255.999).to_byte(), 255);
    assert_eq!(enc(256.0).to_byte(), 255);
    assert_eq!(enc(-3.0).to_byte(), 0);
    assert_eq!(enc(0.999).to_byte(), 0);
    assert_eq!(enc(f32::NAN).to_byte(), 0);
    assert_eq!(enc(f32::INFINITY).to_byte(), 255);
    assert_eq!(enc(f32::NEG_INFINITY).to_byte(), 0);
}

#[test]
fn less_than_matches_hardware() {
    let mut g = Lcg(6);
    for _ in 0..200_000 {
        for (a, b) in [(g.any(), g.any()), (g.near_one(), g.near_one())] {
            assert_eq!(enc(a).less_than(enc(b)), a < b, "{a:e} < {b:e}");
            assert_eq!(enc(a).less_than(enc(a)), false);
        }
    }
    for a in SPECIAL.map(f32::from_bits) {
        for b in SPECIAL.map(f32::from_bits) {
            assert_eq!(enc(a).less_than(enc(b)), a < b, "{a:e} < {b:e}");
        }
    }
    assert!(!enc(-0.0).less_than(enc(0.0)));
    assert!(!enc(0.0).less_than(enc(-0.0)));
}

#[test]
fn classes_match_hardware() {
    let mut g = Lcg(7);
    let mut all: Vec<f32> = SPECIAL.map(f32::from_bits).to_vec();
    for _ in 0..100_000 {
        all.push(g.any());
    }
    for a in all {
        assert_eq!(enc(a).finite(), a.is_finite(), "{a:e}");
        assert_eq!(enc(a).infinite(), a.is_infinite(), "{a:e}");
        assert_eq!(enc(a).nan(), a.is_nan(), "{a:e}");
        assert_eq!(enc(a).zero(), a == 0.0, "{a:e}");
        assert_eq!(enc(a).is_sign_negative(), a.is_sign_negative(), "{a:e}");
        assert_eq!(enc(a).negated().to_bits(), (-a).to_bits(), "{a:e}");
        assert_eq!(enc(a).abs().to_bits(), a.abs().to_bits(), "{a:e}");
    }
}

#[test]
fn negated_and_abs_flip_and_clear_the_sign() {
    assert_eq!(dec(enc(1.5).negated()), -1.5);
    assert_eq!(dec(enc(-1.5).negated()), 1.5);
    assert_eq!(dec(enc(-1.5).abs()), 1.5);
    assert_eq!(dec(enc(1.5).abs()), 1.5);
    assert!(enc(-0.0).is_sign_negative());
    assert!(!enc(0.0).is_sign_negative());
}

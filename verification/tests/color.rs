use bmp::Pixel;
use random_gradient_generator::{hsv_to_rgb, Binary32, OutOfRangeValue};

fn enc(x: f32) -> Binary32 {
    Binary32::from_bits(x.to_bits())
}

fn convert(hue: f32, saturation: f32, brightness: f32) -> Result<Pixel, OutOfRangeValue> {
    hsv_to_rgb(enc(hue), enc(saturation), enc(brightness))
}

fn rgb(hue: f32, saturation: f32, brightness: f32) -> (u8, u8, u8) {
    let p = convert(hue, saturation, brightness).unwrap();
    (p.r, p.g, p.b)
}

/// The same formula on the floating-point unit of the machine.
fn on_hardware(hue: f32, saturation: f32, brightness: f32) -> Result<(u8, u8, u8), OutOfRangeValue> {
    if !(0.0..360.0).contains(&hue) {
        return Err(OutOfRangeValue::Hue);
    }
    if !(0.0..=1.0).contains(&saturation) {
        return Err(OutOfRangeValue::Saturation);
    }
    if !(0.0..=1.0).contains(&brightness) {
        return Err(OutOfRangeValue::Brightness);
    }
    let c = saturation * brightness;
    let x = c * (1.0 - ((hue / 60.0) % 2.0 - 1.0).abs());
    let m = brightness - c;
    let (r, g, b) = if hue < 60.0 {
        (c, x, 0.0)
    } else if hue < 120.0 {
        (x, c, 0.0)
    } else if hue < 180.0 {
        (0.0, c, x)
    } else if hue < 240.0 {
        (0.0, x, c)
    } else if hue < 300.0 {
        (x, 0.0, c)
    } else {
        (c, 0.0, x)
    };
    Ok((((r + m) * 255.0) as u8, ((g + m) * 255.0) as u8, ((b + m) * 255.0) as u8))
}

fn same_as_hardware(hue: f32, saturation: f32, brightness: f32) {
    let got = convert(hue, saturation, brightness).map(|p| (p.r, p.g, p.b));
    let want = on_hardware(hue, saturation, brightness);
    assert_eq!(got, want, "hsv({hue:e}, {saturation:e}, {brightness:e})");
}

struct Lcg(u64);

impl Lcg {
    fn next(&mut self) -> u32 {
        self.0 = self.0.wrapping_mul(6364136223846793005).wrapping_add(1442695040888963407);
        (self.0 >> 32) as u32
    }

    /// A number from 0 up to, but not with, 1.
    fn fraction(&mut self) -> f32 {
        (self.next() >> 8) as f32 / 16_777_216.0
    }
}

#[test]
fn black_primaries_and_white() {
    assert_eq!(rgb(0.0, 0.0, 0.0), (0, 0, 0));
    assert_eq!(rgb(0.0, 1.0, 1.0), (255, 0, 0));
    assert_eq!(rgb(120.0, 1.0, 1.0), (0, 255, 0));
    assert_eq!(rgb(240.0, 1.0, 1.0), (0, 0, 255));
    assert_eq!(rgb(0.0, 0.0, 1.0), (255, 255, 255));
}

#[test]
fn secondary_colours() {
    assert_eq!(rgb(60.0, 1.0, 1.0), (255, 255, 0));
    assert_eq!(rgb(180.0, 1.0, 1.0), (0, 255, 255));
    assert_eq!(rgb(300.0, 1.0, 1.0), (255, 0, 255));
    assert_eq!(rgb(30.0, 1.0, 1.0), (255, 127, 0));
    assert_eq!(rgb(210.0, 0.5, 0.8), (102, 153, 204));
}

#[test]
fn components_out_of_range() {
    assert_eq!(convert(360.0, 0.5, 0.5), Err(OutOfRangeValue::Hue));
    assert_eq!(convert(-1.0, 0.5, 0.5), Err(OutOfRangeValue::Hue));
    assert_eq!(convert(180.0, 1.5, 0.5), Err(OutOfRangeValue::Saturation));
    assert_eq!(convert(180.0, 0.5, -0.1), Err(OutOfRangeValue::Brightness));
    assert_eq!(convert(180.0, -0.1, 0.5), Err(OutOfRangeValue::Saturation));
    assert_eq!(convert(180.0, 0.5, 1.5), Err(OutOfRangeValue::Brightness));
}

#[test]
fn the_first_component_out_of_range_is_reported() {
    assert_eq!(convert(400.0, 2.0, 2.0), Err(OutOfRangeValue::Hue));
    assert_eq!(convert(10.0, 2.0, 2.0), Err(OutOfRangeValue::Saturation));
    assert_eq!(convert(10.0, 1.0, 2.0), Err(OutOfRangeValue::Brightness));
}

#[test]
fn ends_of_the_ranges() {
    assert!(convert(0.0, 0.0, 0.0).is_ok());
    assert!(convert(-0.0, -0.0, -0.0).is_ok());
    assert!(convert(359.99, 1.0, 1.0).is_ok());
    assert!(convert(f32::from_bits(0x43b3_ffff), 1.0, 1.0).is_ok());
    assert_eq!(convert(f32::from_bits(0x43b4_0000), 1.0, 1.0), Err(OutOfRangeValue::Hue));
    assert_eq!(convert(10.0, f32::from_bits(0x3f80_0001), 1.0), Err(OutOfRangeValue::Saturation));
    assert_eq!(convert(10.0, 1.0, f32::from_bits(0x3f80_0001)), Err(OutOfRangeValue::Brightness));
    assert_eq!(convert(-f32::MIN_POSITIVE, 1.0, 1.0), Err(OutOfRangeValue::Hue));
}

#[test]
fn nan_and_infinities_are_out_of_range() {
    assert_eq!(convert(f32::NAN, 0.5, 0.5), Err(OutOfRangeValue::Hue));
    assert_eq!(convert(f32::INFINITY, 0.5, 0.5), Err(OutOfRangeValue::Hue));
    assert_eq!(convert(f32::NEG_INFINITY, 0.5, 0.5), Err(OutOfRangeValue::Hue));
    assert_eq!(convert(10.0, f32::NAN, 0.5), Err(OutOfRangeValue::Saturation));
    assert_eq!(convert(10.0, f32::INFINITY, 0.5), Err(OutOfRangeValue::Saturation));
    assert_eq!(convert(10.0, 0.5, f32::NAN), Err(OutOfRangeValue::Brightness));
    assert_eq!(convert(10.0, 0.5, f32::NEG_INFINITY), Err(OutOfRangeValue::Brightness));
}

#[test]
fn every_triple_in_range_converts() {
    let mut g = Lcg(11);
    for _ in 0..100_000 {
        let (h, s, b) = (g.fraction() * 360.0, g.fraction(), g.fraction());
        if h < 360.0 {
            assert!(convert(h, s, b).is_ok(), "hsv({h:e}, {s:e}, {b:e})");
        }
    }
}

#[test]
fn channels_are_cut_not_rounded() {
    // grey of brightness 0.5004: 0.5004 * 255 = 127.602
    assert_eq!(rgb(0.0, 0.0, 0.5004), (127, 127, 127));
    // 0.5 * 255 = 127.5
    assert_eq!(rgb(0.0, 0.0, 0.5), (127, 127, 127));
    // 0.999 * 255 = 254.745
    assert_eq!(rgb(0.0, 0.0, 0.999), (254, 254, 254));
    // red of brightness 0.7: 178.5, and nothing in green and blue
    assert_eq!(rgb(0.0, 1.0, 0.7), (178, 0, 0));
}

#[test]
fn colours_meet_at_the_sextant_boundaries() {
    let close = |a: (u8, u8, u8), b: (u8, u8, u8)| {
        a.0.abs_diff(b.0) <= 1 && a.1.abs_diff(b.1) <= 1 && a.2.abs_diff(b.2) <= 1
    };
    for boundary in [60.0f32, 120.0, 180.0, 240.0, 300.0] {
        for (s, b) in [(1.0f32, 1.0f32), (0.5, 0.5), (0.3, 0.9), (1.0, 0.25), (0.0, 1.0)] {
            let below = rgb(boundary - 0.001, s, b);
            let at = rgb(boundary, s, b);
            assert!(close(below, at), "{boundary}: {below:?} and {at:?}");
        }
    }
    // the circle closes: just below 360 and at 0
    for (s, b) in [(1.0f32, 1.0f32), (0.5, 0.5), (0.3, 0.9)] {
        assert!(close(rgb(359.999, s, b), rgb(0.0, s, b)));
    }
    assert_eq!(rgb(59.999, 1.0, 1.0), (255, 254, 0));
    assert_eq!(rgb(60.0, 1.0, 1.0), (255, 255, 0));
}

#[test]
fn conversion_matches_hardware_on_random_triples() {
    let mut g = Lcg(12);
    for _ in 0..300_000 {
        same_as_hardware(g.fraction() * 360.0, g.fraction(), g.fraction());
    }
}

#[test]
fn conversion_matches_hardware_on_any_encodings() {
    let mut g = Lcg(13);
    for _ in 0..300_000 {
        let h = f32::from_bits(g.next());
        let s = f32::from_bits(g.next());
        let b = f32::from_bits(g.next());
        same_as_hardware(h, s, b);
        same_as_hardware(h.abs() % 360.0, g.fraction(), g.fraction());
        same_as_hardware(g.fraction() * 360.0, s.abs() % 1.0, g.fraction());
        same_as_hardware(g.fraction() * 360.0, g.fraction(), b.abs() % 1.0);
    }
}

#[test]
fn conversion_matches_hardware_on_a_grid() {
    let mut hue = 0.0f32;
    while hue < 360.0 {
        for si in 0..=20 {
            for bi in 0..=20 {
                same_as_hardware(hue, si as f32 / 20.0, bi as f32 / 20.0);
            }
        }
        hue += 0.37;
    }
}

#[test]
fn conversion_matches_hardware_on_tiny_values() {
    for bits in [0u32, 1, 2, 0x7f_ffff, 0x80_0000, 0x80_0001, 0x0100_0000, 0x3300_0000, 0x3380_0000] {
        let tiny = f32::from_bits(bits);
        for other in [0.0f32, 1.0, 0.5, 0.333_333_34, f32::from_bits(0x3f7f_ffff)] {
            same_as_hardware(tiny, other, other);
            same_as_hardware(60.0 + tiny, other, other);
            same_as_hardware(120.0, tiny, other);
            same_as_hardware(120.0, other, tiny);
            same_as_hardware(tiny, tiny, tiny);
        }
    }
}

#[test]
fn messages_name_the_ranges() {
    assert_eq!(OutOfRangeValue::Hue.message(), "Hue is out of range: 0 <= hue < 360");
    assert_eq!(
        OutOfRangeValue::Saturation.message(),
        "Saturation is out of range: 0 <= saturation <= 1"
    );
    assert_eq!(
        OutOfRangeValue::Brightness.message(),
        "Brightness is out of range: 0 <= brightness <= 1"
    );
}

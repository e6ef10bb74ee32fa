use random_gradient_generator::{
    generate_image, hsv_to_rgb, Binary32, ColorParameter, OutOfRangeValue, PixelInit, Size,
};
use simdnoise::NoiseBuilder;

fn enc(x: f32) -> Binary32 {
    Binary32::from_bits(x.to_bits())
}

fn dec(x: Binary32) -> f32 {
    f32::from_bits(x.to_bits())
}

/// The noise field of the size, scaled to the range of the driven component.
fn noise_for(size: Size, pixel_init: &PixelInit, seed: i32, frequency: f32) -> Vec<Binary32> {
    let (low, high) = pixel_init.valid_range();
    let mut settings = NoiseBuilder::gradient_2d(size.width as usize, size.height as usize);
    settings.with_freq(frequency).with_seed(seed);
    let field = settings.generate_scaled(dec(low), dec(high));
    field.into_iter().map(enc).collect()
}

fn hue_driven() -> PixelInit {
    PixelInit::Hue { saturation: enc(1.0), brightness: enc(1.0) }
}

#[test]
fn an_image_without_pixels_is_generated() {
    let empty: Vec<Binary32> = Vec::new();
    for init in [
        hue_driven(),
        PixelInit::Hue { saturation: enc(2.0), brightness: enc(0.5) },
        PixelInit::Saturation { hue: enc(400.0), brightness: enc(-1.0) },
        PixelInit::Brightness { hue: enc(f32::NAN), saturation: enc(0.5) },
    ] {
        let image = generate_image(Size { width: 0, height: 0 }, init, &empty).unwrap();
        assert_eq!((image.get_width(), image.get_height()), (0, 0));
        assert_eq!(image.coordinates().count(), 0);
        let image = generate_image(Size { width: 0, height: 7 }, init, &empty).unwrap();
        assert_eq!((image.get_width(), image.get_height()), (0, 7));
        let image = generate_image(Size { width: 7, height: 0 }, init, &empty).unwrap();
        assert_eq!((image.get_width(), image.get_height()), (7, 0));
    }
}

#[test]
fn an_empty_noise_field_from_the_generator_gives_an_empty_image() {
    let size = Size { width: 0, height: 0 };
    let init = hue_driven();
    let noise = noise_for(size, &init, 3, 0.1);
    assert_eq!(noise.len(), 0);
    assert!(generate_image(size, init, &noise).is_ok());
}

#[test]
fn every_pixel_has_the_colour_of_its_sample() {
    let size = Size { width: 3, height: 2 };
    let init = hue_driven();
    let hues = [0.0f32, 60.0, 120.0, 180.0, 240.0, 300.0];
    let noise: Vec<Binary32> = hues.iter().map(|h| enc(*h)).collect();
    let image = generate_image(size, init, &noise).unwrap();
    let got: Vec<(u8, u8, u8)> = [(0, 0), (1, 0), (2, 0), (0, 1), (1, 1), (2, 1)]
        .iter()
        .map(|&(x, y)| {
            let p = image.get_pixel(x, y);
            (p.r, p.g, p.b)
        })
        .collect();
    assert_eq!(
        got,
        vec![
            (255, 0, 0),
            (255, 255, 0),
            (0, 255, 0),
            (0, 255, 255),
            (0, 0, 255),
            (255, 0, 255)
        ]
    );
}

#[test]
fn the_driven_component_is_the_one_that_the_variant_names() {
    let size = Size { width: 2, height: 1 };
    let noise = vec![enc(0.0), enc(1.0)];
    let by_saturation =
        generate_image(size, PixelInit::Saturation { hue: enc(0.0), brightness: enc(1.0) }, &noise)
            .unwrap();
    let p = by_saturation.get_pixel(0, 0);
    assert_eq!((p.r, p.g, p.b), (255, 255, 255));
    let p = by_saturation.get_pixel(1, 0);
    assert_eq!((p.r, p.g, p.b), (255, 0, 0));
    let by_brightness =
        generate_image(size, PixelInit::Brightness { hue: enc(0.0), saturation: enc(1.0) }, &noise)
            .unwrap();
    let p = by_brightness.get_pixel(0, 0);
    assert_eq!((p.r, p.g, p.b), (0, 0, 0));
    let p = by_brightness.get_pixel(1, 0);
    assert_eq!((p.r, p.g, p.b), (255, 0, 0));
}

#[test]
fn pixels_follow_the_noise_of_the_generator() {
    let size = Size { width: 37, height: 23 };
    for init in [
        hue_driven(),
        PixelInit::Saturation { hue: enc(200.0), brightness: enc(0.8) },
        PixelInit::Brightness { hue: enc(20.0), saturation: enc(0.6) },
    ] {
        let noise = noise_for(size, &init, 42, 1.0 / 37.0);
        assert_eq!(noise.len(), 37 * 23);
        let image = generate_image(size, init, &noise).unwrap();
        assert_eq!((image.get_width(), image.get_height()), (37, 23));
        for y in 0..23u32 {
            for x in 0..37u32 {
                let sample = noise[(37 * y + x) as usize];
                let (h, s, b) = init.components(sample);
                let want = hsv_to_rgb(h, s, b).unwrap();
                assert_eq!(image.get_pixel(x, y), want, "at ({x}, {y})");
            }
        }
    }
}

#[test]
fn the_same_arguments_give_the_same_image() {
    let size = Size { width: 16, height: 9 };
    let init = hue_driven();
    let first_noise = noise_for(size, &init, 7, 0.05);
    let second_noise = noise_for(size, &init, 7, 0.05);
    assert_eq!(first_noise, second_noise);
    let first = generate_image(size, init, &first_noise).unwrap();
    let second = generate_image(size, init, &second_noise).unwrap();
    assert!(first == second);
    for (x, y) in first.coordinates() {
        assert_eq!(first.get_pixel(x, y), second.get_pixel(x, y));
    }
}

#[test]
fn a_fixed_saturation_out_of_range_fails_at_the_first_pixel() {
    let size = Size { width: 4, height: 4 };
    let init = PixelInit::Hue { saturation: enc(2.0), brightness: enc(0.5) };
    let noise = noise_for(size, &init, 1, 0.25);
    assert_eq!(generate_image(size, init, &noise).err(), Some(OutOfRangeValue::Saturation));
}

#[test]
fn the_first_failing_pixel_gives_the_error() {
    let size = Size { width: 2, height: 2 };
    // the third sample is no hue; the fixed brightness is out of range too,
    // but the first two pixels report it before
    let noise = vec![enc(10.0), enc(20.0), enc(400.0), enc(30.0)];
    let init = PixelInit::Hue { saturation: enc(1.0), brightness: enc(3.0) };
    assert_eq!(generate_image(size, init, &noise).err(), Some(OutOfRangeValue::Brightness));
    let init = hue_driven();
    assert_eq!(generate_image(size, init, &noise).err(), Some(OutOfRangeValue::Hue));
    let noise = vec![enc(0.5), enc(0.5), enc(0.5), enc(1.5)];
    let init = PixelInit::Saturation { hue: enc(10.0), brightness: enc(1.0) };
    assert_eq!(generate_image(size, init, &noise).err(), Some(OutOfRangeValue::Saturation));
    let init = PixelInit::Brightness { hue: enc(10.0), saturation: enc(1.0) };
    assert_eq!(generate_image(size, init, &noise).err(), Some(OutOfRangeValue::Brightness));
}

#[test]
fn ranges_of_the_driven_components() {
    let (low, high) = hue_driven().valid_range();
    assert_eq!((dec(low), dec(high)), (0.0, 359.99));
    let (low, high) =
        PixelInit::Saturation { hue: enc(0.0), brightness: enc(0.0) }.valid_range();
    assert_eq!((dec(low), dec(high)), (0.0, 1.0));
    let (low, high) =
        PixelInit::Brightness { hue: enc(0.0), saturation: enc(0.0) }.valid_range();
    assert_eq!((dec(low), dec(high)), (0.0, 1.0));
}

#[test]
fn exactly_one_component_is_driven() {
    let (h, s, b) = (enc(10.0), enc(0.5), enc(0.25));
    let fixed = ColorParameter::Fixed;
    let random = ColorParameter::Random;
    assert_eq!(
        PixelInit::from_parameters(random, fixed(s), fixed(b)),
        Some(PixelInit::Hue { saturation: s, brightness: b })
    );
    assert_eq!(
        PixelInit::from_parameters(fixed(h), random, fixed(b)),
        Some(PixelInit::Saturation { hue: h, brightness: b })
    );
    assert_eq!(
        PixelInit::from_parameters(fixed(h), fixed(s), random),
        Some(PixelInit::Brightness { hue: h, saturation: s })
    );
    assert_eq!(PixelInit::from_parameters(fixed(h), fixed(s), fixed(b)), None);
    assert_eq!(PixelInit::from_parameters(random, random, fixed(b)), None);
    assert_eq!(PixelInit::from_parameters(random, fixed(s), random), None);
    assert_eq!(PixelInit::from_parameters(fixed(h), random, random), None);
    assert_eq!(PixelInit::from_parameters(random, random, random), None);
    assert_eq!(ColorParameter::default(), ColorParameter::Random);
}

#[test]
fn components_put_the_sample_in_its_place() {
    let (a, b, n) = (enc(0.25), enc(0.75), enc(0.5));
    assert_eq!(PixelInit::Hue { saturation: a, brightness: b }.components(n), (n, a, b));
    assert_eq!(PixelInit::Saturation { hue: a, brightness: b }.components(n), (a, n, b));
    assert_eq!(PixelInit::Brightness { hue: a, saturation: b }.components(n), (a, b, n));
}

//! Synthesis of an image from a noise field.
use vstd::prelude::*;
use bmp::Image;
use crate::binary32::Binary32;
use crate::canvas::{image_pixels, image_size};
use crate::color::{conversion, fraction_in_range, hsv_to_rgb, hue_in_range, OutOfRangeValue};
use crate::pixel_init::PixelInit;
use crate::size::Size;

verus! {

/// What the conversion gives for the pixel whose noise sample is `sample`.
pub open spec fn pixel_outcome(pixel_init: PixelInit, sample: Binary32) -> Result<
    (u8, u8, u8),
    OutOfRangeValue,
> {
    let (hue, saturation, brightness) = pixel_init.spec_components(sample);
    conversion(hue, saturation, brightness)
}

/// The place of the pixel `(x, y)` in a field of rows of `width` samples.
pub open spec fn row_major(width: u32, at: (u32, u32)) -> int {
    width * at.1 + at.0
}

/// The pixels of the finished image: at each coordinate the colour that
/// the sample of that place gives.
pub open spec fn synthesized(size: Size, pixel_init: PixelInit, noise: Seq<Binary32>) -> Map<
    (u32, u32),
    (u8, u8, u8),
> {
    Map::new(
        |at: (u32, u32)| at.0 < size.width && at.1 < size.height,
        |at: (u32, u32)| pixel_outcome(pixel_init, noise[row_major(size.width, at)])->Ok_0,
    )
}

/// The sample at `i` is the first, in row-major order, whose pixel cannot be
/// converted.
pub open spec fn first_failure(pixel_init: PixelInit, noise: Seq<Binary32>, i: int) -> bool {
    &&& 0 <= i < noise.len()
    &&& pixel_outcome(pixel_init, noise[i]) is Err
    &&& forall|j: int| 0 <= j < i ==> pixel_outcome(pixel_init, #[trigger] noise[j]) is Ok
}

/// What `generate_image` returns on a size, a choice of components and a
/// noise field: the relation between its arguments and its result.
pub open spec fn generated(
    size: Size,
    pixel_init: PixelInit,
    noise: Seq<Binary32>,
    res: Result<Image, OutOfRangeValue>,
) -> bool {
    match res {
        Ok(img) => {
            &&& forall|i: int|
                0 <= i < noise.len() ==> pixel_outcome(pixel_init, #[trigger] noise[i]) is Ok
            &&& image_size(img) == (size.width, size.height)
            &&& image_pixels(img) == synthesized(size, pixel_init, noise)
        },
        Err(e) => exists|i: int|
            #[trigger] first_failure(pixel_init, noise, i) && pixel_outcome(pixel_init, noise[i])
                == Err::<(u8, u8, u8), OutOfRangeValue>(e),
    }
}

/// Generates the image of the given size whose pixel `(x, y)` has the colour
/// that `pixel_init` and the noise sample at `width * y + x` give.
///
/// The pixels are converted in row-major order. The first that cannot be
/// converted ends the work with its error, and no image is returned.
///
/// The noise field has to hold one sample for each pixel, and the size has
/// to be one that `Size::can_be_encoded` accepts.
pub fn generate_image(size: Size, pixel_init: PixelInit, noise: &Vec<Binary32>) -> (res: Result<
    Image,
    OutOfRangeValue,
>)
    requires
        size.is_encodable(),
        noise@.len() == size.width * size.height,
    ensures
        generated(size, pixel_init, noise@, res),
        size.width == 0 || size.height == 0 ==> res is Ok,
{
    let width: u32 = size.width;
    let height: u32 = size.height;
    assert(width * height <= u32::MAX) by (nonlinear_arith)
        requires
            (height + 1) * (4 * width + 4) + 54 <= u32::MAX,
    ;
    let mut image = Image::new(width, height);
    let mut i: usize = 0;
    let mut y: u32 = 0;
    while y < height
        invariant
            y <= height,
            width == size.width,
            height == size.height,
            noise@.len() == width * height,
            width * height <= u32::MAX,
            i == width * y,
            image_size(image) == (width, height),
            image_pixels(image).dom() =~= synthesized(size, pixel_init, noise@).dom(),
            forall|j: int| 0 <= j < i ==> pixel_outcome(pixel_init, #[trigger] noise@[j]) is Ok,
            forall|at: (u32, u32)|
                at.0 < width && at.1 < y ==> #[trigger] image_pixels(image)[at] == synthesized(
                    size,
                    pixel_init,
                    noise@,
                )[at],
        decreases height - y,
    {
        let mut x: u32 = 0;
        while x < width
            invariant
                x <= width,
                y < height,
                width == size.width,
                height == size.height,
                noise@.len() == width * height,
                width * height <= u32::MAX,
                i == width * y + x,
                image_size(image) == (width, height),
                image_pixels(image).dom() =~= synthesized(size, pixel_init, noise@).dom(),
                forall|j: int|
                    0 <= j < i ==> pixel_outcome(pixel_init, #[trigger] noise@[j]) is Ok,
                forall|at: (u32, u32)|
                    at.0 < width && (at.1 < y || (at.1 == y && at.0 < x))
                        ==> #[trigger] image_pixels(image)[at] == synthesized(
                        size,
                        pixel_init,
                        noise@,
                    )[at],
            decreases width - x,
        {
            assert(width * y + x < width * height) by (nonlinear_arith)
                requires
                    x < width,
                    y < height,
            ;
            let sample: Binary32 = noise[i];
            let (hue, saturation, brightness) = pixel_init.components(sample);
            match hsv_to_rgb(hue, saturation, brightness) {
                Ok(px) => {
                    image.set_pixel(x, y, px);
                },
                Err(e) => {
                    assert(first_failure(pixel_init, noise@, i as int));
                    return Err(e);
                },
            }
            x = x + 1;
            i = i + 1;
        }
        assert(width * y + width == width * (y + 1)) by (nonlinear_arith);
        y = y + 1;
    }
    assert(i == noise@.len());
    assert(image_pixels(image) =~= synthesized(size, pixel_init, noise@));
    Ok(image)
}

/// The same size, choice of components and noise field give the same
/// outcome: two results of `generate_image` on them are both images, of one
/// size and with the same pixels, or both the same error.
pub proof fn lemma_generation_is_deterministic(
    size: Size,
    pixel_init: PixelInit,
    noise: Seq<Binary32>,
    first: Result<Image, OutOfRangeValue>,
    second: Result<Image, OutOfRangeValue>,
)
    requires
        generated(size, pixel_init, noise, first),
        generated(size, pixel_init, noise, second),
    ensures
        first is Ok <==> second is Ok,
        first is Ok ==> image_size(first->Ok_0) == image_size(second->Ok_0) && image_pixels(
            first->Ok_0,
        ) == image_pixels(second->Ok_0),
        first is Err ==> first->Err_0 == second->Err_0,
{
    if first is Err {
        let i = choose|i: int|
            #[trigger] first_failure(pixel_init, noise, i) && pixel_outcome(pixel_init, noise[i])
                == Err::<(u8, u8, u8), OutOfRangeValue>(first->Err_0);
        assert(pixel_outcome(pixel_init, noise[i]) is Err);
        if second is Err {
            let j = choose|j: int|
                #[trigger] first_failure(pixel_init, noise, j) && pixel_outcome(
                    pixel_init,
                    noise[j],
                ) == Err::<(u8, u8, u8), OutOfRangeValue>(second->Err_0);
            if i < j {
                assert(pixel_outcome(pixel_init, noise[i]) is Ok);
            } else if j < i {
                assert(pixel_outcome(pixel_init, noise[j]) is Ok);
            }
        }
    } else if second is Err {
        let j = choose|j: int|
            #[trigger] first_failure(pixel_init, noise, j) && pixel_outcome(pixel_init, noise[j])
                == Err::<(u8, u8, u8), OutOfRangeValue>(second->Err_0);
        assert(pixel_outcome(pixel_init, noise[j]) is Err);
    }
}

/// Where the noise drives the hue and the fixed saturation is out of range,
/// an image with at least one pixel is not generated: the first pixel ends
/// the work, with the saturation's error where its own hue is in range.
pub proof fn lemma_fixed_saturation_out_of_range(
    size: Size,
    saturation: Binary32,
    brightness: Binary32,
    noise: Seq<Binary32>,
    res: Result<Image, OutOfRangeValue>,
)
    requires
        !fraction_in_range(saturation),
        noise.len() > 0,
        generated(size, PixelInit::Hue { saturation, brightness }, noise, res),
    ensures
        res is Err,
        hue_in_range(noise[0]) ==> res->Err_0 == OutOfRangeValue::Saturation,
        !hue_in_range(noise[0]) ==> res->Err_0 == OutOfRangeValue::Hue,
{
    let pixel_init = PixelInit::Hue { saturation, brightness };
    assert(pixel_outcome(pixel_init, noise[0]) is Err);
    if res is Err {
        let i = choose|i: int|
            #[trigger] first_failure(pixel_init, noise, i) && pixel_outcome(pixel_init, noise[i])
                == Err::<(u8, u8, u8), OutOfRangeValue>(res->Err_0);
        if i > 0 {
            assert(pixel_outcome(pixel_init, noise[0]) is Ok);
        }
    }
}

/// An image of no width or no height is generated whatever the components
/// are, and it has no pixel.
pub proof fn lemma_empty_image(
    size: Size,
    pixel_init: PixelInit,
    noise: Seq<Binary32>,
    res: Result<Image, OutOfRangeValue>,
)
    requires
        size.width == 0 || size.height == 0,
        noise.len() == size.width * size.height,
        generated(size, pixel_init, noise, res),
    ensures
        res is Ok,
        image_size(res->Ok_0) == (size.width, size.height),
        image_pixels(res->Ok_0).dom() =~= Set::<(u32, u32)>::empty(),
{
    assert(size.width * size.height == 0) by (nonlinear_arith)
        requires
            size.width == 0 || size.height == 0,
    ;
    if res is Err {
        let i = choose|i: int|
            #[trigger] first_failure(pixel_init, noise, i) && pixel_outcome(pixel_init, noise[i])
                == Err::<(u8, u8, u8), OutOfRangeValue>(res->Err_0);
        assert(false);
    }
}

} // verus!

//! The pixel and image types of the `bmp` crate, as far as this library
//! relies on them. Nothing in this file is proved: each contract states what
//! the source of `bmp` shows.
use vstd::prelude::*;

verus! {

/// `bmp::Pixel`: three colour channels of a byte each.
#[verifier::external_type_specification]
#[verifier::external_body]
pub struct ExPixel(bmp::Pixel);

/// `bmp::Image`: a grid of pixels with its BMP headers.
#[verifier::external_type_specification]
#[verifier::external_body]
pub struct ExImage(bmp::Image);

/// The channels of a pixel: its fields `r`, `g` and `b`, in this order.
pub uninterp spec fn pixel_channels(p: bmp::Pixel) -> (u8, u8, u8);

/// Width and height of an image, as `get_width` and `get_height` give them.
pub uninterp spec fn image_size(img: bmp::Image) -> (u32, u32);

/// The channels of the pixel that `get_pixel` gives at each coordinate
/// `(x, y)` inside the image; `(0, 0)` is the upper left corner.
pub uninterp spec fn image_pixels(img: bmp::Image) -> Map<(u32, u32), (u8, u8, u8)>;

/// Whether the headers of an image of this size can be made: the size of the
/// encoded file, and each product on the way to it, has to fit thirty-two
/// bits. A row of `width` pixels takes at most `4 * width + 4` bytes.
pub open spec fn encodable(width: u32, height: u32) -> bool {
    (height + 1) * (4 * width + 4) + 54 <= u32::MAX
}

/// `bmp::Pixel::new` stores its three arguments in the fields `r`, `g`, `b`.
pub assume_specification[ bmp::Pixel::new ](r: u8, g: u8, b: u8) -> (p: bmp::Pixel)
    ensures
        pixel_channels(p) == (r, g, b),
;

/// `bmp::Image::new` makes an image of the given size with every pixel
/// black. It multiplies its arguments, and the row size by the height, in
/// thirty-two bits; `encodable` keeps those products in range.
pub assume_specification[ bmp::Image::new ](width: u32, height: u32) -> (img: bmp::Image)
    requires
        encodable(width, height),
    ensures
        image_size(img) == (width, height),
        image_pixels(img) == Map::new(
            |at: (u32, u32)| at.0 < width && at.1 < height,
            |at: (u32, u32)| (0u8, 0u8, 0u8),
        ),
;

/// `bmp::Image::set_pixel` overwrites the pixel at `(x, y)` and leaves the
/// size and the other pixels as they are. It indexes its buffer with
/// `(height - y - 1) * width + x`, which is in range inside the image.
pub assume_specification[ bmp::Image::set_pixel ](
    img: &mut bmp::Image,
    x: u32,
    y: u32,
    val: bmp::Pixel,
)
    requires
        x < image_size(*old(img)).0,
        y < image_size(*old(img)).1,
    ensures
        image_size(*final(img)) == image_size(*old(img)),
        image_pixels(*final(img)) == image_pixels(*old(img)).insert((x, y), pixel_channels(val)),
;

} // verus!

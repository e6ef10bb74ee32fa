//! Gradient images from a coherent noise field.
//!
//! Each pixel takes one of its three HSV components from a noise sample and
//! the other two from fixed values; the triple is then turned into RGB. All
//! numbers are IEEE-754 binary32 values held by their encodings, and the
//! arithmetic on them is carried out on integers, so that every pixel is
//! determined bit for bit.
//!
//! - [`binary32`]: the encoding and the exact value of a number.
//! - [`rounding`]: rounding of exact results to the nearest number.
//! - [`arith`]: the operations that the conversion of a colour needs.
//! - [`color`]: [`hsv_to_rgb`].
//! - [`pixel_init`]: which component the noise drives.
//! - [`image`]: [`generate_image`].
//! - [`canvas`]: what is relied on of the pixel and image types of `bmp`.
//! - [`size`]: the size of an image and its text form.
pub mod binary32;
pub mod rounding;
pub mod arith;
pub mod canvas;
pub mod color;
pub mod image;
pub mod pixel_init;
pub mod size;

pub use binary32::Binary32;
pub use color::{hsv_to_rgb, OutOfRangeValue};
pub use image::generate_image;
pub use pixel_init::{ColorParameter, PixelInit};
pub use size::{ParseSizeError, Size};

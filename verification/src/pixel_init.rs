//! Which component of a colour the noise drives, and the two that are fixed.
use vstd::prelude::*;
use vstd::arithmetic::power2::*;
use crate::arith::unit;
use crate::binary32::Binary32;
use crate::color::{fraction_in_range, hue_in_range, lemma_whole_number};

verus! {

/// The encoding of 359.99, the largest hue that the noise is scaled to.
pub const LARGEST_HUE: u32 = 0x43b3_feb8;

/// The encoding of 1.
pub const ONE: u32 = 0x3f80_0000;

/// One component of a colour as a caller gives it: a value, or the request
/// to take it from the noise.
#[derive(Debug, Default, Clone, Copy, PartialEq, Eq, Structural)]
pub enum ColorParameter {
    /// The component has this value in every pixel.
    Fixed(Binary32),
    /// The component is taken from the noise.
    #[default]
    Random,
}

/// The two fixed components of the pixel colours; the variant names the
/// third, which the noise drives. Two values are equal where their encodings
/// are.
#[derive(Debug, Clone, Copy, PartialEq, Eq, Structural)]
pub enum PixelInit {
    /// The noise drives the hue.
    Hue { saturation: Binary32, brightness: Binary32 },
    /// The noise drives the saturation.
    Saturation { hue: Binary32, brightness: Binary32 },
    /// The noise drives the brightness.
    Brightness { hue: Binary32, saturation: Binary32 },
}

impl PixelInit {
    /// The choice that three parameters make, where exactly one of them is
    /// `Random`.
    pub open spec fn spec_from_parameters(
        hue: ColorParameter,
        saturation: ColorParameter,
        brightness: ColorParameter,
    ) -> Option<PixelInit> {
        match (hue, saturation, brightness) {
            (ColorParameter::Random, ColorParameter::Fixed(s), ColorParameter::Fixed(b)) => Some(
                PixelInit::Hue { saturation: s, brightness: b },
            ),
            (ColorParameter::Fixed(h), ColorParameter::Random, ColorParameter::Fixed(b)) => Some(
                PixelInit::Saturation { hue: h, brightness: b },
            ),
            (ColorParameter::Fixed(h), ColorParameter::Fixed(s), ColorParameter::Random) => Some(
                PixelInit::Brightness { hue: h, saturation: s },
            ),
            _ => None,
        }
    }

    /// Makes the choice from three parameters of which exactly one is
    /// `Random`; with none or more than one there is no choice to make.
    pub fn from_parameters(
        hue: ColorParameter,
        saturation: ColorParameter,
        brightness: ColorParameter,
    ) -> (r: Option<PixelInit>)
        ensures
            r == PixelInit::spec_from_parameters(hue, saturation, brightness),
            r is Some <==> (if hue is Random {
                1int
            } else {
                0int
            }) + (if saturation is Random {
                1int
            } else {
                0int
            }) + (if brightness is Random {
                1int
            } else {
                0int
            }) == 1,
    {
        match (hue, saturation, brightness) {
            (ColorParameter::Random, ColorParameter::Fixed(s), ColorParameter::Fixed(b)) => Some(
                PixelInit::Hue { saturation: s, brightness: b },
            ),
            (ColorParameter::Fixed(h), ColorParameter::Random, ColorParameter::Fixed(b)) => Some(
                PixelInit::Saturation { hue: h, brightness: b },
            ),
            (ColorParameter::Fixed(h), ColorParameter::Fixed(s), ColorParameter::Random) => Some(
                PixelInit::Brightness { hue: h, saturation: s },
            ),
            _ => None,
        }
    }

    /// The ends of the range that the noise is scaled to.
    pub open spec fn spec_valid_range(self) -> (Binary32, Binary32) {
        match self {
            PixelInit::Hue { .. } => (Binary32 { bits: 0 }, Binary32 { bits: LARGEST_HUE }),
            PixelInit::Saturation { .. } => (Binary32 { bits: 0 }, Binary32 { bits: ONE }),
            PixelInit::Brightness { .. } => (Binary32 { bits: 0 }, Binary32 { bits: ONE }),
        }
    }

    /// The ends of the range that the noise is scaled to, both included: 0
    /// to 359.99 for the hue, 0 to 1 for the saturation and the brightness.
    /// Both ends are valid values of the component.
    pub fn valid_range(&self) -> (r: (Binary32, Binary32))
        ensures
            r == self.spec_valid_range(),
            self is Hue ==> hue_in_range(r.0) && hue_in_range(r.1),
            !(self is Hue) ==> fraction_in_range(r.0) && fraction_in_range(r.1),
            r.0.scaled() == 0,
            !(self is Hue) ==> r.1.scaled() == unit(),
    {
        proof {
            lemma_range_ends();
        }
        match self {
            PixelInit::Hue { .. } => (Binary32 { bits: 0 }, Binary32 { bits: LARGEST_HUE }),
            PixelInit::Saturation { .. } => (Binary32 { bits: 0 }, Binary32 { bits: ONE }),
            PixelInit::Brightness { .. } => (Binary32 { bits: 0 }, Binary32 { bits: ONE }),
        }
    }

    /// Hue, saturation and brightness of a pixel whose noise sample is
    /// `sample`.
    pub open spec fn spec_components(self, sample: Binary32) -> (Binary32, Binary32, Binary32) {
        match self {
            PixelInit::Hue { saturation, brightness } => (sample, saturation, brightness),
            PixelInit::Saturation { hue, brightness } => (hue, sample, brightness),
            PixelInit::Brightness { hue, saturation } => (hue, saturation, sample),
        }
    }

    /// Hue, saturation and brightness of a pixel: the sample in the place of
    /// the driven component, beside the two fixed ones.
    pub fn components(&self, sample: Binary32) -> (r: (Binary32, Binary32, Binary32))
        ensures
            r == self.spec_components(sample),
    {
        match self {
            PixelInit::Hue { saturation, brightness } => (sample, *saturation, *brightness),
            PixelInit::Saturation { hue, brightness } => (*hue, sample, *brightness),
            PixelInit::Brightness { hue, saturation } => (*hue, *saturation, sample),
        }
    }
}

/// The values of the three encodings that `valid_range` returns: 0, 1, and a
/// hue below 360.
pub proof fn lemma_range_ends()
    ensures
        (Binary32 { bits: 0 }).is_finite(),
        (Binary32 { bits: 0 }).scaled() == 0,
        (Binary32 { bits: ONE }).is_finite(),
        (Binary32 { bits: ONE }).scaled() == unit(),
        hue_in_range(Binary32 { bits: LARGEST_HUE }),
        hue_in_range(Binary32 { bits: 0 }),
        fraction_in_range(Binary32 { bits: 0 }),
        fraction_in_range(Binary32 { bits: ONE }),
{
    lemma2_to64();
    lemma_pow2_pos(149);
    let zero = Binary32 { bits: 0 };
    assert(zero.significand() == 0 && zero.exponent() == 0);
    assert(zero.magnitude() == 0) by (nonlinear_arith)
        requires
            zero.magnitude() == 0 * pow2(0),
    ;
    let one = Binary32 { bits: ONE };
    assert(one.significand() == 1 * pow2(23) && one.exponent() == 126);
    lemma_whole_number(1, 23, 126);
    assert(one.magnitude() == (1 * pow2(23)) * pow2(126));
    assert((1 * pow2(0)) * unit() == unit()) by (nonlinear_arith)
        requires
            pow2(0) == 1,
    ;
    assert(one.scaled() == unit());
    let top = Binary32 { bits: LARGEST_HUE };
    assert(top.significand() == 0xb3_feb8 && top.exponent() == 134);
    // 360 has the significand 0xb4_0000 at the same exponent
    lemma_whole_number(45, 18, 134);
    lemma_pow2_pos(134);
    assert(0 <= 0xb3_feb8 * pow2(134) < (45 * pow2(18)) * pow2(134)) by (nonlinear_arith)
        requires
            pow2(18) == 0x4_0000,
            pow2(134) > 0,
    ;
    assert(45 * pow2(3) == 360);
}

} // verus!

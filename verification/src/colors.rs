//! Color types and bit depths of the PNG image header, with the arithmetic
//! that connects them to scanline geometry.

use vstd::prelude::*;

verus! {

/// The five PNG color types.
#[derive(Clone, Copy, PartialEq, Eq, Structural, Debug, Hash)]
pub enum ColorType {
    Grayscale,
    RGB,
    Indexed,
    GrayscaleAlpha,
    RGBA,
}

impl ColorType {
    /// Samples per pixel for this color type.
    pub open spec fn spec_channels(self) -> nat {
        match self {
            ColorType::Grayscale => 1,
            ColorType::RGB => 3,
            ColorType::Indexed => 1,
            ColorType::GrayscaleAlpha => 2,
            ColorType::RGBA => 4,
        }
    }

    pub fn channels(self) -> (r: u8)
        ensures
            r as nat == self.spec_channels(),
    {
        match self {
            ColorType::Grayscale => 1,
            ColorType::RGB => 3,
            ColorType::Indexed => 1,
            ColorType::GrayscaleAlpha => 2,
            ColorType::RGBA => 4,
        }
    }

    /// The code stored in the IHDR chunk for this color type.
    pub open spec fn spec_png_code(self) -> u8 {
        match self {
            ColorType::Grayscale => 0,
            ColorType::RGB => 2,
            ColorType::Indexed => 3,
            ColorType::GrayscaleAlpha => 4,
            ColorType::RGBA => 6,
        }
    }

    pub fn png_code(self) -> (r: u8)
        ensures
            r == self.spec_png_code(),
    {
        match self {
            ColorType::Grayscale => 0,
            ColorType::RGB => 2,
            ColorType::Indexed => 3,
            ColorType::GrayscaleAlpha => 4,
            ColorType::RGBA => 6,
        }
    }

    pub fn from_png_code(code: u8) -> (r: Option<ColorType>)
        ensures
            match r {
                Some(ct) => ct.spec_png_code() == code,
                None => forall|ct: ColorType| ct.spec_png_code() != code,
            },
    {
        match code {
            0 => Some(ColorType::Grayscale),
            2 => Some(ColorType::RGB),
            3 => Some(ColorType::Indexed),
            4 => Some(ColorType::GrayscaleAlpha),
            6 => Some(ColorType::RGBA),
            _ => None,
        }
    }

    /// Whether pixels of this color type carry an alpha sample.
    pub open spec fn has_alpha(self) -> bool {
        match self {
            ColorType::GrayscaleAlpha | ColorType::RGBA => true,
            _ => false,
        }
    }
}

/// The five legal PNG bit depths.
#[derive(Clone, Copy, PartialEq, Eq, Structural, Debug, Hash)]
pub enum BitDepth {
    One,
    Two,
    Four,
    Eight,
    Sixteen,
}

impl BitDepth {
    pub open spec fn spec_bits(self) -> nat {
        match self {
            BitDepth::One => 1,
            BitDepth::Two => 2,
            BitDepth::Four => 4,
            BitDepth::Eight => 8,
            BitDepth::Sixteen => 16,
        }
    }

    pub fn as_u8(self) -> (r: u8)
        ensures
            r as nat == self.spec_bits(),
    {
        match self {
            BitDepth::One => 1,
            BitDepth::Two => 2,
            BitDepth::Four => 4,
            BitDepth::Eight => 8,
            BitDepth::Sixteen => 16,
        }
    }

    pub fn from_u8(bits: u8) -> (r: Option<BitDepth>)
        ensures
            match r {
                Some(d) => d.spec_bits() == bits as nat,
                None => forall|d: BitDepth| d.spec_bits() != bits as nat,
            },
    {
        match bits {
            1 => Some(BitDepth::One),
            2 => Some(BitDepth::Two),
            4 => Some(BitDepth::Four),
            8 => Some(BitDepth::Eight),
            16 => Some(BitDepth::Sixteen),
            _ => None,
        }
    }

    /// The largest sample value representable at this depth.
    pub open spec fn spec_max_sample(self) -> nat {
        match self {
            BitDepth::One => 1,
            BitDepth::Two => 3,
            BitDepth::Four => 15,
            BitDepth::Eight => 255,
            BitDepth::Sixteen => 65535,
        }
    }
}

/// Whether a PNG header may combine this color type and bit depth.
/// Grayscale admits all depths; RGB, RGBA and GrayscaleAlpha admit 8 and 16;
/// Indexed admits 1, 2, 4 and 8.
pub open spec fn spec_valid_depth(ct: ColorType, d: BitDepth) -> bool {
    match ct {
        ColorType::Grayscale => true,
        ColorType::RGB | ColorType::RGBA | ColorType::GrayscaleAlpha => d == BitDepth::Eight
            || d == BitDepth::Sixteen,
        ColorType::Indexed => d != BitDepth::Sixteen,
    }
}

pub fn valid_depth(ct: ColorType, d: BitDepth) -> (r: bool)
    ensures
        r == spec_valid_depth(ct, d),
{
    match ct {
        ColorType::Grayscale => true,
        ColorType::RGB | ColorType::RGBA | ColorType::GrayscaleAlpha => matches!(d, BitDepth::Eight
            | BitDepth::Sixteen),
        ColorType::Indexed => !matches!(d, BitDepth::Sixteen),
    }
}

/// An RGBA color, as one palette entry or one expanded pixel.
#[derive(Clone, Copy, PartialEq, Eq, Structural, Debug, Hash)]
pub struct Rgba {
    pub r: u8,
    pub g: u8,
    pub b: u8,
    pub a: u8,
}

impl Rgba {
    pub open spec fn is_opaque(self) -> bool {
        self.a == 255
    }

    pub open spec fn is_transparent(self) -> bool {
        self.a == 0
    }

    pub open spec fn is_gray(self) -> bool {
        self.r == self.g && self.g == self.b
    }

    pub fn new(r: u8, g: u8, b: u8, a: u8) -> (c: Rgba)
        ensures
            c == (Rgba { r, g, b, a }),
    {
        Rgba { r, g, b, a }
    }
}

} // verus!

//! The pixel record and its brightness estimate.

use vstd::prelude::*;

verus! {

/// One decoded pixel: three color channels and its position in the image,
/// with `x` growing along a row and `y` down the rows.
#[derive(Clone, Copy, PartialEq, Eq, Structural, Debug)]
pub struct Pixel {
    pub r: u8,
    pub g: u8,
    pub b: u8,
    pub x: i32,
    pub y: i32,
}

/// Weighted brightness of a pixel, in fixed point scaled by 10_000:
/// the red, green and blue weights are 2126, 7152 and 722, so the
/// result ranges from 0 (black) to 2_550_000 (white).
pub open spec fn spec_luminance(p: Pixel) -> int {
    2126 * p.r + 7152 * p.g + 722 * p.b
}

/// Computes the fixed-point luminance of a pixel.
pub fn luminance(p: &Pixel) -> (l: u32)
    ensures
        l == spec_luminance(*p),
{
    2126 * (p.r as u32) + 7152 * (p.g as u32) + 722 * (p.b as u32)
}

} // verus!

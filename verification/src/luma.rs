//! Integer luminance of an RGB triple.

use vstd::prelude::*;

verus! {

/// Weight of the red channel, in 256ths.
pub const RED_WEIGHT: u32 = 76;

/// Weight of the green channel, in 256ths.
pub const GREEN_WEIGHT: u32 = 150;

/// Weight of the blue channel, in 256ths.
pub const BLUE_WEIGHT: u32 = 30;

/// The luminance bucket of a colour: the weighted sum of its channels,
/// with weights that add up to 256, divided by 256 and rounded down.
pub open spec fn luma_of(r: u8, g: u8, b: u8) -> int {
    (76 * r + 150 * g + 30 * b) / 256
}

/// Every colour falls into one of the 256 buckets; black falls into the
/// lowest and white into the highest.
pub proof fn lemma_luma_range(r: u8, g: u8, b: u8)
    ensures
        0 <= luma_of(r, g, b) < 256,
        luma_of(0, 0, 0) == 0,
        luma_of(255, 255, 255) == 255,
{
}

/// Computes the luminance bucket of a colour.
pub fn luma_bucket(r: u8, g: u8, b: u8) -> (bucket: u8)
    ensures
        bucket as int == luma_of(r, g, b),
{
    let weighted: u32 = r as u32 * RED_WEIGHT + g as u32 * GREEN_WEIGHT + b as u32 * BLUE_WEIGHT;
    assert(weighted <= 65280);
    assert(weighted >> 8 == weighted / 256) by (bit_vector);
    (weighted >> 8) as u8
}

} // verus!

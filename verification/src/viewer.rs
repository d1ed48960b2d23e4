use crate::scalar::Scalar;
use vstd::prelude::*;

verus! {

/// The pixel that a display buffer holds for three 8-bit channels: fully
/// opaque, then red, green and blue, from the most significant byte down.
pub open spec fn packed(r: u8, g: u8, b: u8) -> int {
    0xFF00_0000 + r * 0x1_0000 + g * 0x100 + b
}

/// The pixel that a display buffer holds for three 8-bit channels.
pub fn pack(r: u8, g: u8, b: u8) -> (pixel: u32)
    ensures
        pixel == packed(r, g, b),
{
    let hi: u32 = 0xFF00_0000u32 + (r as u32) * 0x1_0000u32;
    hi + (g as u32) * 0x100u32 + (b as u32)
}

/// The pixel that a display buffer holds for a colour whose channels are
/// given on the scale from 0 to 255: each channel loses what is behind the
/// point and is held to that scale.
pub fn to_color(r: Scalar, g: Scalar, b: Scalar) -> (pixel: u32)
    ensures
        pixel == packed(r.spec_to_u8(), g.spec_to_u8(), b.spec_to_u8()),
{
    pack(r.to_u8(), g.to_u8(), b.to_u8())
}

} // verus!

use vstd::prelude::*;

verus! {

/// Full intensity of one channel.
pub const CHANNEL_MAX: i32 = 255;

/// An opaque colour with three 8-bit channels.
#[derive(Clone, Copy, Debug, PartialEq, Eq, Structural)]
pub struct Color {
    pub r: u8,
    pub g: u8,
    pub b: u8,
}

/// The channel level that a requested level `v` becomes: out-of-range values
/// are clamped to `0..=255`, never wrapped.
pub open spec fn clamped_channel(v: int) -> int {
    if v < 0 {
        0
    } else if v > 255 {
        255
    } else {
        v
    }
}

/// The colour packed as `0xRRGGBB`.
pub open spec fn packed_rgb(r: int, g: int, b: int) -> int {
    r * 65536 + g * 256 + b
}

fn clamp_channel(v: i32) -> (r: u8)
    ensures
        r as int == clamped_channel(v as int),
{
    if v < 0 {
        0
    } else if v > CHANNEL_MAX {
        255
    } else {
        v as u8
    }
}

impl Color {
    pub fn new(r: u8, g: u8, b: u8) -> (c: Color)
        ensures
            c.r == r,
            c.g == g,
            c.b == b,
    {
        Color { r, g, b }
    }

    /// Builds a colour from channel levels on the 0..=255 scale, where 255 is
    /// full intensity; each level is clamped into range.
    pub fn from_levels(r: i32, g: i32, b: i32) -> (c: Color)
        ensures
            c.r as int == clamped_channel(r as int),
            c.g as int == clamped_channel(g as int),
            c.b as int == clamped_channel(b as int),
    {
        Color { r: clamp_channel(r), g: clamp_channel(g), b: clamp_channel(b) }
    }

    /// The colour as a `0xRRGGBB` pixel value.
    pub fn to_hex(&self) -> (h: u32)
        ensures
            h as int == packed_rgb(self.r as int, self.g as int, self.b as int),
    {
        (self.r as u32) * 65536 + (self.g as u32) * 256 + (self.b as u32)
    }
}

} // verus!

//! Stored colors and linear colors.

use vstd::prelude::*;

verus! {

/// A stored pixel: four 8-bit channels.
#[derive(Clone, Copy, Debug, PartialEq, Eq, Structural)]
pub struct Color {
    pub r: u8,
    pub g: u8,
    pub b: u8,
    pub a: u8,
}

/// A color as a shading stage produces it: fixed-point channels in which 0 is
/// no intensity and 255 is full intensity. A channel may lie outside that
/// range; it is brought into it when the color is stored.
#[derive(Clone, Copy, Debug, PartialEq, Eq, Structural)]
pub struct LinearColor {
    pub r: i32,
    pub g: i32,
    pub b: i32,
}

/// The nearest value to `channel` within 0 and 255.
pub open spec fn clamp_channel(channel: int) -> int {
    if channel < 0 {
        0
    } else if channel > 255 {
        255
    } else {
        channel
    }
}

/// Brings one fixed-point channel into the range of a stored channel.
pub fn quantize_channel(channel: i32) -> (q: u8)
    ensures
        q == clamp_channel(channel as int),
{
    if channel < 0 {
        0
    } else if channel > 255 {
        255
    } else {
        channel as u8
    }
}

impl Color {
    /// A color from its four channels.
    pub fn new(r: u8, g: u8, b: u8, a: u8) -> (c: Color)
        ensures
            c == (Color { r, g, b, a }),
    {
        Color { r, g, b, a }
    }

    /// Opaque black.
    pub open spec fn spec_black() -> Color {
        Color { r: 0, g: 0, b: 0, a: 255 }
    }

    /// Opaque white.
    pub open spec fn spec_white() -> Color {
        Color { r: 255, g: 255, b: 255, a: 255 }
    }

    /// Opaque black.
    #[verifier::when_used_as_spec(spec_black)]
    pub fn black() -> (c: Color)
        ensures
            c == Color::spec_black(),
    {
        Color { r: 0, g: 0, b: 0, a: 255 }
    }

    /// Opaque white.
    #[verifier::when_used_as_spec(spec_white)]
    pub fn white() -> (c: Color)
        ensures
            c == Color::spec_white(),
    {
        Color { r: 255, g: 255, b: 255, a: 255 }
    }

    /// The linear color with the same red, green and blue; alpha is left out.
    pub open spec fn linear(self) -> LinearColor {
        LinearColor { r: self.r as i32, g: self.g as i32, b: self.b as i32 }
    }

    /// Widens the red, green and blue channels into a linear color.
    pub fn to_linear(&self) -> (l: LinearColor)
        ensures
            l == self.linear(),
    {
        LinearColor { r: self.r as i32, g: self.g as i32, b: self.b as i32 }
    }
}

impl LinearColor {
    /// A linear color from its three channels.
    pub fn new(r: i32, g: i32, b: i32) -> (c: LinearColor)
        ensures
            c == (LinearColor { r, g, b }),
    {
        LinearColor { r, g, b }
    }

    /// The stored form: every channel clamped, alpha opaque.
    pub open spec fn packed(self) -> Color {
        Color {
            r: clamp_channel(self.r as int) as u8,
            g: clamp_channel(self.g as int) as u8,
            b: clamp_channel(self.b as int) as u8,
            a: 255,
        }
    }

    /// Clamps every channel and packs the result as an opaque pixel.
    pub fn pack(&self) -> (c: Color)
        ensures
            c == self.packed(),
    {
        Color {
            r: quantize_channel(self.r),
            g: quantize_channel(self.g),
            b: quantize_channel(self.b),
            a: 255,
        }
    }
}

/// Packing a widened color gives the color back with its alpha made opaque.
pub proof fn lemma_pack_of_linear(c: Color)
    ensures
        c.linear().packed() == (Color { r: c.r, g: c.g, b: c.b, a: 255 }),
{
}

} // verus!

//! Colors with three 8-bit channels and their packed 24-bit form.

use vstd::prelude::*;

verus! {

/// An opaque RGB color.
#[derive(Clone, Copy, Debug, PartialEq, Eq, Structural)]
pub struct Color {
    pub r: u8,
    pub g: u8,
    pub b: u8,
}

/// The packed form `0xRRGGBB` of three channels.
pub open spec fn packed(r: u8, g: u8, b: u8) -> u32 {
    (r as int * 65536 + g as int * 256 + b as int) as u32
}

impl Color {
    /// The packed form `0xRRGGBB` of this color.
    pub open spec fn hex(self) -> u32 {
        packed(self.r, self.g, self.b)
    }

    /// The color whose packed form is the low 24 bits of `hex`.
    pub open spec fn of_hex(hex: u32) -> Color {
        Color {
            r: (hex as int / 65536 % 256) as u8,
            g: (hex as int / 256 % 256) as u8,
            b: (hex as int % 256) as u8,
        }
    }

    pub fn new(r: u8, g: u8, b: u8) -> (c: Color)
        ensures
            c == (Color { r, g, b }),
    {
        Color { r, g, b }
    }

    /// Packs the three channels into `0xRRGGBB`.
    pub fn to_hex(&self) -> (hex: u32)
        ensures
            hex == self.hex(),
            hex <= 0xFF_FFFF,
    {
        let r: u32 = self.r as u32;
        let g: u32 = self.g as u32;
        let b: u32 = self.b as u32;
        r * 65536 + g * 256 + b
    }

    /// Unpacks `0xRRGGBB`; bits above the low 24 are ignored.
    pub fn from_hex(hex: u32) -> (c: Color)
        ensures
            c == Color::of_hex(hex),
    {
        Color {
            r: (hex / 65536 % 256) as u8,
            g: (hex / 256 % 256) as u8,
            b: (hex % 256) as u8,
        }
    }

    /// Unpacking a packed color gives the color back.
    pub proof fn lemma_hex_round_trip(self)
        ensures
            Color::of_hex(self.hex()) == self,
            self.hex() <= 0xFF_FFFF,
    {
    }

    /// Packing an unpacked value gives its low 24 bits back.
    pub proof fn lemma_of_hex_round_trip(hex: u32)
        ensures
            Color::of_hex(hex).hex() == hex % 0x100_0000,
    {
    }
}

} // verus!

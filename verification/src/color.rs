//! Display colours: the two colours of the game and their encoding as
//! the big-endian RGB565 byte pairs that the display takes.

use vstd::prelude::*;
use embedded_graphics::pixelcolor::Rgb565;
use embedded_graphics::prelude::RgbColor;

verus! {

/// An RGB565 colour by its channels: red and blue in 5 bits, green in 6.
#[derive(Clone, Copy, Debug, PartialEq, Eq, Structural)]
pub struct Color565 {
    pub r: u8,
    pub g: u8,
    pub b: u8,
}

impl Color565 {
    /// Each channel fits its bit width.
    pub open spec fn is_valid(self) -> bool {
        self.r < 32 && self.g < 64 && self.b < 32
    }

    /// The 16-bit RGB565 word: red in the top 5 bits, green in the
    /// middle 6, blue in the low 5.
    pub open spec fn packed(self) -> int {
        self.r * 2048 + self.g * 32 + self.b
    }
}

/// The two bytes of `v`, most significant first.
pub open spec fn be_pair(v: int) -> [u8; 2] {
    [(v / 256) as u8, (v % 256) as u8]
}

/// Green, the colour of a live cell.
pub open spec fn live_color() -> Color565 {
    Color565 { r: 0, g: 63, b: 0 }
}

/// Black, the colour of a dead cell.
pub open spec fn dead_color() -> Color565 {
    Color565 { r: 0, g: 0, b: 0 }
}

/// The channels of embedded-graphics' `Rgb565::GREEN`.
///
/// Trusted: `Rgb565::GREEN` is `Rgb565::new(0, MAX_G, 0)` with `MAX_G`
/// 63, and `r`, `g`, `b` read the channels back.
#[verifier::external_body]
fn rgb565_green() -> (c: Color565)
    ensures
        c == (Color565 { r: 0, g: 63, b: 0 }),
{
    let c = Rgb565::GREEN;
    Color565 { r: c.r(), g: c.g(), b: c.b() }
}

/// The channels of embedded-graphics' `Rgb565::BLACK`.
///
/// Trusted: `Rgb565::BLACK` is `Rgb565::new(0, 0, 0)`, and `r`, `g`, `b`
/// read the channels back.
#[verifier::external_body]
fn rgb565_black() -> (c: Color565)
    ensures
        c == (Color565 { r: 0, g: 0, b: 0 }),
{
    let c = Rgb565::BLACK;
    Color565 { r: c.r(), g: c.g(), b: c.b() }
}

/// The colour of a live cell: green.
pub fn alive() -> (c: Color565)
    ensures
        c == live_color(),
{
    rgb565_green()
}

/// The colour of a dead cell: black.
pub fn dead() -> (c: Color565)
    ensures
        c == dead_color(),
{
    rgb565_black()
}

/// The bytes of `v` in big-endian order.
pub fn be_bytes(v: u16) -> (bytes: [u8; 2])
    ensures
        bytes == be_pair(v as int),
{
    let hi: u8 = (v >> 8u16) as u8;
    let lo: u8 = (v & 0xffu16) as u8;
    assert(hi == v / 256 && lo == v % 256) by (bit_vector)
        requires
            hi == (v >> 8u16) as u8,
            lo == (v & 0xffu16) as u8,
    ;
    let bytes = [hi, lo];
    assert(bytes =~= be_pair(v as int));
    bytes
}

/// Convert an RGB565 colour to its big-endian byte pair for the display.
pub fn color_be(c: Color565) -> (bytes: [u8; 2])
    requires
        c.is_valid(),
    ensures
        bytes == be_pair(c.packed()),
{
    let r = c.r;
    let g = c.g;
    let b = c.b;
    let v: u16 = ((r as u16) << 11u16) | ((g as u16) << 5u16) | (b as u16);
    assert(v == r * 2048 + g * 32 + b) by (bit_vector)
        requires
            r < 32,
            g < 64,
            b < 32,
            v == ((r as u16) << 11u16) | ((g as u16) << 5u16) | (b as u16),
    ;
    be_bytes(v)
}

} // verus!

//! 8-bit RGBA pixels and their packed 32-bit display form.
use vstd::prelude::*;

verus! {

/// One frame-buffer pixel, 8 bits per channel.
#[derive(Clone, Copy, PartialEq, Eq, Debug, Structural)]
pub struct Rgba {
    pub r: u8,
    pub g: u8,
    pub b: u8,
    pub a: u8,
}

impl Rgba {
    pub fn new(r: u8, g: u8, b: u8, a: u8) -> (res: Rgba)
        ensures
            res == (Rgba { r, g, b, a }),
    {
        Rgba { r, g, b, a }
    }
}

/// The ARGB word a display surface expects: alpha in the top byte, then
/// red, green and blue.
pub open spec fn argb_word(c: Rgba) -> int {
    c.a as int * 0x1000000 + c.r as int * 0x10000 + c.g as int * 0x100 + c.b as int
}

/// Packs a pixel as `(a << 24) | (r << 16) | (g << 8) | b`.
pub fn pack_argb(c: Rgba) -> (res: u32)
    ensures
        res as int == argb_word(c),
{
    let r = c.r as u32;
    let g = c.g as u32;
    let b = c.b as u32;
    let a = c.a as u32;
    assert((a << 24u32) | (r << 16u32) | (g << 8u32) | b
        == a * 0x1000000 + r * 0x10000 + g * 0x100 + b) by (bit_vector)
        requires a < 256, r < 256, g < 256, b < 256;
    (a << 24) | (r << 16) | (g << 8) | b
}

/// Law: the packed word keeps every channel. Each channel can be read
/// back from its byte of the word, so two pixels pack to the same word only
/// when they are equal.
pub proof fn packing_keeps_channels(c: Rgba, d: Rgba)
    ensures
        argb_word(c) / 0x1000000 == c.a,
        argb_word(c) / 0x10000 % 0x100 == c.r,
        argb_word(c) / 0x100 % 0x100 == c.g,
        argb_word(c) % 0x100 == c.b,
        argb_word(c) == argb_word(d) ==> c == d,
{
    let w = argb_word(c);
    let (a, r, g, b) = (c.a as int, c.r as int, c.g as int, c.b as int);
    vstd::arithmetic::div_mod::lemma_fundamental_div_mod_converse(w, 0x1000000, a, r * 0x10000 + g * 0x100 + b);
    vstd::arithmetic::div_mod::lemma_fundamental_div_mod_converse(w, 0x10000, a * 0x100 + r, g * 0x100 + b);
    vstd::arithmetic::div_mod::lemma_fundamental_div_mod_converse(a * 0x100 + r, 0x100, a, r);
    vstd::arithmetic::div_mod::lemma_fundamental_div_mod_converse(w, 0x100, a * 0x10000 + r * 0x100 + g, b);
    vstd::arithmetic::div_mod::lemma_fundamental_div_mod_converse(a * 0x10000 + r * 0x100 + g, 0x100, a * 0x100 + r, g);
    if argb_word(c) == argb_word(d) {
        let w2 = argb_word(d);
        let (a2, r2, g2, b2) = (d.a as int, d.r as int, d.g as int, d.b as int);
        vstd::arithmetic::div_mod::lemma_fundamental_div_mod_converse(w2, 0x1000000, a2, r2 * 0x10000 + g2 * 0x100 + b2);
        vstd::arithmetic::div_mod::lemma_fundamental_div_mod_converse(w2, 0x10000, a2 * 0x100 + r2, g2 * 0x100 + b2);
        vstd::arithmetic::div_mod::lemma_fundamental_div_mod_converse(a2 * 0x100 + r2, 0x100, a2, r2);
        vstd::arithmetic::div_mod::lemma_fundamental_div_mod_converse(w2, 0x100, a2 * 0x10000 + r2 * 0x100 + g2, b2);
        vstd::arithmetic::div_mod::lemma_fundamental_div_mod_converse(a2 * 0x10000 + r2 * 0x100 + g2, 0x100, a2 * 0x100 + r2, g2);
    }
}

} // verus!

//! Packed 32-bit ARGB colours.

use vstd::prelude::*;

verus! {

/// The value of one 8-bit channel of a packed colour, the channel starting at bit `shift`.
pub open spec fn channel(value: u32, shift: int) -> u8 {
    (value as int / pow2_of(shift) % 0x100) as u8
}

/// `2^shift` for the four channel offsets used by packed colours.
pub open spec fn pow2_of(shift: int) -> int {
    if shift == 24 {
        0x100_0000
    } else if shift == 16 {
        0x1_0000
    } else if shift == 8 {
        0x100
    } else {
        1
    }
}

/// The packed value of the colour with the given channels: alpha in the top byte,
/// then red, green and blue.
pub open spec fn pack(a: u8, r: u8, g: u8, b: u8) -> int {
    a as int * 0x100_0000 + r as int * 0x1_0000 + g as int * 0x100 + b as int
}

/// Packing four channels gives a 32-bit value whose channels are those four.
pub proof fn lemma_pack_channels(a: u8, r: u8, g: u8, b: u8)
    ensures
        0 <= pack(a, r, g, b) <= u32::MAX,
        channel(pack(a, r, g, b) as u32, 24) == a,
        channel(pack(a, r, g, b) as u32, 16) == r,
        channel(pack(a, r, g, b) as u32, 8) == g,
        channel(pack(a, r, g, b) as u32, 0) == b,
{
    let a32: u32 = a as u32;
    let r32: u32 = r as u32;
    let g32: u32 = g as u32;
    let b32: u32 = b as u32;
    assert(a32 * 0x100_0000 + r32 * 0x1_0000 + g32 * 0x100 + b32 <= 0xFFFF_FFFF) by (bit_vector)
        requires
            a32 < 256,
            r32 < 256,
            g32 < 256,
            b32 < 256,
    ;
    let v: u32 = (a32 * 0x100_0000 + r32 * 0x1_0000 + g32 * 0x100 + b32) as u32;
    assert(v / 0x100_0000 % 0x100 == a32 && v / 0x1_0000 % 0x100 == r32 && v / 0x100 % 0x100 == g32 && v
        % 0x100 == b32) by (bit_vector)
        requires
            a32 < 256,
            r32 < 256,
            g32 < 256,
            b32 < 256,
            v == a32 * 0x100_0000 + r32 * 0x1_0000 + g32 * 0x100 + b32,
    ;
}

/// A colour packed as `0xAARRGGBB`.
#[derive(Debug, Clone, Copy, PartialEq, Eq, Structural)]
pub struct Color {
    pub value: u32,
}

impl Color {
    /// Alpha channel of the colour.
    pub open spec fn alpha(self) -> u8 {
        channel(self.value, 24)
    }

    /// Red channel of the colour.
    pub open spec fn red(self) -> u8 {
        channel(self.value, 16)
    }

    /// Green channel of the colour.
    pub open spec fn green(self) -> u8 {
        channel(self.value, 8)
    }

    /// Blue channel of the colour.
    pub open spec fn blue(self) -> u8 {
        channel(self.value, 0)
    }

    /// A colour from its channels; a missing alpha means fully opaque (255).
    pub fn new(r: u8, g: u8, b: u8, a: Option<u8>) -> (c: Self)
        ensures
            c.value == pack(
                match a {
                    Some(x) => x,
                    None => 255u8,
                },
                r,
                g,
                b,
            ),
    {
        let alpha: u32 = match a {
            Some(x) => x as u32,
            None => 255u32,
        };
        let rr: u32 = r as u32;
        let gg: u32 = g as u32;
        let bb: u32 = b as u32;
        let value: u32 = (alpha << 24u32) | (rr << 16u32) | (gg << 8u32) | bb;
        assert(value == alpha * 0x100_0000 + rr * 0x1_0000 + gg * 0x100 + bb) by (bit_vector)
            requires
                alpha < 256,
                rr < 256,
                gg < 256,
                bb < 256,
                value == (alpha << 24u32) | (rr << 16u32) | (gg << 8u32) | bb,
        ;
        Self { value }
    }

    /// The alpha channel.
    pub fn a(&self) -> (x: u8)
        ensures
            x == self.alpha(),
    {
        let v: u32 = self.value;
        assert(((v >> 24u32) & 0xFFu32) == v / 0x100_0000 % 0x100) by (bit_vector);
        ((v >> 24u32) & 0xFFu32) as u8
    }

    /// The red channel.
    pub fn r(&self) -> (x: u8)
        ensures
            x == self.red(),
    {
        let v: u32 = self.value;
        assert(((v >> 16u32) & 0xFFu32) == v / 0x1_0000 % 0x100) by (bit_vector);
        ((v >> 16u32) & 0xFFu32) as u8
    }

    /// The green channel.
    pub fn g(&self) -> (x: u8)
        ensures
            x == self.green(),
    {
        let v: u32 = self.value;
        assert(((v >> 8u32) & 0xFFu32) == v / 0x100 % 0x100) by (bit_vector);
        ((v >> 8u32) & 0xFFu32) as u8
    }

    /// The blue channel.
    pub fn b(&self) -> (x: u8)
        ensures
            x == self.blue(),
    {
        let v: u32 = self.value;
        assert((v & 0xFFu32) == v % 0x100) by (bit_vector);
        (v & 0xFFu32) as u8
    }

    /// Replaces the alpha channel, keeping the other three.
    pub fn set_a(&mut self, a: u8)
        ensures
            final(self).value == pack(a, old(self).red(), old(self).green(), old(self).blue()),
    {
        let v: u32 = self.value;
        let aa: u32 = a as u32;
        let nv: u32 = (v & 0x00FF_FFFFu32) | (aa << 24u32);
        assert(nv == aa * 0x100_0000 + (v / 0x1_0000 % 0x100) * 0x1_0000 + (v / 0x100 % 0x100)
            * 0x100 + v % 0x100) by (bit_vector)
            requires
                aa < 256,
                nv == (v & 0x00FF_FFFFu32) | (aa << 24u32),
        ;
        self.value = nv;
    }

    /// Replaces the red channel, keeping the other three.
    pub fn set_r(&mut self, r: u8)
        ensures
            final(self).value == pack(old(self).alpha(), r, old(self).green(), old(self).blue()),
    {
        let v: u32 = self.value;
        let rr: u32 = r as u32;
        let nv: u32 = (v & 0xFF00_FFFFu32) | (rr << 16u32);
        assert(nv == (v / 0x100_0000 % 0x100) * 0x100_0000 + rr * 0x1_0000 + (v / 0x100 % 0x100)
            * 0x100 + v % 0x100) by (bit_vector)
            requires
                rr < 256,
                nv == (v & 0xFF00_FFFFu32) | (rr << 16u32),
        ;
        self.value = nv;
    }

    /// Replaces the green channel, keeping the other three.
    pub fn set_g(&mut self, g: u8)
        ensures
            final(self).value == pack(old(self).alpha(), old(self).red(), g, old(self).blue()),
    {
        let v: u32 = self.value;
        let gg: u32 = g as u32;
        let nv: u32 = (v & 0xFFFF_00FFu32) | (gg << 8u32);
        assert(nv == (v / 0x100_0000 % 0x100) * 0x100_0000 + (v / 0x1_0000 % 0x100) * 0x1_0000
            + gg * 0x100 + v % 0x100) by (bit_vector)
            requires
                gg < 256,
                nv == (v & 0xFFFF_00FFu32) | (gg << 8u32),
        ;
        self.value = nv;
    }

    /// Replaces the blue channel, keeping the other three.
    pub fn set_b(&mut self, b: u8)
        ensures
            final(self).value == pack(old(self).alpha(), old(self).red(), old(self).green(), b),
    {
        let v: u32 = self.value;
        let bb: u32 = b as u32;
        let nv: u32 = (v & 0xFFFF_FF00u32) | bb;
        assert(nv == (v / 0x100_0000 % 0x100) * 0x100_0000 + (v / 0x1_0000 % 0x100) * 0x1_0000 + (v
            / 0x100 % 0x100) * 0x100 + bb) by (bit_vector)
            requires
                bb < 256,
                nv == (v & 0xFFFF_FF00u32) | bb,
        ;
        self.value = nv;
    }

    /// The colour with red, green and blue inverted (each channel `c` becomes `255 - c`);
    /// alpha is kept when `keep_alpha`, inverted too otherwise.
    pub fn invert(&self, keep_alpha: bool) -> (c: Color)
        ensures
            c.value == pack(
                if keep_alpha {
                    self.alpha()
                } else {
                    (255 - self.alpha()) as u8
                },
                (255 - self.red()) as u8,
                (255 - self.green()) as u8,
                (255 - self.blue()) as u8,
            ),
    {
        let v: u32 = self.value;
        let mask: u32 = if keep_alpha {
            0x00FF_FFFFu32
        } else {
            0xFFFF_FFFFu32
        };
        let nv: u32 = v ^ mask;
        if keep_alpha {
            assert(nv == (v / 0x100_0000 % 0x100) * 0x100_0000 + (255 - v / 0x1_0000 % 0x100)
                * 0x1_0000 + (255 - v / 0x100 % 0x100) * 0x100 + (255 - v % 0x100)) by (bit_vector)
                requires
                    nv == v ^ 0x00FF_FFFFu32,
            ;
        } else {
            assert(nv == (255 - v / 0x100_0000 % 0x100) * 0x100_0000 + (255 - v / 0x1_0000 % 0x100)
                * 0x1_0000 + (255 - v / 0x100 % 0x100) * 0x100 + (255 - v % 0x100)) by (bit_vector)
                requires
                    nv == v ^ 0xFFFF_FFFFu32,
            ;
        }
        Color { value: nv }
    }
}

} // verus!

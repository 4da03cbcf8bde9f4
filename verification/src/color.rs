//! Colour, and the one place the crate converts to a backend's pixel layout.
//!
//! Everything composites in straight (non-premultiplied) 8-bit RGBA and
//! converts once, when a span reaches the surface. Straight rather than
//! premultiplied because scene files are written by hand, where `#ff0000`
//! with half alpha meaning "half-transparent red" is far less surprising than
//! the premultiplied `#800000`.
use vstd::prelude::*;

use crate::surface::PixelFormat;
use vstd::string::StringSliceAdditionalSpecFns;

verus! {

/// A straight-alpha 8-bit-per-channel colour.
#[derive(Clone, Copy, PartialEq, Eq, Structural, Debug, Default)]
pub struct Color {
    /// Red channel, 0-255.
    pub r: u8,
    /// Green channel, 0-255.
    pub g: u8,
    /// Blue channel, 0-255.
    pub b: u8,
    /// Alpha, 0 fully transparent to 255 fully opaque.
    pub a: u8,
}

/// One channel of `src` over `dst` at source alpha `a` (with `inv = 255 - a`),
/// divided by 255 with rounding.
pub open spec fn spec_blend(src: u8, dst: u8, a: int, inv: int) -> u8 {
    ((src * a + dst * inv + 127) / 255) as u8
}

/// The colour with the given channels, as a value.
pub open spec fn spec_rgba(r: u8, g: u8, b: u8, a: u8) -> Color {
    Color { r, g, b, a }
}

impl Color {
    /// Source-over compositing of `self` onto `dst`.
    pub open spec fn spec_over(self, dst: Color) -> Color {
        if self.a == 255 {
            self
        } else if self.a == 0 {
            dst
        } else {
            let a = self.a as int;
            let inv = 255 - a;
            Color {
                r: spec_blend(self.r, dst.r, a, inv),
                g: spec_blend(self.g, dst.g, a, inv),
                b: spec_blend(self.b, dst.b, a, inv),
                a: (a + (dst.a * inv + 127) / 255) as u8,
            }
        }
    }

    /// The colour a backend's bytes hold, alpha always opaque.
    pub open spec fn spec_unpack(bytes: Seq<u8>, format: PixelFormat) -> Color {
        match format {
            PixelFormat::Bgrx8888 => if bytes.len() >= 3 {
                spec_rgba(bytes[2], bytes[1], bytes[0], 255)
            } else {
                spec_rgba(0, 0, 0, 255)
            },
            PixelFormat::Rgbx8888 => if bytes.len() >= 3 {
                spec_rgba(bytes[0], bytes[1], bytes[2], 255)
            } else {
                spec_rgba(0, 0, 0, 255)
            },
            PixelFormat::Rgb565 => if bytes.len() >= 2 {
                let v = (bytes[0] as u16) | ((bytes[1] as u16) << 8u16);
                let r5 = ((v >> 11u16) & 0x1f) as u8;
                let g6 = ((v >> 5u16) & 0x3f) as u8;
                let b5 = (v & 0x1f) as u8;
                spec_rgba(
                    (r5 << 3u8) | (r5 >> 2u8),
                    (g6 << 2u8) | (g6 >> 4u8),
                    (b5 << 3u8) | (b5 >> 2u8),
                    255,
                )
            } else {
                spec_rgba(0, 0, 0, 255)
            },
        }
    }

    /// The 565 value of a colour: the high bits of each channel.
    pub open spec fn spec_565(self) -> u16 {
        ((self.r as u16 & 0xf8) << 8u16) | ((self.g as u16 & 0xfc) << 3u16) | (self.b as u16 >> 3u16)
    }

    /// The bytes a backend stores for `self`, and how many of them count.
    pub open spec fn spec_pack(self, format: PixelFormat) -> (Seq<u8>, nat) {
        match format {
            PixelFormat::Bgrx8888 => (seq![self.b, self.g, self.r, 0xffu8], 4),
            PixelFormat::Rgbx8888 => (seq![self.r, self.g, self.b, 0xffu8], 4),
            PixelFormat::Rgb565 => {
                let v = self.spec_565();
                (seq![v as u8, (v >> 8u16) as u8, 0u8, 0u8], 2)
            },
        }
    }

    /// An opaque colour from its three channels.
    pub fn rgb(r: u8, g: u8, b: u8) -> (res: Self)
        ensures
            res == spec_rgba(r, g, b, 255),
    {
        Self { r, g, b, a: 255 }
    }

    /// A colour with an explicit alpha.
    pub fn rgba(r: u8, g: u8, b: u8, a: u8) -> (res: Self)
        ensures
            res == spec_rgba(r, g, b, a),
    {
        Self { r, g, b, a }
    }

    /// Whether compositing this colour can change the destination at all.
    pub fn is_transparent(self) -> (res: bool)
        ensures
            res == (self.a == 0),
    {
        self.a == 0
    }

    /// Whether this colour hides whatever is underneath it.
    ///
    /// The renderer uses this to skip reading the destination, which on a
    /// non-cacheable framebuffer is the expensive half of the operation.
    pub fn is_opaque(self) -> (res: bool)
        ensures
            res == (self.a == 255),
    {
        self.a == 255
    }

    /// Composite `self` over `dst` using source-over.
    ///
    /// The divide is by 255 rather than 256 so that 255 maps to exactly 1.0;
    /// the `+ 127` is the rounding that makes `x * 255 / 255 == x` hold for
    /// every input.
    pub fn over(self, dst: Self) -> (res: Self)
        ensures
            res == self.spec_over(dst),
    {
        if self.is_opaque() {
            return self;
        }
        if self.is_transparent() {
            return dst;
        }
        let a = self.a as u32;
        let inv = 255 - a;
        let da = dst.a as u32;
        proof {
            lemma_blend_fits(da, 0, inv, a);
        }
        let out_a = a + (da * inv + 127) / 255;
        proof {
            lemma_alpha_union_fits(a, da);
        }
        Self {
            r: blend(self.r, dst.r, a, inv),
            g: blend(self.g, dst.g, a, inv),
            b: blend(self.b, dst.b, a, inv),
            // Straight alpha: the union of two coverages, not their sum.
            a: out_a as u8,
        }
    }

    /// Read a pixel back out of a backend's layout.
    ///
    /// The inverse of [`Self::pack`], for blending an antialiased edge over
    /// what is already on the surface. Alpha comes back opaque: a framebuffer
    /// has no alpha channel. `Rgb565` widens each channel by repeating its top
    /// bits into the bottom, so that full white reads back as full white.
    pub fn unpack(bytes: &[u8], format: PixelFormat) -> (res: Self)
        ensures
            res == Self::spec_unpack(bytes@, format),
    {
        match format {
            PixelFormat::Bgrx8888 => if bytes.len() >= 3 {
                Self::rgb(bytes[2], bytes[1], bytes[0])
            } else {
                Self::rgb(0, 0, 0)
            },
            PixelFormat::Rgbx8888 => if bytes.len() >= 3 {
                Self::rgb(bytes[0], bytes[1], bytes[2])
            } else {
                Self::rgb(0, 0, 0)
            },
            PixelFormat::Rgb565 => if bytes.len() >= 2 {
                let v = (bytes[0] as u16) | ((bytes[1] as u16) << 8u16);
                let r5 = ((v >> 11u16) & 0x1f) as u8;
                let g6 = ((v >> 5u16) & 0x3f) as u8;
                let b5 = (v & 0x1f) as u8;
                Self::rgb((r5 << 3u8) | (r5 >> 2u8), (g6 << 2u8) | (g6 >> 4u8), (b5 << 3u8) | (b5 >> 2u8))
            } else {
                Self::rgb(0, 0, 0)
            },
        }
    }

    /// Pack into a backend's layout, little-endian, ready to store.
    ///
    /// Returns the bytes and how many of them are significant, so a caller can
    /// write 2 or 4 without branching on the format again. 5/6/5 is by
    /// truncation of the high bits: dithering belongs in the rasteriser,
    /// where it can see neighbouring pixels.
    pub fn pack(self, format: PixelFormat) -> (res: ([u8; 4], usize))
        ensures
            res.0@ == self.spec_pack(format).0,
            res.1 == self.spec_pack(format).1,
        no_unwind
    {
        match format {
            PixelFormat::Bgrx8888 => ([self.b, self.g, self.r, 0xff], 4),
            PixelFormat::Rgbx8888 => ([self.r, self.g, self.b, 0xff], 4),
            PixelFormat::Rgb565 => {
                let v = ((self.r as u16 & 0xf8) << 8u16) | ((self.g as u16 & 0xfc) << 3u16) | (
                self.b as u16 >> 3u16);
                ([v as u8, (v >> 8u16) as u8, 0, 0], 2)
            },
        }
    }
}

/// The value of one hex digit, if `b` is one.
pub open spec fn spec_hex_nibble(b: u8) -> Option<u8> {
    if 48 <= b <= 57 {
        Some((b - 48) as u8)
    } else if 97 <= b <= 102 {
        Some((b - 97 + 10) as u8)
    } else if 65 <= b <= 70 {
        Some((b - 65 + 10) as u8)
    } else {
        None
    }
}

/// One channel written as a single digit, doubled: `f` is `ff`.
pub open spec fn spec_short_channel(d: u8) -> Option<u8> {
    match spec_hex_nibble(d) {
        Some(v) => Some((v * 17) as u8),
        None => None,
    }
}

/// One channel written as two digits.
pub open spec fn spec_long_channel(hi: u8, lo: u8) -> Option<u8> {
    match (spec_hex_nibble(hi), spec_hex_nibble(lo)) {
        (Some(h), Some(l)) => Some((h * 16 + l) as u8),
        _ => None,
    }
}

/// Four optional channels, present only when all four are.
pub open spec fn spec_all_four(r: Option<u8>, g: Option<u8>, b: Option<u8>, a: Option<u8>) -> Option<
    Color,
> {
    match (r, g, b, a) {
        (Some(r), Some(g), Some(b), Some(a)) => Some(spec_rgba(r, g, b, a)),
        _ => None,
    }
}

/// The colour a CSS-style hex string names: an optional `#`, then 3, 4, 6
/// or 8 hex digits, the short forms doubling each digit.
pub open spec fn spec_parse_hex(bytes: Seq<u8>) -> Option<Color> {
    let d = if bytes.len() > 0 && bytes[0] == 35 {
        bytes.subrange(1, bytes.len() as int)
    } else {
        bytes
    };
    if d.len() == 3 {
        spec_all_four(
            spec_short_channel(d[0]),
            spec_short_channel(d[1]),
            spec_short_channel(d[2]),
            Some(255u8),
        )
    } else if d.len() == 4 {
        spec_all_four(
            spec_short_channel(d[0]),
            spec_short_channel(d[1]),
            spec_short_channel(d[2]),
            spec_short_channel(d[3]),
        )
    } else if d.len() == 6 {
        spec_all_four(
            spec_long_channel(d[0], d[1]),
            spec_long_channel(d[2], d[3]),
            spec_long_channel(d[4], d[5]),
            Some(255u8),
        )
    } else if d.len() == 8 {
        spec_all_four(
            spec_long_channel(d[0], d[1]),
            spec_long_channel(d[2], d[3]),
            spec_long_channel(d[4], d[5]),
            spec_long_channel(d[6], d[7]),
        )
    } else {
        None
    }
}

/// One hex digit's value, or `None` if it is not a hex digit.
fn hex_nibble(b: u8) -> (res: Option<u8>)
    ensures
        res == spec_hex_nibble(b),
        res matches Some(v) ==> v < 16,
{
    // '0'..='9', 'a'..='f', 'A'..='F'
    if 48 <= b && b <= 57 {
        Some(b - 48)
    } else if 97 <= b && b <= 102 {
        Some(b - 97 + 10)
    } else if 65 <= b && b <= 70 {
        Some(b - 65 + 10)
    } else {
        None
    }
}

/// A doubled single-digit channel.
fn short_channel(d: u8) -> (res: Option<u8>)
    ensures
        res == spec_short_channel(d),
{
    match hex_nibble(d) {
        Some(v) => Some(v * 17),
        None => None,
    }
}

/// A two-digit channel.
fn long_channel(hi: u8, lo: u8) -> (res: Option<u8>)
    ensures
        res == spec_long_channel(hi, lo),
{
    match (hex_nibble(hi), hex_nibble(lo)) {
        (Some(h), Some(l)) => Some(h * 16 + l),
        _ => None,
    }
}

/// Four optional channels, present only when all four are.
fn all_four(r: Option<u8>, g: Option<u8>, b: Option<u8>, a: Option<u8>) -> (res: Option<Color>)
    ensures
        res == spec_all_four(r, g, b, a),
{
    match (r, g, b, a) {
        (Some(r), Some(g), Some(b), Some(a)) => Some(Color::rgba(r, g, b, a)),
        _ => None,
    }
}

/// Parse a CSS-style hex colour.
///
/// The `#` is optional, case is ignored, and the three- and four-digit forms
/// double each nibble so `#f00` and `#ff0000` are the same red. Anything else
/// is rejected rather than guessed at.
pub fn parse_hex(s: &str) -> (res: Option<Color>)
    ensures
        res == spec_parse_hex(s.spec_bytes()),
{
    let bytes = s.as_bytes();
    let start: usize = if bytes.len() > 0 && bytes[0] == 35 {  // '#'
 1 } else { 0 };
    let hex_len = bytes.len() - start;
    let ghost d = if start == 1 { bytes@.subrange(1, bytes@.len() as int) } else { bytes@ };
    assert(d.len() == hex_len);
    assert(forall|i: int| 0 <= i < hex_len ==> d[i] == bytes@[start + i]);
    if hex_len == 3 {
        all_four(
            short_channel(bytes[start]),
            short_channel(bytes[start + 1]),
            short_channel(bytes[start + 2]),
            Some(255),
        )
    } else if hex_len == 4 {
        all_four(
            short_channel(bytes[start]),
            short_channel(bytes[start + 1]),
            short_channel(bytes[start + 2]),
            short_channel(bytes[start + 3]),
        )
    } else if hex_len == 6 {
        all_four(
            long_channel(bytes[start], bytes[start + 1]),
            long_channel(bytes[start + 2], bytes[start + 3]),
            long_channel(bytes[start + 4], bytes[start + 5]),
            Some(255),
        )
    } else if hex_len == 8 {
        all_four(
            long_channel(bytes[start], bytes[start + 1]),
            long_channel(bytes[start + 2], bytes[start + 3]),
            long_channel(bytes[start + 4], bytes[start + 5]),
            long_channel(bytes[start + 6], bytes[start + 7]),
        )
    } else {
        None
    }
}

/// A rounded blend of two channels never leaves the byte range.
proof fn lemma_blend_fits(s: u32, d: u32, a: u32, inv: u32)
    requires
        s <= 255,
        d <= 255,
        a + inv == 255,
    ensures
        s * a + d * inv + 127 <= 255 * 255 + 127,
        (s * a + d * inv + 127) / 255 <= 255,
        (s * a + d * inv + 127) / 255 <= s || (s * a + d * inv + 127) / 255 <= d,
        (s * a + d * inv + 127) / 255 >= s || (s * a + d * inv + 127) / 255 >= d,
{
    assert(s * a <= 255 * a) by (nonlinear_arith)
        requires
            s <= 255,
    ;
    assert(d * inv <= 255 * inv) by (nonlinear_arith)
        requires
            d <= 255,
    ;
    let lo = if s <= d { s } else { d };
    let hi = if s <= d { d } else { s };
    assert(s * a + d * inv >= lo * 255) by (nonlinear_arith)
        requires
            lo <= s,
            lo <= d,
            a + inv == 255,
    ;
    assert(s * a + d * inv <= hi * 255) by (nonlinear_arith)
        requires
            s <= hi,
            d <= hi,
            a + inv == 255,
    ;
}

/// The union of two coverages stays a valid alpha.
proof fn lemma_alpha_union_fits(a: u32, da: u32)
    requires
        a <= 255,
        da <= 255,
    ensures
        a + (da * (255 - a) + 127) / 255 <= 255,
{
    let inv = (255 - a) as u32;
    assert(da * inv <= 255 * inv) by (nonlinear_arith)
        requires
            da <= 255,
    ;
    assert((255 * inv + 127) / 255 == inv);
}

fn blend(src: u8, dst: u8, a: u32, inv: u32) -> (res: u8)
    requires
        a + inv == 255,
    ensures
        res == spec_blend(src, dst, a as int, inv as int),
{
    proof {
        lemma_blend_fits(src as u32, dst as u32, a, inv);
    }
    ((src as u32 * a + dst as u32 * inv + 127) / 255) as u8
}

/// Source-over leaves each colour channel between the source's and the
/// destination's: compositing never invents a brighter or darker value than
/// the two it mixes.
pub proof fn lemma_over_between(src: Color, dst: Color)
    ensures
        ({
            let o = src.spec_over(dst);
            &&& (o.r >= src.r || o.r >= dst.r) && (o.r <= src.r || o.r <= dst.r)
            &&& (o.g >= src.g || o.g >= dst.g) && (o.g <= src.g || o.g <= dst.g)
            &&& (o.b >= src.b || o.b >= dst.b) && (o.b <= src.b || o.b <= dst.b)
        }),
{
    if src.a != 255 && src.a != 0 {
        let a = src.a as u32;
        let inv = (255 - a) as u32;
        lemma_blend_fits(src.r as u32, dst.r as u32, a, inv);
        lemma_blend_fits(src.g as u32, dst.g as u32, a, inv);
        lemma_blend_fits(src.b as u32, dst.b as u32, a, inv);
    }
}

/// An opaque source replaces the destination; a fully transparent one leaves
/// it as it was.
pub proof fn lemma_over_extremes(src: Color, dst: Color)
    ensures
        src.a == 255 ==> src.spec_over(dst) == src,
        src.a == 0 ==> src.spec_over(dst) == dst,
{
}

/// Compositing a colour over a copy of itself gives the same colour
/// channels back: the rounding loses nothing.
pub proof fn lemma_over_same_channels(c: Color, dst: Color)
    requires
        dst.r == c.r,
        dst.g == c.g,
        dst.b == c.b,
    ensures
        src_channels_equal(c.spec_over(dst), c),
{
    if c.a != 255 && c.a != 0 {
        let a = c.a as int;
        let (r, g, b) = (c.r as int, c.g as int, c.b as int);
        assert(r * a + r * (255 - a) == r * 255) by (nonlinear_arith);
        assert(g * a + g * (255 - a) == g * 255) by (nonlinear_arith);
        assert(b * a + b * (255 - a) == b * 255) by (nonlinear_arith);
    }
}

/// Whether two colours agree on red, green and blue.
pub open spec fn src_channels_equal(x: Color, y: Color) -> bool {
    x.r == y.r && x.g == y.g && x.b == y.b
}

/// For the 32-bit layouts, reading back what was packed gives the colour
/// again, made opaque.
pub proof fn lemma_pack_unpack_8888(c: Color, format: PixelFormat)
    requires
        format != PixelFormat::Rgb565,
    ensures
        Color::spec_unpack(c.spec_pack(format).0, format) == spec_rgba(c.r, c.g, c.b, 255),
{
}

/// For the 16-bit layout, packing what was read back gives the same two
/// bytes: widening a 565 pixel loses nothing that truncation restores.
pub proof fn lemma_unpack_pack_565(lo: u8, hi: u8)
    ensures
        ({
            let p = Color::spec_unpack(seq![lo, hi], PixelFormat::Rgb565).spec_pack(
                PixelFormat::Rgb565,
            ).0;
            p[0] == lo && p[1] == hi
        }),
{
    let v = (lo as u16) | ((hi as u16) << 8u16);
    let r5 = ((v >> 11u16) & 0x1f) as u8;
    let g6 = ((v >> 5u16) & 0x3f) as u8;
    let b5 = (v & 0x1f) as u8;
    let r = (r5 << 3u8) | (r5 >> 2u8);
    let g = (g6 << 2u8) | (g6 >> 4u8);
    let b = (b5 << 3u8) | (b5 >> 2u8);
    let w = ((r as u16 & 0xf8) << 8u16) | ((g as u16 & 0xfc) << 3u16) | (b as u16 >> 3u16);
    assert(w as u8 == lo && (w >> 8u16) as u8 == hi) by (bit_vector)
        requires
            v == (lo as u16) | ((hi as u16) << 8u16),
            r5 == ((v >> 11u16) & 0x1f) as u8,
            g6 == ((v >> 5u16) & 0x3f) as u8,
            b5 == (v & 0x1f) as u8,
            r == (r5 << 3u8) | (r5 >> 2u8),
            g == (g6 << 2u8) | (g6 >> 4u8),
            b == (b5 << 3u8) | (b5 >> 2u8),
            w == ((r as u16 & 0xf8) << 8u16) | ((g as u16 & 0xfc) << 3u16) | (b as u16 >> 3u16),
    ;
}

} // verus!

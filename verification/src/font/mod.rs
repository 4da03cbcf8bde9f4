//! Fixed-cell bitmap fonts.
//!
//! Bitmap rather than outline: rasterising a glyph outline needs floating
//! point, a scanline fill and a cache, and a dashboard draws the same dozen
//! digits forever. A cell lookup is a shift and a mask. Fixed cell rather
//! than proportional: every glyph occupies the same box, so a glyph's
//! address is a multiplication, and a column of numbers lines up without
//! anyone thinking about it -- which is what a speedometer wants.
//!
//! An atlas is `CPFN`, a little-endian version (1), cell width, cell height,
//! advance, line height, the little-endian code of the first glyph and the
//! glyph count, then each glyph's rows top to bottom, each row
//! `ceil(cell width / 8)` bytes with bit 7 the leftmost pixel.
use vstd::prelude::*;

verus! {

/// Why a font atlas could not be read.
#[derive(Clone, Copy, PartialEq, Eq, Structural, Debug)]
pub enum FontError {
    /// The first four bytes were not `CPFN`.
    BadMagic,
    /// The version field named a format this build cannot read.
    BadVersion,
    /// A header field held an impossible value.
    BadHeader,
    /// The glyph data was shorter than the header said.
    Truncated,
}

/// A fixed-cell bitmap font.
#[derive(Clone, Debug)]
pub struct Font<'a> {
    /// Width of one glyph cell in pixels.
    pub cell_w: u8,
    /// Height of one glyph cell in pixels.
    pub cell_h: u8,
    /// Pixels to advance after drawing a glyph.
    pub advance: u8,
    /// Pixels between baselines.
    pub line_height: u8,
    /// Unicode scalar of glyph index 0.
    pub first_char: u32,
    /// Number of glyphs.
    pub count: u32,
    /// Raw glyph bitmaps, borrowed from the input: `count` glyphs of
    /// `cell_h` rows each, a row `(cell_w + 7) / 8` bytes, most significant
    /// bit leftmost.
    pub glyphs: &'a [u8],
}

/// A [`Font`] as a value.
pub struct FontSpec {
    /// Cell width.
    pub cell_w: u8,
    /// Cell height.
    pub cell_h: u8,
    /// Advance.
    pub advance: u8,
    /// Line height.
    pub line_height: u8,
    /// First character.
    pub first_char: u32,
    /// Glyph count.
    pub count: u32,
    /// The glyph bitmaps.
    pub glyphs: Seq<u8>,
}

impl<'a> View for Font<'a> {
    type V = FontSpec;

    /// The metrics as the public fields hold them, and the glyph bitmaps.
    open spec fn view(&self) -> FontSpec {
        FontSpec {
            cell_w: self.cell_w,
            cell_h: self.cell_h,
            advance: self.advance,
            line_height: self.line_height,
            first_char: self.first_char,
            count: self.count,
            glyphs: self.glyphs@,
        }
    }
}

/// Bytes per glyph row for a cell `w` pixels wide.
pub open spec fn spec_row_bytes(w: u8) -> int {
    (w + 7) / 8
}

/// A little-endian `u32` at `at`.
pub open spec fn le_u32(b: Seq<u8>, at: int) -> int {
    b[at] + b[at + 1] * 0x100 + b[at + 2] * 0x1_0000 + b[at + 3] * 0x100_0000
}

/// What an atlas says, or why it cannot be read.
pub open spec fn spec_font_parse(b: Seq<u8>) -> Result<FontSpec, FontError> {
    if b.len() < 18 {
        Err(FontError::Truncated)
    } else if !(b[0] == 0x43 && b[1] == 0x50 && b[2] == 0x46 && b[3] == 0x4e) {
        Err(FontError::BadMagic)
    } else if b[4] + b[5] * 256 != 1 {
        Err(FontError::BadVersion)
    } else if !(1 <= b[6] <= 32) || !(1 <= b[7] <= 64) {
        Err(FontError::BadHeader)
    } else if le_u32(b, 14) < 1 {
        Err(FontError::BadHeader)
    } else {
        let total = spec_row_bytes(b[6]) * b[7] * le_u32(b, 14);
        if b.len() < 18 + total {
            Err(FontError::Truncated)
        } else {
            Ok(
                FontSpec {
                    cell_w: b[6],
                    cell_h: b[7],
                    advance: b[8],
                    line_height: b[9],
                    first_char: le_u32(b, 10) as u32,
                    count: le_u32(b, 14) as u32,
                    glyphs: b.subrange(18, 18 + total),
                },
            )
        }
    }
}

/// Whether pixel (`x`, `y`) of the glyph for `ch` is ink: false for any
/// character outside the font and any point outside the cell.
pub open spec fn spec_font_pixel(f: FontSpec, ch: char, x: u32, y: u32) -> bool {
    let code = ch as int;
    if code < f.first_char || code - f.first_char >= f.count {
        false
    } else if x >= f.cell_w || y >= f.cell_h {
        false
    } else {
        let rb = spec_row_bytes(f.cell_w);
        let off = (code - f.first_char) * rb * f.cell_h + y * rb + x / 8;
        if off >= f.glyphs.len() {
            false
        } else {
            (f.glyphs[off] >> ((7 - x % 8) as u8)) & 1u8 != 0
        }
    }
}

impl<'a> Font<'a> {
    /// The cell width, cell height and advance, in pixels.
    pub fn metrics(&self) -> (m: (u8, u8, u8))
        ensures
            m == (self@.cell_w, self@.cell_h, self@.advance),
    {
        (self.cell_w, self.cell_h, self.advance)
    }

    /// Parse an atlas from bytes, borrowing the glyph data.
    pub fn parse(bytes: &'a [u8]) -> (res: Result<Self, FontError>)
        ensures
            match res {
                Ok(f) => spec_font_parse(bytes@) == Ok::<FontSpec, FontError>(f@),
                Err(e) => spec_font_parse(bytes@) == Err::<FontSpec, FontError>(e),
            },
    {
        if bytes.len() < 18 {
            return Err(FontError::Truncated);
        }
        // "CPFN"
        if !(bytes[0] == 0x43 && bytes[1] == 0x50 && bytes[2] == 0x46 && bytes[3] == 0x4e) {
            return Err(FontError::BadMagic);
        }
        let version = bytes[4] as u16 + bytes[5] as u16 * 256;
        if version != 1 {
            return Err(FontError::BadVersion);
        }
        let cell_w = bytes[6];
        let cell_h = bytes[7];
        let advance = bytes[8];
        let line_height = bytes[9];
        if !(1 <= cell_w && cell_w <= 32) {
            return Err(FontError::BadHeader);
        }
        if !(1 <= cell_h && cell_h <= 64) {
            return Err(FontError::BadHeader);
        }
        let first_char = le_u32_at(bytes, 10);
        let count = le_u32_at(bytes, 14);
        if count < 1 {
            return Err(FontError::BadHeader);
        }
        // In u64: a count near u32::MAX times a large cell passes the 32-bit
        // range, and a wrapped total would accept a truncated atlas.
        let row_bytes = (cell_w as u64 + 7) / 8;
        let per_glyph = row_bytes * cell_h as u64;
        assert(per_glyph * (count as u64) <= 256 * 0xffff_ffff) by (nonlinear_arith)
            requires
                per_glyph <= 256,
                count <= 0xffff_ffff,
        ;
        let total = per_glyph * count as u64;
        if (bytes.len() as u64) < 18 + total {
            return Err(FontError::Truncated);
        }
        let total = total as usize;
        let glyphs = &bytes[18..18 + total];
        Ok(Font { cell_w, cell_h, advance, line_height, first_char, count, glyphs })
    }

    /// Bytes per glyph row.
    pub fn row_bytes(&self) -> (n: usize)
        ensures
            n == spec_row_bytes(self@.cell_w),
    {
        (self.cell_w as usize + 7) / 8
    }

    /// Whether the pixel at (x, y) of the glyph for `ch` is ink.
    ///
    /// Returns false for any character outside the font, and for any (x, y)
    /// outside the cell, so callers never need to range check.
    pub fn pixel(&self, ch: char, x: u32, y: u32) -> (res: bool)
        ensures
            res == spec_font_pixel(self@, ch, x, y),
            (ch as u32) < self@.first_char || (ch as u32) - self@.first_char >= self@.count || x
                >= self@.cell_w || y >= self@.cell_h ==> !res,
    {
        let code = ch as u32;
        if code < self.first_char {
            return false;
        }
        let index = code - self.first_char;
        if index >= self.count {
            return false;
        }
        if x >= self.cell_w as u32 || y >= self.cell_h as u32 {
            return false;
        }
        let rb = (self.cell_w as u64 + 7) / 8;
        assert((index as u64) * rb <= 0xffff_ffff * 32 && (index as u64) * rb * (self.cell_h as u64)
            <= 0xffff_ffff * 32 * 255 && (y as u64) * rb
            <= 255 * 32) by (nonlinear_arith)
            requires
                index <= 0xffff_ffff,
                rb <= 32,
                self.cell_h <= 255,
                y < self.cell_h,
        ;
        let off = (index as u64) * rb * (self.cell_h as u64) + (y as u64) * rb + (x / 8) as u64;
        if off >= self.glyphs.len() as u64 {
            return false;
        }
        let byte = self.glyphs[off as usize];
        let bit = (7 - x % 8) as u8;
        (byte >> bit) & 1 != 0
    }
}

/// The little-endian `u32` at `at`.
fn le_u32_at(bytes: &[u8], at: usize) -> (res: u32)
    requires
        at + 4 <= bytes@.len(),
    ensures
        res == le_u32(bytes@, at as int),
{
    bytes[at] as u32 + bytes[at + 1] as u32 * 0x100 + bytes[at + 2] as u32 * 0x1_0000 + bytes[at
        + 3] as u32 * 0x100_0000
}

/// The font compiled into the crate: a 5x7 cell covering printable ASCII,
/// authored for this project so the crate carries no third-party font data.
/// It exists so a label draws something the moment a scene asks for one; a
/// real panel is expected to ship its own atlas.
pub const DEFAULT: [u8; 683] = [
    0x43, 0x50, 0x46, 0x4e, 0x01, 0x00, 0x05, 0x07, 0x06, 0x09, 0x20, 0x00, 0x00, 0x00, 0x5f, 0x00,
    0x00, 0x00, 0x00, 0x00, 0x00, 0x00, 0x00, 0x00, 0x00, 0x20, 0x20, 0x20, 0x20, 0x20, 0x00, 0x20,
    0x50, 0x50, 0x50, 0x00, 0x00, 0x00, 0x00, 0x50, 0x50, 0xf8, 0x50, 0xf8, 0x50, 0x50, 0x20, 0x78,
    0xa0, 0x70, 0x28, 0xf0, 0x20, 0xc0, 0xc8, 0x10, 0x20, 0x40, 0x98, 0x18, 0x60, 0x90, 0xa0, 0x40,
    0xa8, 0x90, 0x68, 0x20, 0x20, 0x40, 0x00, 0x00, 0x00, 0x00, 0x10, 0x20, 0x40, 0x40, 0x40, 0x20,
    0x10, 0x40, 0x20, 0x10, 0x10, 0x10, 0x20, 0x40, 0x00, 0x20, 0xa8, 0x70, 0xa8, 0x20, 0x00, 0x00,
    0x20, 0x20, 0xf8, 0x20, 0x20, 0x00, 0x00, 0x00, 0x00, 0x00, 0x60, 0x20, 0x40, 0x00, 0x00, 0x00,
    0xf8, 0x00, 0x00, 0x00, 0x00, 0x00, 0x00, 0x00, 0x00, 0x60, 0x60, 0x00, 0x08, 0x10, 0x20, 0x40,
    0x80, 0x00, 0x70, 0x88, 0x98, 0xa8, 0xc8, 0x88, 0x70, 0x20, 0x60, 0x20, 0x20, 0x20, 0x20, 0x70,
    0x70, 0x88, 0x08, 0x10, 0x20, 0x40, 0xf8, 0xf8, 0x10, 0x20, 0x10, 0x08, 0x88, 0x70, 0x10, 0x30,
    0x50, 0x90, 0xf8, 0x10, 0x10, 0xf8, 0x80, 0xf0, 0x08, 0x08, 0x88, 0x70, 0x30, 0x40, 0x80, 0xf0,
    0x88, 0x88, 0x70, 0xf8, 0x08, 0x10, 0x20, 0x40, 0x40, 0x40, 0x70, 0x88, 0x88, 0x70, 0x88, 0x88,
    0x70, 0x70, 0x88, 0x88, 0x78, 0x08, 0x10, 0x60, 0x00, 0x60, 0x60, 0x00, 0x60, 0x60, 0x00, 0x00,
    0x60, 0x60, 0x00, 0x60, 0x20, 0x40, 0x10, 0x20, 0x40, 0x80, 0x40, 0x20, 0x10, 0x00, 0x00, 0xf8,
    0x00, 0xf8, 0x00, 0x00, 0x40, 0x20, 0x10, 0x08, 0x10, 0x20, 0x40, 0x70, 0x88, 0x08, 0x10, 0x20,
    0x00, 0x20, 0x70, 0x88, 0x08, 0x68, 0xa8, 0xa8, 0x70, 0x70, 0x88, 0x88, 0xf8, 0x88, 0x88, 0x88,
    0xf0, 0x88, 0x88, 0xf0, 0x88, 0x88, 0xf0, 0x70, 0x88, 0x80, 0x80, 0x80, 0x88, 0x70, 0xe0, 0x90,
    0x88, 0x88, 0x88, 0x90, 0xe0, 0xf8, 0x80, 0x80, 0xf0, 0x80, 0x80, 0xf8, 0xf8, 0x80, 0x80, 0xf0,
    0x80, 0x80, 0x80, 0x70, 0x88, 0x80, 0xb8, 0x88, 0x88, 0x78, 0x88, 0x88, 0x88, 0xf8, 0x88, 0x88,
    0x88, 0x70, 0x20, 0x20, 0x20, 0x20, 0x20, 0x70, 0x38, 0x10, 0x10, 0x10, 0x10, 0x90, 0x60, 0x88,
    0x90, 0xa0, 0xc0, 0xa0, 0x90, 0x88, 0x80, 0x80, 0x80, 0x80, 0x80, 0x80, 0xf8, 0x88, 0xd8, 0xa8,
    0xa8, 0x88, 0x88, 0x88, 0x88, 0x88, 0xc8, 0xa8, 0x98, 0x88, 0x88, 0x70, 0x88, 0x88, 0x88, 0x88,
    0x88, 0x70, 0xf0, 0x88, 0x88, 0xf0, 0x80, 0x80, 0x80, 0x70, 0x88, 0x88, 0x88, 0xa8, 0x90, 0x68,
    0xf0, 0x88, 0x88, 0xf0, 0xa0, 0x90, 0x88, 0x78, 0x80, 0x80, 0x70, 0x08, 0x08, 0xf0, 0xf8, 0x20,
    0x20, 0x20, 0x20, 0x20, 0x20, 0x88, 0x88, 0x88, 0x88, 0x88, 0x88, 0x70, 0x88, 0x88, 0x88, 0x88,
    0x88, 0x50, 0x20, 0x88, 0x88, 0x88, 0xa8, 0xa8, 0xa8, 0x50, 0x88, 0x88, 0x50, 0x20, 0x50, 0x88,
    0x88, 0x88, 0x88, 0x50, 0x20, 0x20, 0x20, 0x20, 0xf8, 0x08, 0x10, 0x20, 0x40, 0x80, 0xf8, 0x70,
    0x40, 0x40, 0x40, 0x40, 0x40, 0x70, 0x00, 0x80, 0x40, 0x20, 0x10, 0x08, 0x00, 0x70, 0x10, 0x10,
    0x10, 0x10, 0x10, 0x70, 0x20, 0x50, 0x88, 0x00, 0x00, 0x00, 0x00, 0x00, 0x00, 0x00, 0x00, 0x00,
    0x00, 0xf8, 0x40, 0x20, 0x10, 0x00, 0x00, 0x00, 0x00, 0x00, 0x00, 0x70, 0x08, 0x78, 0x88, 0x78,
    0x80, 0x80, 0xb0, 0xc8, 0x88, 0x88, 0xf0, 0x00, 0x00, 0x70, 0x80, 0x80, 0x88, 0x70, 0x08, 0x08,
    0x68, 0x98, 0x88, 0x88, 0x78, 0x00, 0x00, 0x70, 0x88, 0xf8, 0x80, 0x70, 0x30, 0x48, 0x40, 0xe0,
    0x40, 0x40, 0x40, 0x00, 0x78, 0x88, 0x88, 0x78, 0x08, 0x70, 0x80, 0x80, 0xb0, 0xc8, 0x88, 0x88,
    0x88, 0x20, 0x00, 0x60, 0x20, 0x20, 0x20, 0x70, 0x10, 0x00, 0x30, 0x10, 0x10, 0x90, 0x60, 0x80,
    0x80, 0x90, 0xa0, 0xc0, 0xa0, 0x90, 0x60, 0x20, 0x20, 0x20, 0x20, 0x20, 0x70, 0x00, 0x00, 0xd0,
    0xa8, 0xa8, 0x88, 0x88, 0x00, 0x00, 0xb0, 0xc8, 0x88, 0x88, 0x88, 0x00, 0x00, 0x70, 0x88, 0x88,
    0x88, 0x70, 0x00, 0x00, 0xf0, 0x88, 0xf0, 0x80, 0x80, 0x00, 0x00, 0x68, 0x98, 0x78, 0x08, 0x08,
    0x00, 0x00, 0xb0, 0xc8, 0x80, 0x80, 0x80, 0x00, 0x00, 0x70, 0x80, 0x70, 0x08, 0xf0, 0x40, 0x40,
    0xe0, 0x40, 0x40, 0x48, 0x30, 0x00, 0x00, 0x88, 0x88, 0x88, 0x98, 0x68, 0x00, 0x00, 0x88, 0x88,
    0x88, 0x50, 0x20, 0x00, 0x00, 0x88, 0x88, 0xa8, 0xa8, 0x50, 0x00, 0x00, 0x88, 0x50, 0x20, 0x50,
    0x88, 0x00, 0x00, 0x88, 0x88, 0x78, 0x08, 0x70, 0x00, 0x00, 0xf8, 0x10, 0x20, 0x40, 0xf8, 0x10,
    0x20, 0x20, 0x40, 0x20, 0x20, 0x10, 0x20, 0x20, 0x20, 0x20, 0x20, 0x20, 0x20, 0x40, 0x20, 0x20,
    0x10, 0x20, 0x20, 0x40, 0x00, 0x00, 0x40, 0xa8, 0x10, 0x00, 0x00,
];

/// The built-in font, parsed.
pub fn default_font() -> (f: Font<'static>)
    ensures
        spec_font_parse(DEFAULT@) == Ok::<FontSpec, FontError>(f@),
        f@.cell_w == 5 && f@.cell_h == 7 && f@.first_char == 32 && f@.count == 95,
{
    let bytes: &'static [u8] = &DEFAULT;
    assert(bytes@.len() == 683);
    assert(bytes@[0] == 0x43 && bytes@[1] == 0x50 && bytes@[2] == 0x46 && bytes@[3] == 0x4e);
    assert(bytes@[4] == 1 && bytes@[5] == 0 && bytes@[6] == 5 && bytes@[7] == 7);
    assert(le_u32(bytes@, 10) == 32 && le_u32(bytes@, 14) == 95);
    match Font::parse(bytes) {
        Ok(f) => f,
        Err(_) => {
            assert(false);
            Font { cell_w: 1, cell_h: 1, advance: 1, line_height: 1, first_char: 0, count: 0, glyphs: bytes }
        },
    }
}

} // verus!

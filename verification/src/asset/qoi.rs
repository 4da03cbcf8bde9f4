//! QOI image decoding.
//!
//! QOI rather than PNG because it is the only lossless format whose decoder is
//! small enough to own outright: no entropy coder, no filters, no zlib. Every
//! read is bounds-checked and a short buffer becomes
//! [`QoiError::UnexpectedEnd`], because assets can come off a card someone
//! else wrote and a panic on bare metal is a dead dashboard.
//!
//! The format is stated chunk by chunk in [`spec_qoi_chunk`]; [`decode`] is
//! proved to produce exactly what repeating that chunk step yields.
use vstd::prelude::*;

use crate::color::{spec_rgba, Color};

verus! {

/// What a QOI stream says about itself.
#[derive(Clone, Copy, PartialEq, Eq, Structural, Debug)]
pub struct QoiHeader {
    /// Image width in pixels. Never zero in a valid stream.
    pub width: u32,
    /// Image height in pixels. Never zero in a valid stream.
    pub height: u32,
    /// 3 for RGB, 4 for RGBA. Advisory: the decoder always produces RGBA.
    pub channels: u8,
    /// 0 for sRGB with a linear alpha, 1 for all channels linear. Advisory.
    pub colorspace: u8,
}

/// Why a QOI stream could not be decoded.
#[derive(Clone, Copy, PartialEq, Eq, Structural, Debug)]
pub enum QoiError {
    /// The first four bytes were not `qoif`.
    BadMagic,
    /// The header parsed but described an impossible image.
    BadHeader,
    /// The stream ended in the middle of a chunk or before the last pixel.
    UnexpectedEnd,
    /// `width * height` is more than this decoder will attempt.
    TooLarge,
    /// The eight-byte end marker was missing or wrong.
    BadPadding,
}

/// Largest image this decoder will attempt, in pixels.
///
/// `checked_mul` is not enough on its own: `u32::MAX * u32::MAX` fits in a
/// 64-bit `usize`, so the multiply succeeds and the allocation then aborts on
/// capacity overflow. 256 Mpx is far beyond any panel this crate targets and
/// well inside what `Vec` can express on a 32-bit machine.
pub const MAX_PIXELS: usize = 0x1000_0000;

/// Length of the fixed header.
pub const HEADER_LEN: usize = 14;

/// The decoder's state between two chunks.
pub struct QoiState {
    /// Offset of the next chunk, from the start of the stream.
    pub pos: int,
    /// The previous pixel.
    pub px: Color,
    /// The running array of recently seen pixels, always 64 long.
    pub index: Seq<Color>,
    /// Pixels decoded so far.
    pub out: Seq<Color>,
}

/// `x` reduced into a byte, the way QOI's wrapping deltas are.
pub open spec fn wrap8(x: int) -> u8 {
    (x % 256) as u8
}

/// The spec's running-array position for a pixel.
pub open spec fn spec_qoi_hash(c: Color) -> int {
    (c.r * 3 + c.g * 5 + c.b * 7 + c.a * 11) % 64
}

/// A big-endian `u32` at `at`.
pub open spec fn be_u32(b: Seq<u8>, at: int) -> int {
    b[at] * 0x100_0000 + b[at + 1] * 0x1_0000 + b[at + 2] * 0x100 + b[at + 3]
}

/// What the header of `bytes` says, or why it cannot be used.
pub open spec fn spec_qoi_header(bytes: Seq<u8>) -> Result<QoiHeader, QoiError> {
    if bytes.len() < 14 {
        Err(QoiError::BadHeader)
    } else if !(bytes[0] == 0x71 && bytes[1] == 0x6f && bytes[2] == 0x69 && bytes[3] == 0x66) {
        Err(QoiError::BadMagic)
    } else {
        let w = be_u32(bytes, 4);
        let h = be_u32(bytes, 8);
        let ch = bytes[12];
        let cs = bytes[13];
        if w == 0 || h == 0 {
            Err(QoiError::BadHeader)
        } else if !(ch == 3 || ch == 4) || cs > 1 {
            Err(QoiError::BadHeader)
        } else {
            Ok(QoiHeader { width: w as u32, height: h as u32, channels: ch, colorspace: cs })
        }
    }
}

/// `s` after emitting `px` `k` times, with the next chunk at `pos`.
pub open spec fn qoi_emit(s: QoiState, px: Color, pos: int, k: nat) -> QoiState {
    QoiState {
        pos,
        px,
        index: s.index.update(spec_qoi_hash(px), px),
        out: s.out + Seq::new(k, |j: int| px),
    }
}

/// Decode the one chunk at `s.pos` of an image `total` pixels long.
pub open spec fn spec_qoi_chunk(bytes: Seq<u8>, s: QoiState, total: int) -> Result<
    QoiState,
    QoiError,
> {
    let p = s.pos;
    if p >= bytes.len() {
        Err(QoiError::UnexpectedEnd)
    } else {
        let b0 = bytes[p];
        if b0 == 0xfe {
            // OP_RGB: alpha carries over.
            if p + 4 > bytes.len() {
                Err(QoiError::UnexpectedEnd)
            } else {
                Ok(qoi_emit(s, spec_rgba(bytes[p + 1], bytes[p + 2], bytes[p + 3], s.px.a), p + 4, 1))
            }
        } else if b0 == 0xff {
            // OP_RGBA
            if p + 5 > bytes.len() {
                Err(QoiError::UnexpectedEnd)
            } else {
                Ok(
                    qoi_emit(
                        s,
                        spec_rgba(bytes[p + 1], bytes[p + 2], bytes[p + 3], bytes[p + 4]),
                        p + 5,
                        1,
                    ),
                )
            }
        } else if b0 & 0xc0 == 0x00 {
            // OP_INDEX
            Ok(qoi_emit(s, s.index[(b0 & 0x3f) as int], p + 1, 1))
        } else if b0 & 0xc0 == 0x40 {
            // OP_DIFF: each delta biased by 2, wrapping.
            let dr = ((b0 >> 4u8) & 3) as int - 2;
            let dg = ((b0 >> 2u8) & 3) as int - 2;
            let db = (b0 & 3) as int - 2;
            Ok(
                qoi_emit(
                    s,
                    spec_rgba(wrap8(s.px.r + dr), wrap8(s.px.g + dg), wrap8(s.px.b + db), s.px.a),
                    p + 1,
                    1,
                ),
            )
        } else if b0 & 0xc0 == 0x80 {
            // OP_LUMA: red and blue are relative to green.
            if p + 2 > bytes.len() {
                Err(QoiError::UnexpectedEnd)
            } else {
                let b1 = bytes[p + 1];
                let dg = (b0 & 0x3f) as int - 32;
                let dr = ((b1 >> 4u8) & 0x0f) as int - 8;
                let db = (b1 & 0x0f) as int - 8;
                Ok(
                    qoi_emit(
                        s,
                        spec_rgba(
                            wrap8(s.px.r + dg + dr),
                            wrap8(s.px.g + dg),
                            wrap8(s.px.b + dg + db),
                            s.px.a,
                        ),
                        p + 2,
                        1,
                    ),
                )
            }
        } else {
            // OP_RUN: may not overrun the image.
            let run = (b0 & 0x3f) as int + 1;
            if s.out.len() + run > total {
                Err(QoiError::UnexpectedEnd)
            } else {
                Ok(qoi_emit(s, s.px, p + 1, run as nat))
            }
        }
    }
}

/// A chunk always emits at least one pixel and never passes `total`.
pub proof fn lemma_qoi_chunk_grows(bytes: Seq<u8>, s: QoiState, total: int)
    requires
        s.out.len() < total,
    ensures
        spec_qoi_chunk(bytes, s, total) matches Ok(s2) ==> s.out.len() < s2.out.len() <= total
            && s2.pos > s.pos,
{
}

/// Decode chunks from `s` until `total` pixels have been produced.
pub open spec fn spec_qoi_pixels(bytes: Seq<u8>, s: QoiState, total: int) -> Result<
    QoiState,
    QoiError,
>
    decreases total - s.out.len(),
{
    if s.out.len() >= total {
        Ok(s)
    } else {
        match spec_qoi_chunk(bytes, s, total) {
            Err(e) => Err(e),
            Ok(s2) => {
                proof {
                    lemma_qoi_chunk_grows(bytes, s, total);
                }
                spec_qoi_pixels(bytes, s2, total)
            },
        }
    }
}

/// One step of [`spec_qoi_pixels`]: before the last pixel, decoding from
/// `s` is decoding its chunk and carrying on from there.
pub proof fn lemma_qoi_pixels_unfold(bytes: Seq<u8>, s: QoiState, total: int)
    requires
        s.out.len() < total,
    ensures
        match spec_qoi_chunk(bytes, s, total) {
            Err(e) => spec_qoi_pixels(bytes, s, total) == Err::<QoiState, QoiError>(e),
            Ok(s2) => spec_qoi_pixels(bytes, s, total) == spec_qoi_pixels(bytes, s2, total),
        },
{
}

/// The state before the first chunk: previous pixel opaque black, running
/// array all-zero including alpha.
pub open spec fn qoi_start() -> QoiState {
    QoiState {
        pos: 14,
        px: spec_rgba(0, 0, 0, 255),
        index: Seq::new(64, |i: int| spec_rgba(0, 0, 0, 0)),
        out: Seq::empty(),
    }
}

/// Whether the eight bytes at `at` are the end marker `0 0 0 0 0 0 0 1`.
pub open spec fn qoi_end_marker_at(bytes: Seq<u8>, at: int) -> bool {
    &&& at + 8 <= bytes.len()
    &&& bytes[at] == 0 && bytes[at + 1] == 0 && bytes[at + 2] == 0 && bytes[at + 3] == 0
    &&& bytes[at + 4] == 0 && bytes[at + 5] == 0 && bytes[at + 6] == 0 && bytes[at + 7] == 1
}

/// What decoding `bytes` gives: the header and every pixel, or the error.
pub open spec fn spec_qoi_decode(bytes: Seq<u8>) -> Result<(QoiHeader, Seq<Color>), QoiError> {
    match spec_qoi_header(bytes) {
        Err(e) => Err(e),
        Ok(h) => {
            let total = h.width * h.height;
            if total > MAX_PIXELS {
                Err(QoiError::TooLarge)
            } else {
                match spec_qoi_pixels(bytes, qoi_start(), total) {
                    Err(e) => Err(e),
                    Ok(s) => if qoi_end_marker_at(bytes, s.pos) {
                        Ok((h, s.out))
                    } else {
                        Err(QoiError::BadPadding)
                    },
                }
            }
        },
    }
}

/// Read just the header, without decoding any pixels.
///
/// Useful for laying out a scene before its assets have been decoded.
/// A zero dimension is rejected here, so a caller never has to special-case
/// an empty image.
pub fn header(bytes: &[u8]) -> (res: Result<QoiHeader, QoiError>)
    ensures
        res == spec_qoi_header(bytes@),
{
    if bytes.len() < HEADER_LEN {
        return Err(QoiError::BadHeader);
    }
    // "qoif"
    if !(bytes[0] == 0x71 && bytes[1] == 0x6f && bytes[2] == 0x69 && bytes[3] == 0x66) {
        return Err(QoiError::BadMagic);
    }
    let width = be_u32_at(bytes, 4);
    let height = be_u32_at(bytes, 8);
    let channels = bytes[12];
    let colorspace = bytes[13];
    if width == 0 || height == 0 {
        return Err(QoiError::BadHeader);
    }
    if !(channels == 3 || channels == 4) || colorspace > 1 {
        return Err(QoiError::BadHeader);
    }
    Ok(QoiHeader { width, height, channels, colorspace })
}

/// The big-endian `u32` at `at`.
fn be_u32_at(bytes: &[u8], at: usize) -> (res: u32)
    requires
        at + 4 <= bytes@.len(),
    ensures
        res == be_u32(bytes@, at as int),
{
    (bytes[at] as u32) * 0x100_0000 + (bytes[at + 1] as u32) * 0x1_0000 + (bytes[at + 2] as u32)
        * 0x100 + (bytes[at + 3] as u32)
}

/// The spec's running-array index.
fn hash(c: Color) -> (res: usize)
    ensures
        res == spec_qoi_hash(c),
        res < 64,
{
    ((c.r as usize) * 3 + (c.g as usize) * 5 + (c.b as usize) * 7 + (c.a as usize) * 11) % 64
}

/// `(x + d) mod 256`, for a delta `d` already biased to be non-negative by
/// `bias` (so the true delta is `d - bias`).
fn add_wrapping(x: u8, d: u32, bias: u32) -> (res: u8)
    requires
        d <= 512,
        bias <= 512,
    ensures
        res == wrap8(x + d - bias),
{
    let v = (x as u32 + 512 + d - bias) % 256;
    proof {
        let t = x + d - bias;
        vstd::arithmetic::div_mod::lemma_mod_add_multiples_vanish(t, 256);
        vstd::arithmetic::div_mod::lemma_mod_add_multiples_vanish(t + 256, 256);
        assert((t + 512) % 256 == t % 256);
    }
    v as u8
}

/// Decode the chunk at `i`: where the next chunk starts, the pixel it
/// produces, and how many times.
fn decode_chunk(
    bytes: &[u8],
    i: usize,
    px: Color,
    running: &Vec<Color>,
    produced: usize,
    Ghost(so_far): Ghost<Seq<Color>>,
    total: usize,
) -> (res: Result<(usize, Color, usize), QoiError>)
    requires
        running@.len() == 64,
        so_far.len() < total,
        produced == so_far.len(),
        total <= MAX_PIXELS,
        i <= bytes@.len(),
    ensures
        ({
            let s = QoiState { pos: i as int, px, index: running@, out: so_far };
            match res {
                Ok((i2, px2, k)) => spec_qoi_chunk(bytes@, s, total as int) matches Ok(s2) && s2 == qoi_emit(s, px2, i2 as int, k as nat)
                    && i2 <= bytes@.len() && k >= 1,
                Err(e) => spec_qoi_chunk(bytes@, s, total as int) == Err::<QoiState, QoiError>(e),
            }
        }),
{
    if i >= bytes.len() {
        return Err(QoiError::UnexpectedEnd);
    }
    let b0 = bytes[i];
    if b0 == 0xfe {
        if bytes.len() - i < 4 {
            return Err(QoiError::UnexpectedEnd);
        }
        // Alpha deliberately carries over: OP_RGB means "same alpha".
        Ok((i + 4, Color::rgba(bytes[i + 1], bytes[i + 2], bytes[i + 3], px.a), 1))
    } else if b0 == 0xff {
        if bytes.len() - i < 5 {
            return Err(QoiError::UnexpectedEnd);
        }
        Ok((i + 5, Color::rgba(bytes[i + 1], bytes[i + 2], bytes[i + 3], bytes[i + 4]), 1))
    } else if b0 & 0xc0 == 0x00 {
        assert(b0 & 0x3f < 64) by (bit_vector);
        Ok((i + 1, running[(b0 & 0x3f) as usize], 1))
    } else if b0 & 0xc0 == 0x40 {
        assert((b0 >> 4u8) & 3 <= 3 && (b0 >> 2u8) & 3 <= 3 && b0 & 3 <= 3) by (bit_vector);
        // Each delta is biased by 2 and wraps: a channel at 255 plus 1 is 0,
        // and that is the format, not an overflow.
        Ok(
            (
                i + 1,
                Color::rgba(
                    add_wrapping(px.r, ((b0 >> 4u8) & 3) as u32, 2),
                    add_wrapping(px.g, ((b0 >> 2u8) & 3) as u32, 2),
                    add_wrapping(px.b, (b0 & 3) as u32, 2),
                    px.a,
                ),
                1,
            ),
        )
    } else if b0 & 0xc0 == 0x80 {
        if bytes.len() - i < 2 {
            return Err(QoiError::UnexpectedEnd);
        }
        let b1 = bytes[i + 1];
        assert(b0 & 0x3f <= 63 && (b1 >> 4u8) & 0x0f <= 15 && b1 & 0x0f <= 15) by (bit_vector);
        let dg = (b0 & 0x3f) as u32;
        // dr and db are stored relative to dg, so the green delta has to be
        // folded back into both.
        Ok(
            (
                i + 2,
                Color::rgba(
                    add_wrapping(px.r, dg + ((b1 >> 4u8) & 0x0f) as u32, 40),
                    add_wrapping(px.g, dg, 32),
                    add_wrapping(px.b, dg + (b1 & 0x0f) as u32, 40),
                    px.a,
                ),
                1,
            ),
        )
    } else {
        assert(b0 & 0x3f <= 63) by (bit_vector);
        let run = (b0 & 0x3f) as usize + 1;
        // A run may not overrun the image. Clamping instead would silently
        // accept a corrupt stream and shift every later pixel.
        if total - produced < run {
            return Err(QoiError::UnexpectedEnd);
        }
        Ok((i + 1, px, run))
    }
}

/// Decode a whole QOI stream to [`Color`] pixels, row-major from the top left.
///
/// The result is always four channels regardless of what the header says: a
/// three-channel image decodes with alpha 255 throughout, so callers have one
/// layout to blit rather than two. Never panics, on any input.
pub fn decode(bytes: &[u8]) -> (res: Result<(QoiHeader, Vec<Color>), QoiError>)
    ensures
        match res {
            Ok((h, px)) => spec_qoi_decode(bytes@) == Ok::<(QoiHeader, Seq<Color>), QoiError>(
                (h, px@),
            ),
            Err(e) => spec_qoi_decode(bytes@) == Err::<(QoiHeader, Seq<Color>), QoiError>(e),
        },
        res matches Ok((h, px)) ==> px@.len() == h.width * h.height && spec_qoi_header(bytes@)
            == Ok::<QoiHeader, QoiError>(h),
{
    let hdr = match header(bytes) {
        Ok(h) => h,
        Err(e) => return Err(e),
    };
    let (w, h) = (hdr.width as u64, hdr.height as u64);
    assert(w * h <= u64::MAX) by (nonlinear_arith)
        requires
            w <= u32::MAX,
            h <= u32::MAX,
    ;
    let wide = w * h;
    if wide > MAX_PIXELS as u64 {
        return Err(QoiError::TooLarge);
    }
    let total = wide as usize;

    let mut out: Vec<Color> = Vec::with_capacity(total);
    // The running array starts all-zero including alpha, which is *not* the
    // initial previous pixel. Seeding it with the previous pixel instead is
    // the classic QOI bug: it makes an OP_INDEX 53 at the head of a stream
    // decode to opaque black rather than transparent.
    let mut running: Vec<Color> = Vec::with_capacity(64);
    let mut k: usize = 0;
    while k < 64
        invariant
            k <= 64,
            running@ == Seq::new(k as nat, |i: int| spec_rgba(0, 0, 0, 0)),
        decreases 64 - k,
    {
        running.push(Color::rgba(0, 0, 0, 0));
        k += 1;
    }
    let mut px = Color::rgba(0, 0, 0, 255);
    let mut i: usize = HEADER_LEN;
    let ghost start = qoi_start();
    assert(running@ == start.index);

    while out.len() < total
        invariant
            spec_qoi_header(bytes@) == Ok::<QoiHeader, QoiError>(hdr),
            start == qoi_start(),
            total == hdr.width * hdr.height,
            total <= MAX_PIXELS,
            out@.len() <= total,
            running@.len() == 64,
            i <= bytes@.len(),
            spec_qoi_pixels(bytes@, QoiState { pos: i as int, px, index: running@, out: out@ }, total as int)
                == spec_qoi_pixels(bytes@, start, total as int),
        decreases total - out@.len(),
    {
        let ghost cur = QoiState { pos: i as int, px, index: running@, out: out@ };
        let (next_i, next_px, count) = match decode_chunk(bytes, i, px, &running, out.len(), Ghost(out@), total) {
            Ok(step) => step,
            Err(e) => {
                proof {
                    lemma_qoi_pixels_unfold(bytes@, cur, total as int);
                    assert(spec_qoi_pixels(bytes@, start, total as int) == Err::<QoiState, QoiError>(e));
                    let hh = spec_qoi_header(bytes@)->Ok_0;
                    assert(hh == hdr);
                    assert(hh.width * hh.height == total);
                    assert(start == qoi_start());
                    assert(spec_qoi_pixels(bytes@, qoi_start(), hh.width * hh.height) == Err::<QoiState, QoiError>(e));
                    assert(spec_qoi_decode(bytes@) == Err::<(QoiHeader, Seq<Color>), QoiError>(e));
                }
                return Err(e);
            },
        };
        proof {
            lemma_qoi_chunk_grows(bytes@, cur, total as int);
            lemma_qoi_pixels_unfold(bytes@, cur, total as int);
        }
        let ghost before = out@;
        let mut r: usize = 0;
        while r < count
            invariant
                r <= count,
                out@ == before + Seq::new(r as nat, |j: int| next_px),
            decreases count - r,
        {
            out.push(next_px);
            r += 1;
            assert(out@ == before + Seq::new(r as nat, |j: int| next_px));
        }
        let h = hash(next_px);
        running.set(h, next_px);
        px = next_px;
        i = next_i;
        assert(QoiState { pos: i as int, px, index: running@, out: out@ } == qoi_emit(
            cur,
            next_px,
            next_i as int,
            count as nat,
        ));
    }
    let ghost fin = QoiState { pos: i as int, px, index: running@, out: out@ };
    assert(spec_qoi_pixels(bytes@, start, total as int) == Ok::<QoiState, QoiError>(fin));

    // The end marker is what distinguishes a complete stream from one that
    // was cut after the last pixel happened to land on a boundary.
    if bytes.len() - i < 8 {
        return Err(QoiError::BadPadding);
    }
    if !(bytes[i] == 0 && bytes[i + 1] == 0 && bytes[i + 2] == 0 && bytes[i + 3] == 0
        && bytes[i + 4] == 0 && bytes[i + 5] == 0 && bytes[i + 6] == 0 && bytes[i + 7] == 1) {
        return Err(QoiError::BadPadding);
    }
    Ok((hdr, out))
}

/// A QOI header is the four bytes `qoif`, then the width and the height as
/// big-endian 32-bit numbers, neither zero, then 3 or 4 channels and a
/// colour space of 0 or 1; a stream too short for it is `BadHeader`, and
/// one with other first bytes is `BadMagic`.
pub proof fn lemma_qoi_header_layout(bytes: Seq<u8>)
    ensures
        bytes.len() < 14 ==> spec_qoi_header(bytes) == Err::<QoiHeader, QoiError>(QoiError::BadHeader),
        bytes.len() >= 14 && bytes.subrange(0, 4) != seq![0x71u8, 0x6f, 0x69, 0x66] ==> spec_qoi_header(bytes)
            == Err::<QoiHeader, QoiError>(QoiError::BadMagic),
        spec_qoi_header(bytes) matches Ok(h) ==> {
            &&& bytes.subrange(0, 4) == seq![0x71u8, 0x6f, 0x69, 0x66]
            &&& h.width == ((bytes[4] as int * 256 + bytes[5]) * 256 + bytes[6]) * 256 + bytes[7]
            &&& h.height == ((bytes[8] as int * 256 + bytes[9]) * 256 + bytes[10]) * 256 + bytes[11]
            &&& h.width > 0 && h.height > 0
            &&& h.channels == bytes[12] && (h.channels == 3 || h.channels == 4)
            &&& h.colorspace == bytes[13] && h.colorspace <= 1
        },
        bytes.len() >= 14 && bytes.subrange(0, 4) == seq![0x71u8, 0x6f, 0x69, 0x66] && (bytes[4] != 0
            || bytes[5] != 0 || bytes[6] != 0 || bytes[7] != 0) && (bytes[8] != 0 || bytes[9] != 0
            || bytes[10] != 0 || bytes[11] != 0) && (bytes[12] == 3 || bytes[12] == 4) && bytes[13] <= 1
            ==> spec_qoi_header(bytes) is Ok,
{
    if bytes.len() >= 14 {
        let m = bytes.subrange(0, 4);
        assert(m == seq![0x71u8, 0x6f, 0x69, 0x66] <==> (bytes[0] == 0x71 && bytes[1] == 0x6f && bytes[2] == 0x69
            && bytes[3] == 0x66)) by {
            if bytes[0] == 0x71 && bytes[1] == 0x6f && bytes[2] == 0x69 && bytes[3] == 0x66 {
                assert(m =~= seq![0x71u8, 0x6f, 0x69, 0x66]);
            }
            if m == seq![0x71u8, 0x6f, 0x69, 0x66] {
                assert(m[0] == bytes[0] && m[1] == bytes[1] && m[2] == bytes[2] && m[3] == bytes[3]);
            }
        }
    }
}

/// A decoded stream ends its pixel data with the eight bytes
/// `0 0 0 0 0 0 0 1`.
pub proof fn lemma_qoi_ends_with_marker(bytes: Seq<u8>)
    ensures
        spec_qoi_decode(bytes) is Ok ==> exists|at: int|
            14 <= at && at + 8 <= bytes.len() && #[trigger] bytes.subrange(at, at + 8) == seq![
                0u8,
                0,
                0,
                0,
                0,
                0,
                0,
                1,
            ],
{
    if let Ok((h, px)) = spec_qoi_decode(bytes) {
        let total = h.width * h.height;
        let s = spec_qoi_pixels(bytes, qoi_start(), total)->Ok_0;
        lemma_qoi_pixels_pos(bytes, qoi_start(), total);
        let at = s.pos;
        assert(bytes.subrange(at, at + 8) =~= seq![0u8, 0, 0, 0, 0, 0, 0, 1]);
    }
}

/// Decoding on from `s` never moves back before it.
proof fn lemma_qoi_pixels_pos(bytes: Seq<u8>, s: QoiState, total: int)
    ensures
        spec_qoi_pixels(bytes, s, total) matches Ok(s2) ==> s.pos <= s2.pos,
    decreases total - s.out.len(),
{
    if s.out.len() < total {
        lemma_qoi_chunk_grows(bytes, s, total);
        if let Ok(s1) = spec_qoi_chunk(bytes, s, total) {
            lemma_qoi_pixels_pos(bytes, s1, total);
        }
    }
}

/// Whether `r` is `s` with `c` appended `k` times, the next chunk at `pos`,
/// and `c` filed in the running array at `(3r + 5g + 7b + 11a) mod 64`.
pub open spec fn appends(s: QoiState, r: Result<QoiState, QoiError>, pos: int, c: Color, k: int) -> bool {
    &&& r is Ok
    &&& r->Ok_0.pos == pos
    &&& r->Ok_0.px == c
    &&& r->Ok_0.out.len() == s.out.len() + k
    &&& r->Ok_0.out.subrange(0, s.out.len() as int) == s.out
    &&& forall|j: int| s.out.len() <= j < r->Ok_0.out.len() ==> #[trigger] r->Ok_0.out[j] == c
    &&& r->Ok_0.index == s.index.update((c.r * 3 + c.g * 5 + c.b * 7 + c.a * 11) % 64, c)
}

/// What one chunk means, opcode by opcode, in plain arithmetic on its
/// bytes, with `b0` its first byte and `(r, g, b, a)` the previous pixel.
/// Every channel wraps modulo 256, and a chunk cut short by the end of the
/// stream, or a run past the image's last pixel, is `UnexpectedEnd`.
///
/// - `0xfe`: the next three bytes as red, green and blue, `a` kept.
/// - `0xff`: the next four bytes as red, green, blue and alpha.
/// - below `0x40`: the running array's slot `b0`.
/// - below `0x80`: each of `r, g, b` moved by its two-bit field less 2.
/// - below `0xc0`: green moved by `dg = (b0 mod 64) - 32`, red and blue by
///   `dg` plus the next byte's high and low nibble less 8.
/// - otherwise: the previous pixel again, `(b0 mod 64) + 1` times.
pub proof fn lemma_qoi_chunk_meaning(bytes: Seq<u8>, s: QoiState, total: int)
    requires
        0 <= s.pos < bytes.len(),
        s.out.len() < total,
    ensures
        ({
            let (p, b0, res) = (s.pos, bytes[s.pos] as int, spec_qoi_chunk(bytes, s, total));
            b0 == 0xfe ==> if p + 4 <= bytes.len() {
                appends(s, res, p + 4, spec_rgba(bytes[p + 1], bytes[p + 2], bytes[p + 3], s.px.a), 1)
            } else {
                res == Err::<QoiState, QoiError>(QoiError::UnexpectedEnd)
            }
        }),
        ({
            let (p, b0, res) = (s.pos, bytes[s.pos] as int, spec_qoi_chunk(bytes, s, total));
            b0 == 0xff ==> if p + 5 <= bytes.len() {
                appends(s, res, p + 5, spec_rgba(bytes[p + 1], bytes[p + 2], bytes[p + 3], bytes[p + 4]), 1)
            } else {
                res == Err::<QoiState, QoiError>(QoiError::UnexpectedEnd)
            }
        }),
        ({
            let (p, b0, res) = (s.pos, bytes[s.pos] as int, spec_qoi_chunk(bytes, s, total));
            b0 < 0x40 ==> appends(s, res, p + 1, s.index[b0], 1)
        }),
        ({
            let (p, b0, res) = (s.pos, bytes[s.pos] as int, spec_qoi_chunk(bytes, s, total));
            let (r, g, b) = (s.px.r as int, s.px.g as int, s.px.b as int);
            0x40 <= b0 < 0x80 ==> appends(
                s,
                res,
                p + 1,
                spec_rgba(
                    ((r + (b0 - 0x40) / 16 - 2) % 256) as u8,
                    ((g + (b0 / 4) % 4 - 2) % 256) as u8,
                    ((b + b0 % 4 - 2) % 256) as u8,
                    s.px.a,
                ),
                1,
            )
        }),
        ({
            let (p, b0, res) = (s.pos, bytes[s.pos] as int, spec_qoi_chunk(bytes, s, total));
            let (r, g, b) = (s.px.r as int, s.px.g as int, s.px.b as int);
            let b1 = bytes[p + 1] as int;
            let dg = b0 - 0x80 - 32;
            0x80 <= b0 < 0xc0 ==> if p + 2 <= bytes.len() {
                appends(
                    s,
                    res,
                    p + 2,
                    spec_rgba(
                        ((r + dg + b1 / 16 - 8) % 256) as u8,
                        ((g + dg) % 256) as u8,
                        ((b + dg + b1 % 16 - 8) % 256) as u8,
                        s.px.a,
                    ),
                    1,
                )
            } else {
                res == Err::<QoiState, QoiError>(QoiError::UnexpectedEnd)
            }
        }),
        ({
            let (p, b0, res) = (s.pos, bytes[s.pos] as int, spec_qoi_chunk(bytes, s, total));
            0xc0 <= b0 < 0xfe ==> if s.out.len() + (b0 - 0xc0 + 1) <= total {
                appends(s, res, p + 1, s.px, b0 - 0xc0 + 1)
            } else {
                res == Err::<QoiState, QoiError>(QoiError::UnexpectedEnd)
            }
        }),
{
    let p = s.pos;
    let b0 = bytes[p];
    let res = spec_qoi_chunk(bytes, s, total);
    assert(b0 < 0x40 <==> b0 & 0xc0 == 0x00) by (bit_vector);
    assert(0x40 <= b0 < 0x80 <==> b0 & 0xc0 == 0x40) by (bit_vector);
    assert(0x80 <= b0 < 0xc0 <==> b0 & 0xc0 == 0x80) by (bit_vector);
    if b0 < 0x40 {
        assert(b0 & 0x3f == b0) by (bit_vector)
            requires
                b0 < 0x40,
        ;
        assert(res->Ok_0.out.subrange(0, s.out.len() as int) =~= s.out);
    } else if b0 < 0x80 {
        assert((b0 >> 4u8) & 3 == (b0 - 0x40) / 16 && (b0 >> 2u8) & 3 == (b0 / 4) % 4 && b0 & 3 == b0 % 4)
            by (bit_vector)
            requires
                0x40 <= b0 < 0x80,
        ;
        assert(res->Ok_0.out.subrange(0, s.out.len() as int) =~= s.out);
    } else if b0 < 0xc0 {
        if p + 2 <= bytes.len() {
            let b1 = bytes[p + 1];
            assert(b0 & 0x3f == b0 - 0x80) by (bit_vector)
                requires
                    0x80 <= b0 < 0xc0,
            ;
            assert((b1 >> 4u8) & 0x0f == b1 / 16 && b1 & 0x0f == b1 % 16) by (bit_vector);
            assert(res->Ok_0.out.subrange(0, s.out.len() as int) =~= s.out);
        }
    } else if b0 < 0xfe {
        assert(b0 & 0x3f == b0 - 0xc0) by (bit_vector)
            requires
                0xc0 <= b0 < 0xfe,
        ;
        if s.out.len() + (b0 - 0xc0 + 1) <= total {
            assert(res->Ok_0.out.subrange(0, s.out.len() as int) =~= s.out);
        }
    } else if b0 == 0xfe {
        if p + 4 <= bytes.len() {
            assert(res->Ok_0.out.subrange(0, s.out.len() as int) =~= s.out);
        }
    } else {
        if p + 5 <= bytes.len() {
            assert(res->Ok_0.out.subrange(0, s.out.len() as int) =~= s.out);
        }
    }
}

/// Decoding on from `s` keeps every pixel `s` already has.
proof fn lemma_qoi_pixels_keep(bytes: Seq<u8>, s: QoiState, total: int)
    ensures
        spec_qoi_pixels(bytes, s, total) matches Ok(s2) ==> s.out.len() <= s2.out.len()
            && s2.out.subrange(0, s.out.len() as int) =~= s.out,
    decreases total - s.out.len(),
{
    if s.out.len() < total {
        lemma_qoi_chunk_grows(bytes, s, total);
        if let Ok(s1) = spec_qoi_chunk(bytes, s, total) {
            lemma_qoi_pixels_keep(bytes, s1, total);
            if let Ok(s2) = spec_qoi_pixels(bytes, s1, total) {
                assert(s1.out.subrange(0, s.out.len() as int) =~= s.out);
                assert(s2.out.subrange(0, s.out.len() as int) =~= s1.out.subrange(0, s.out.len() as int));
            }
        }
    }
}

/// A decoded image starts from an opaque black previous pixel and a running
/// array of transparent black: its first pixel is that first chunk applied
/// to them. So an index chunk first gives transparent black, an RGB chunk
/// first keeps alpha 255, and a difference or luma chunk first moves from
/// `(0, 0, 0, 255)`.
pub proof fn lemma_qoi_first_pixel(bytes: Seq<u8>)
    ensures
        spec_qoi_decode(bytes) matches Ok((h, px)) ==> {
            let s0 = QoiState {
                pos: 14,
                px: spec_rgba(0, 0, 0, 255),
                index: Seq::new(64, |i: int| spec_rgba(0, 0, 0, 0)),
                out: Seq::empty(),
            };
            &&& bytes.len() > 14
            &&& spec_qoi_chunk(bytes, s0, h.width * h.height) matches Ok(s1)
            &&& px[0] == s1.px
            &&& bytes[14] < 0x40 ==> px[0] == spec_rgba(0, 0, 0, 0)
            &&& bytes[14] == 0xfe ==> px[0] == spec_rgba(bytes[15], bytes[16], bytes[17], 255)
        },
{
    if let Ok((h, px)) = spec_qoi_decode(bytes) {
        let total = h.width * h.height;
        let s0 = qoi_start();
        assert(total >= 1) by (nonlinear_arith)
            requires
                h.width >= 1,
                h.height >= 1,
                total == h.width * h.height,
        ;
        lemma_qoi_pixels_unfold(bytes, s0, total);
        if bytes.len() > 14 {
            lemma_qoi_chunk_meaning(bytes, s0, total);
            if let Ok(s1) = spec_qoi_chunk(bytes, s0, total) {
                lemma_qoi_chunk_grows(bytes, s0, total);
                lemma_qoi_pixels_keep(bytes, s1, total);
                let s2 = spec_qoi_pixels(bytes, s1, total)->Ok_0;
                assert(s2.out[0] == s2.out.subrange(0, s1.out.len() as int)[0]);
                assert(s1.out[0] == s1.px);
            }
        }
    }
}

/// Decoding pixels from a state not yet past `total` ends with exactly
/// `total` of them.
proof fn lemma_qoi_pixels_len(bytes: Seq<u8>, s: QoiState, total: int)
    requires
        s.out.len() <= total,
    ensures
        spec_qoi_pixels(bytes, s, total) matches Ok(s2) ==> s2.out.len() == total,
    decreases total - s.out.len(),
{
    if s.out.len() < total {
        lemma_qoi_chunk_grows(bytes, s, total);
        if let Ok(s2) = spec_qoi_chunk(bytes, s, total) {
            lemma_qoi_pixels_len(bytes, s2, total);
        }
    }
}

/// A decoded image is its header's width times height pixels, never more
/// than [`MAX_PIXELS`]; a bad header is the decode's error, and a good one
/// over that many pixels is `TooLarge`.
pub proof fn lemma_qoi_outcomes(bytes: Seq<u8>)
    ensures
        spec_qoi_header(bytes) matches Err(e) ==> spec_qoi_decode(bytes) == Err::<(QoiHeader, Seq<Color>), QoiError>(e),
        spec_qoi_header(bytes) matches Ok(h) && h.width * h.height > MAX_PIXELS ==> spec_qoi_decode(bytes) == Err::<
            (QoiHeader, Seq<Color>),
            QoiError,
        >(QoiError::TooLarge),
        spec_qoi_decode(bytes) matches Ok((h, px)) ==> spec_qoi_header(bytes) == Ok::<QoiHeader, QoiError>(h)
            && px.len() == h.width * h.height && px.len() <= MAX_PIXELS,
{
    if let Ok(h) = spec_qoi_header(bytes) {
        lemma_qoi_pixels_len(bytes, qoi_start(), h.width * h.height);
    }
}

} // verus!

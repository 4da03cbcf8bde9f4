//! GIF decoding.
//!
//! GIF rather than a video codec because it is the one animated format small
//! enough to own outright: a palette, a block structure, and LZW. Everything
//! after that is bookkeeping, and the bookkeeping is stated block by block in
//! [`spec_gif_blocks`].
pub mod lzw;

use vstd::prelude::*;

use crate::color::{spec_rgba, Color};
use lzw::{pow2, spec_lzw_decode};

verus! {

/// Why a GIF could not be read.
#[derive(Clone, Copy, PartialEq, Eq, Structural, Debug)]
pub enum GifError {
    /// The signature was not GIF87a or GIF89a.
    BadMagic,
    /// The file ended inside a structure.
    UnexpectedEnd,
    /// A header field held an impossible value.
    BadHeader,
    /// A feature this decoder does not implement.
    Unsupported,
    /// The compressed data could not be decoded.
    Corrupt,
}

/// A GIF's logical screen, and its global palette if it has one.
#[derive(Clone, Debug)]
pub struct Screen {
    /// Logical screen width in pixels.
    pub width: u16,
    /// Logical screen height in pixels.
    pub height: u16,
    /// Index into the global palette used for pixels no frame covers.
    pub background: u8,
    /// The global colour table, empty if the file has none.
    pub palette: Vec<Color>,
}

/// A [`Screen`] as a value.
pub struct ScreenSpec {
    /// Logical screen width in pixels.
    pub width: u16,
    /// Logical screen height in pixels.
    pub height: u16,
    /// Background palette index.
    pub background: u8,
    /// The global colour table.
    pub palette: Seq<Color>,
}

impl View for Screen {
    type V = ScreenSpec;

    open spec fn view(&self) -> ScreenSpec {
        ScreenSpec {
            width: self.width,
            height: self.height,
            background: self.background,
            palette: self.palette@,
        }
    }
}

/// One frame of an animation, already composited onto the logical screen.
#[derive(Clone, Debug)]
pub struct Frame {
    /// Full-screen RGBA pixels, row-major from the top left.
    pub pixels: Vec<Color>,
    /// How long to show this frame, in microseconds.
    pub delay_us: u64,
}

/// A [`Frame`] as a value.
pub struct FrameSpec {
    /// Full-screen pixels.
    pub pixels: Seq<Color>,
    /// Display time in microseconds.
    pub delay_us: u64,
}

impl View for Frame {
    type V = FrameSpec;

    open spec fn view(&self) -> FrameSpec {
        FrameSpec { pixels: self.pixels@, delay_us: self.delay_us }
    }
}

/// A decoded animation.
#[derive(Clone, Debug)]
pub struct Animation {
    /// Logical screen width.
    pub width: u16,
    /// Logical screen height.
    pub height: u16,
    /// Frames in playback order. Never empty on success.
    pub frames: Vec<Frame>,
}

/// An [`Animation`] as a value.
pub struct AnimationSpec {
    /// Logical screen width.
    pub width: u16,
    /// Logical screen height.
    pub height: u16,
    /// Frames in playback order.
    pub frames: Seq<FrameSpec>,
}

impl View for Animation {
    type V = AnimationSpec;

    open spec fn view(&self) -> AnimationSpec {
        AnimationSpec {
            width: self.width,
            height: self.height,
            frames: self.frames@.map_values(|f: Frame| f@),
        }
    }
}

/// What to do with a frame's area before the next one is drawn.
#[derive(Clone, Copy, PartialEq, Eq, Structural, Debug)]
enum Disposal {
    /// Leave it; the next frame draws on top.
    Keep,
    /// Clear it to the background.
    Background,
    /// Restore whatever was there before this frame.
    Previous,
}

/// Disposal as the number the specification uses: 0 keep, 1 clear to
/// background, 2 restore the previous canvas.
spec fn disposal_code(d: Disposal) -> u8 {
    match d {
        Disposal::Keep => 0,
        Disposal::Background => 1,
        Disposal::Previous => 2,
    }
}

/// Longest animation this decoder will assemble, in frames.
///
/// Each frame costs a full screen of RGBA; the cap is what stops a malicious
/// file from exhausting a fixed heap. 512 frames at 20 fps is twenty-five
/// seconds, far more than any dashboard ornament needs.
pub const MAX_FRAMES: usize = 512;

/// A little-endian `u16` at `at`.
pub open spec fn le_u16(b: Seq<u8>, at: int) -> int {
    b[at] + b[at + 1] * 256
}

/// Whether the six bytes at the start are `GIF87a` or `GIF89a`.
pub open spec fn gif_magic_ok(b: Seq<u8>) -> bool {
    &&& b[0] == 0x47 && b[1] == 0x49 && b[2] == 0x46 && b[3] == 0x38
    &&& (b[4] == 0x37 || b[4] == 0x39)
    &&& b[5] == 0x61
}

/// The `count` colours of a table of RGB triples at `at`.
pub open spec fn spec_palette(b: Seq<u8>, at: int, count: nat) -> Seq<Color> {
    Seq::new(count, |i: int| spec_rgba(b[at + 3 * i], b[at + 3 * i + 1], b[at + 3 * i + 2], 255))
}

/// The header, logical screen descriptor and global colour table, and the
/// offset just past them.
pub open spec fn spec_gif_screen(b: Seq<u8>) -> Result<(ScreenSpec, int), GifError> {
    if b.len() < 6 {
        Err(GifError::UnexpectedEnd)
    } else if !gif_magic_ok(b) {
        Err(GifError::BadMagic)
    } else if b.len() < 13 {
        Err(GifError::UnexpectedEnd)
    } else {
        let w = le_u16(b, 6);
        let h = le_u16(b, 8);
        let packed = b[10];
        if w == 0 || h == 0 {
            Err(GifError::BadHeader)
        } else if packed & 0x80 == 0 {
            Ok((ScreenSpec { width: w as u16, height: h as u16, background: b[11], palette: Seq::empty() }, 13))
        } else {
            let count = pow2(((packed & 7) + 1) as nat);
            if 13 + 3 * count > b.len() {
                Err(GifError::UnexpectedEnd)
            } else {
                Ok(
                    (
                        ScreenSpec {
                            width: w as u16,
                            height: h as u16,
                            background: b[11],
                            palette: spec_palette(b, 13, count),
                        },
                        13 + 3 * count as int,
                    ),
                )
            }
        }
    }
}

/// The offset just past a chain of length-prefixed sub-blocks at `at`.
pub open spec fn spec_skip_blocks(b: Seq<u8>, at: int) -> Result<int, GifError>
    decreases b.len() - at,
{
    if at < 0 || at >= b.len() {
        Err(GifError::UnexpectedEnd)
    } else {
        let n = b[at] as int;
        if n == 0 {
            Ok(at + 1)
        } else if at + 1 + n > b.len() {
            Err(GifError::UnexpectedEnd)
        } else {
            spec_skip_blocks(b, at + 1 + n)
        }
    }
}

/// The concatenated data of a chain of sub-blocks at `at`, and the offset
/// just past it.
pub open spec fn spec_gather(b: Seq<u8>, at: int) -> Result<(Seq<u8>, int), GifError>
    decreases b.len() - at,
{
    if at < 0 || at >= b.len() {
        Err(GifError::UnexpectedEnd)
    } else {
        let n = b[at] as int;
        if n == 0 {
            Ok((Seq::empty(), at + 1))
        } else if at + 1 + n > b.len() {
            Err(GifError::UnexpectedEnd)
        } else {
            match spec_gather(b, at + 1 + n) {
                Ok((rest, end)) => Ok((b.subrange(at + 1, at + 1 + n) + rest, end)),
                Err(e) => Err(e),
            }
        }
    }
}

/// The screen row an interlaced frame's `row`-th transmitted row lands on.
///
/// Interlaced rows arrive in four passes: every eighth row from 0, every
/// eighth from 4, every fourth from 2, then every second from 1.
pub open spec fn spec_deinterlace(row: int, height: int) -> int {
    let p1 = (height + 7) / 8;
    let g2 = if height > 4 { (height - 4 + 7) / 8 } else { 0 };
    let g3 = if height > 2 { (height - 2 + 3) / 4 } else { 0 };
    if row < p1 {
        row * 8
    } else if row < p1 + g2 {
        4 + (row - p1) * 8
    } else if row < p1 + g2 + g3 {
        2 + (row - p1 - g2) * 4
    } else {
        1 + (row - p1 - g2 - g3) * 2
    }
}

/// Which interlace pass screen row `y` belongs to: every eighth row from 0
/// first, then every eighth from 4, every fourth from 2, every second from 1.
pub open spec fn interlace_pass(y: int) -> int {
    if y % 8 == 0 {
        0
    } else if y % 8 == 4 {
        1
    } else if y % 4 == 2 {
        2
    } else {
        3
    }
}

/// Interlaced rows of a frame `h` rows high land on screen rows inside the
/// frame, pass by pass and top to bottom within a pass, so two transmitted
/// rows never land on one screen row.
pub proof fn lemma_deinterlace_order(h: int, r1: int, r2: int)
    requires
        h >= 1,
        0 <= r1 < r2 < h,
    ensures
        0 <= spec_deinterlace(r1, h) < h,
        0 <= spec_deinterlace(r2, h) < h,
        interlace_pass(spec_deinterlace(r1, h)) < interlace_pass(spec_deinterlace(r2, h)) || (interlace_pass(
            spec_deinterlace(r1, h),
        ) == interlace_pass(spec_deinterlace(r2, h)) && spec_deinterlace(r1, h) < spec_deinterlace(r2, h)),
{
}

/// Every screen row of an interlaced frame `h` rows high receives one of its
/// `h` transmitted rows.
pub proof fn lemma_deinterlace_onto(h: int, y: int)
    requires
        0 <= y < h,
    ensures
        exists|r: int| 0 <= r < h && #[trigger] spec_deinterlace(r, h) == y,
{
    let p1 = (h + 7) / 8;
    let g2 = if h > 4 { (h - 4 + 7) / 8 } else { 0 };
    let g3 = if h > 2 { (h - 2 + 3) / 4 } else { 0 };
    let (q, a) = (h / 8, h % 8);
    let (t, b) = (y / 8, y % 8);
    assert(h == 8 * q + a && 0 <= a < 8);
    assert(y == 8 * t + b && 0 <= b < 8);
    assert(p1 == q + if a > 0 { 1int } else { 0 });
    assert(g2 == q + if a > 4 { 1int } else { 0 });
    assert(g3 == 2 * q + if a > 6 { 2int } else if a > 2 { 1 } else { 0 });
    if b == 0 {
        assert(spec_deinterlace(t, h) == y);
    } else if b == 4 {
        assert(spec_deinterlace(p1 + t, h) == y);
    } else if b == 2 || b == 6 {
        let r = p1 + g2 + 2 * t + if b == 6 { 1int } else { 0 };
        assert(y % 4 == 2);
        assert(spec_deinterlace(r, h) == y);
    } else {
        let r = p1 + g2 + g3 + 4 * t + (b - 1) / 2;
        assert(y % 4 != 2 && y % 8 != 0 && y % 8 != 4);
        assert(r < h);
        assert(spec_deinterlace(r, h) == y);
    }
}

/// Where a frame sits on the screen, and how its indices are read.
pub struct FrameGeom {
    /// Frame left.
    pub fx: int,
    /// Frame top.
    pub fy: int,
    /// Frame width.
    pub fw: int,
    /// Frame height.
    pub fh: int,
    /// Screen width.
    pub sw: int,
    /// Screen height.
    pub sh: int,
    /// Whether rows arrive in the four interlace passes.
    pub interlaced: bool,
    /// The index that means "leave what is underneath".
    pub transparent: Option<u8>,
}

/// The screen row of the `i`-th index of a frame.
pub open spec fn geom_row(g: FrameGeom, i: int) -> int {
    let fw1 = if g.fw >= 1 { g.fw } else { 1 };
    if g.interlaced {
        spec_deinterlace(i / fw1, g.fh)
    } else {
        i / fw1
    }
}

/// The screen column of the `i`-th index of a frame, relative to its left.
pub open spec fn geom_col(g: FrameGeom, i: int) -> int {
    let fw1 = if g.fw >= 1 { g.fw } else { 1 };
    i % fw1
}

/// `canvas` with the first `k` indices of a frame drawn in order: an index
/// off the screen, the transparent one, or one past the palette leaves the
/// pixel underneath.
pub open spec fn spec_paint(
    canvas: Seq<Color>,
    indices: Seq<u8>,
    palette: Seq<Color>,
    g: FrameGeom,
    k: nat,
) -> Seq<Color>
    decreases k,
{
    if k == 0 {
        canvas
    } else {
        let c = spec_paint(canvas, indices, palette, g, (k - 1) as nat);
        let i = k - 1;
        let x = g.fx + geom_col(g, i);
        let y = g.fy + geom_row(g, i);
        let idx = indices[i];
        if x >= g.sw || y >= g.sh || g.transparent == Some(idx) || idx >= palette.len() {
            c
        } else {
            c.update(y * g.sw + x, palette[idx as int])
        }
    }
}

/// Painting the first `k` indices of a frame `fw` by `fh` leaves every
/// screen pixel outside the frame's rectangle as it was, and leaves the
/// whole canvas as it was when every one of those indices is the
/// transparent one.
pub proof fn lemma_paint_stays_in_frame(
    canvas: Seq<Color>,
    indices: Seq<u8>,
    palette: Seq<Color>,
    g: FrameGeom,
    k: nat,
)
    requires
        0 <= g.fx,
        0 <= g.fy,
        1 <= g.fw,
        0 <= g.fh,
        1 <= g.sw,
        canvas.len() == g.sw * g.sh,
        k <= g.fw * g.fh,
    ensures
        spec_paint(canvas, indices, palette, g, k).len() == canvas.len(),
        forall|p: int|
            0 <= p < canvas.len() && !(g.fy <= p / g.sw < g.fy + g.fh && g.fx <= p % g.sw < g.fx + g.fw)
                ==> #[trigger] spec_paint(canvas, indices, palette, g, k)[p] == canvas[p],
        (g.transparent is Some && forall|i: int| 0 <= i < k ==> #[trigger] indices[i] == g.transparent->Some_0)
            ==> spec_paint(canvas, indices, palette, g, k) == canvas,
    decreases k,
{
    lemma_paint_len(canvas, indices, palette, g, k);
    if k > 0 {
        lemma_paint_stays_in_frame(canvas, indices, palette, g, (k - 1) as nat);
        let i = k - 1;
        let c = spec_paint(canvas, indices, palette, g, (k - 1) as nat);
        let col = geom_col(g, i);
        let row = geom_row(g, i);
        assert(0 <= i / g.fw < g.fh && 0 <= col < g.fw) by (nonlinear_arith)
            requires
                0 <= i < g.fw * g.fh,
                g.fw >= 1,
                col == i % g.fw,
        ;
        if g.interlaced {
            if g.fh > 1 {
                if i / g.fw == 0 {
                    lemma_deinterlace_order(g.fh, 0, 1);
                } else {
                    lemma_deinterlace_order(g.fh, 0, i / g.fw);
                }
            } else {
                assert(spec_deinterlace(0, g.fh) == 0);
            }
        }
        assert(0 <= row < g.fh);
        let x = g.fx + col;
        let y = g.fy + row;
        if !(x >= g.sw || y >= g.sh || g.transparent == Some(indices[i]) || indices[i] >= palette.len()) {
            assert forall|p: int|
                0 <= p < canvas.len() && !(g.fy <= p / g.sw < g.fy + g.fh && g.fx <= p % g.sw < g.fx + g.fw)
                    implies #[trigger] spec_paint(canvas, indices, palette, g, k)[p] == canvas[p] by {
                assert((y * g.sw + x) / g.sw == y && (y * g.sw + x) % g.sw == x) by (nonlinear_arith)
                    requires
                        0 <= x < g.sw,
                        0 <= y,
                ;
                assert(0 <= y * g.sw + x < g.sw * g.sh) by (nonlinear_arith)
                    requires
                        0 <= x < g.sw,
                        0 <= y < g.sh,
                ;
                assert(p != y * g.sw + x);
                assert(c[p] == canvas[p]);
                assert(spec_paint(canvas, indices, palette, g, k) == c.update(y * g.sw + x, palette[indices[i] as int]));
            }
        }
    }
}

/// Where on the screen the `j`-th index of a frame lands, as a canvas
/// offset.
pub open spec fn frame_pos(g: FrameGeom, j: int) -> int {
    (g.fy + geom_row(g, j)) * g.sw + g.fx + geom_col(g, j)
}

/// Whether the `j`-th index of a frame lands on the screen.
pub open spec fn frame_visible(g: FrameGeom, j: int) -> bool {
    g.fx + geom_col(g, j) < g.sw && g.fy + geom_row(g, j) < g.sh
}

/// Two indices of one frame never land on the same screen pixel.
proof fn lemma_frame_pos_distinct(g: FrameGeom, i: int, j: int)
    requires
        0 <= g.fx,
        0 <= g.fy,
        1 <= g.fw,
        0 <= i <= j < g.fw * g.fh,
        frame_visible(g, i),
        frame_visible(g, j),
    ensures
        i != j ==> frame_pos(g, i) != frame_pos(g, j),
        0 <= frame_pos(g, i) < g.sw * g.sh,
{
    let (ri, rj) = (i / g.fw, j / g.fw);
    let (ci, cj) = (geom_col(g, i), geom_col(g, j));
    assert(0 <= ri < g.fh && 0 <= rj < g.fh && 0 <= ci < g.fw && 0 <= cj < g.fw && (i != j ==> (ri != rj
        || ci != cj)) && ri <= rj) by (nonlinear_arith)
        requires
            0 <= i <= j < g.fw * g.fh,
            g.fw >= 1,
            ri == i / g.fw,
            rj == j / g.fw,
            ci == i % g.fw,
            cj == j % g.fw,
    ;
    if g.interlaced && ri != rj {
        lemma_deinterlace_order(g.fh, ri, rj);
    }
    if g.interlaced && g.fh >= 1 {
        if ri < rj {
            lemma_deinterlace_order(g.fh, ri, rj);
        } else if ri + 1 < g.fh {
            lemma_deinterlace_order(g.fh, ri, ri + 1);
        } else if ri > 0 {
            lemma_deinterlace_order(g.fh, 0, ri);
        } else {
            assert(spec_deinterlace(0, g.fh) == 0);
        }
    }
    let (yi, yj) = (g.fy + geom_row(g, i), g.fy + geom_row(g, j));
    let (xi, xj) = (g.fx + ci, g.fx + cj);
    assert(i != j ==> (yi != yj || xi != xj));
    assert(0 <= yi);
    assert((yi != yj || xi != xj) ==> yi * g.sw + xi != yj * g.sw + xj) by (nonlinear_arith)
        requires
            0 <= xi < g.sw,
            0 <= xj < g.sw,
            0 <= yi,
            0 <= yj,
    ;
    assert(0 <= yi * g.sw + xi < g.sw * g.sh) by (nonlinear_arith)
        requires
            0 <= xi < g.sw,
            0 <= yi < g.sh,
    ;
}

/// After the first `k` indices of a frame are painted, each one that lands
/// on the screen has left its palette colour there, or the pixel that was
/// underneath when it is the transparent index or past the palette; and a
/// pixel no index landed on is as it was.
pub proof fn lemma_paint_cells(
    canvas: Seq<Color>,
    indices: Seq<u8>,
    palette: Seq<Color>,
    g: FrameGeom,
    k: nat,
)
    requires
        0 <= g.fx,
        0 <= g.fy,
        1 <= g.fw,
        0 <= g.fh,
        1 <= g.sw,
        canvas.len() == g.sw * g.sh,
        k <= g.fw * g.fh,
        k <= indices.len(),
    ensures
        forall|i: int|
            0 <= i < k && frame_visible(g, i) ==> #[trigger] spec_paint(canvas, indices, palette, g, k)[frame_pos(
                g,
                i,
            )] == if g.transparent == Some(indices[i]) || indices[i] >= palette.len() {
                canvas[frame_pos(g, i)]
            } else {
                palette[indices[i] as int]
            },
        forall|p: int|
            0 <= p < canvas.len() && (forall|j: int|
                0 <= j < k && frame_visible(g, j) ==> #[trigger] frame_pos(g, j) != p) ==> #[trigger] spec_paint(
                canvas,
                indices,
                palette,
                g,
                k,
            )[p] == canvas[p],
    decreases k,
{
    lemma_paint_len(canvas, indices, palette, g, k);
    if k > 0 {
        let m = k - 1;
        lemma_paint_cells(canvas, indices, palette, g, m as nat);
        lemma_paint_len(canvas, indices, palette, g, m as nat);
        let c = spec_paint(canvas, indices, palette, g, m as nat);
        let r = spec_paint(canvas, indices, palette, g, k);
        let painted = frame_visible(g, m) && !(g.transparent == Some(indices[m]) || indices[m] >= palette.len());
        if frame_visible(g, m) {
            lemma_frame_pos_distinct(g, m, m);
        }
        assert(painted ==> r == c.update(frame_pos(g, m), palette[indices[m] as int]));
        assert(!painted ==> r == c);
        if frame_visible(g, m) {
            assert forall|j: int| 0 <= j < m && frame_visible(g, j) implies #[trigger] frame_pos(g, j) != frame_pos(
                g,
                m,
            ) by {
                lemma_frame_pos_distinct(g, j, m);
            }
            assert(c[frame_pos(g, m)] == canvas[frame_pos(g, m)]);
        }
        assert forall|i: int| 0 <= i < k && frame_visible(g, i) implies #[trigger] r[frame_pos(g, i)] == if g.transparent
            == Some(indices[i]) || indices[i] >= palette.len() {
            canvas[frame_pos(g, i)]
        } else {
            palette[indices[i] as int]
        } by {
            if i < m {
                lemma_frame_pos_distinct(g, i, i);
                if frame_visible(g, m) {
                    lemma_frame_pos_distinct(g, i, m);
                }
                assert(r[frame_pos(g, i)] == c[frame_pos(g, i)]);
            }
        }
        assert forall|p: int|
            0 <= p < canvas.len() && (forall|j: int| 0 <= j < k && frame_visible(g, j) ==> #[trigger] frame_pos(g, j) != p)
                implies #[trigger] r[p] == canvas[p] by {
            assert forall|j: int| 0 <= j < m && frame_visible(g, j) implies #[trigger] frame_pos(g, j) != p by {
                assert(frame_pos(g, j) != p);
            }
            if frame_visible(g, m) {
                assert(frame_pos(g, m) != p);
            }
            assert(c[p] == canvas[p]);
        }
    }
}

/// `canvas` with the frame's rectangle cleared to transparent.
pub open spec fn spec_clear_rect(canvas: Seq<Color>, fx: int, fy: int, fw: int, fh: int, sw: int) -> Seq<
    Color,
> {
    Seq::new(
        canvas.len(),
        |k: int|
            {
                let y = k / sw;
                let x = k % sw;
                if fy <= y < fy + fh && fx <= x < fx + fw {
                    spec_rgba(0, 0, 0, 0)
                } else {
                    canvas[k]
                }
            },
    )
}

/// A frame's display time: a zero delay means the 100 ms browsers settled
/// on, so an animation does not run at frame rate.
pub open spec fn spec_delay_us(delay_cs: u16) -> u64 {
    if delay_cs == 0 {
        100_000
    } else {
        (delay_cs * 10_000) as u64
    }
}

/// The decoder between two blocks.
pub struct GifState {
    /// Offset of the next block.
    pub at: int,
    /// What the screen shows so far.
    pub canvas: Seq<Color>,
    /// The canvas kept for a frame that restores what was under it.
    pub saved: Seq<Color>,
    /// Frames decoded so far.
    pub frames: Seq<FrameSpec>,
    /// Delay from the most recent graphic control extension, in 1/100 s.
    pub delay_cs: u16,
    /// Transparent index from the most recent graphic control extension.
    pub transparent: Option<u8>,
    /// Disposal from the most recent graphic control extension: 0 keep,
    /// 1 clear to background, 2 restore.
    pub disposal: u8,
}

/// Decode the image descriptor at `at` onto `s`'s canvas: the state after
/// it, control values not yet reset.
pub open spec fn spec_gif_image(b: Seq<u8>, scr: ScreenSpec, s: GifState, at: int) -> Result<
    GifState,
    GifError,
> {
    if at + 9 > b.len() {
        Err(GifError::UnexpectedEnd)
    } else {
        let fx = le_u16(b, at);
        let fy = le_u16(b, at + 2);
        let fw = le_u16(b, at + 4);
        let fh = le_u16(b, at + 6);
        let packed = b[at + 8];
        let p = at + 9;
        let local = packed & 0x80 != 0;
        let count = pow2(((packed & 7) + 1) as nat);
        if local && p + 3 * count > b.len() {
            Err(GifError::UnexpectedEnd)
        } else {
            let palette = if local { spec_palette(b, p, count) } else { scr.palette };
            let p = if local { p + 3 * count } else { p };
            if palette.len() == 0 {
                Err(GifError::BadHeader)
            } else if p >= b.len() {
                Err(GifError::UnexpectedEnd)
            } else {
                let min_code_size = b[p];
                match spec_gather(b, p + 1) {
                    Err(e) => Err(e),
                    Ok((data, next)) => match spec_lzw_decode(
                        min_code_size,
                        data,
                        (fw * fh) as nat,
                    ) {
                        Err(e) => Err(e),
                        Ok(indices) => {
                            let g = FrameGeom {
                                fx,
                                fy,
                                fw,
                                fh,
                                sw: scr.width as int,
                                sh: scr.height as int,
                                interlaced: packed & 0x40 != 0,
                                transparent: s.transparent,
                            };
                            let saved = if s.disposal == 2 { s.canvas } else { s.saved };
                            let painted = spec_paint(s.canvas, indices, palette, g, indices.len());
                            let frame = FrameSpec { pixels: painted, delay_us: spec_delay_us(s.delay_cs) };
                            let after = if s.disposal == 1 {
                                spec_clear_rect(painted, fx, fy, fw, fh, scr.width as int)
                            } else if s.disposal == 2 {
                                saved
                            } else {
                                painted
                            };
                            Ok(GifState { at: next, canvas: after, saved, frames: s.frames.push(frame), ..s })
                        },
                    },
                }
            }
        }
    }
}

/// The state after a graphic control extension whose body is at `at` and
/// `size` bytes long; one shorter than four bytes changes nothing.
pub open spec fn spec_control(b: Seq<u8>, s: GifState, at: int, size: int) -> GifState {
    if size >= 4 {
        let packed = b[at];
        let d = (packed >> 2u8) & 7;
        GifState {
            disposal: if d == 2 { 1 } else if d == 3 { 2 } else { 0 },
            delay_cs: le_u16(b, at + 1) as u16,
            transparent: if packed & 1 != 0 { Some(b[at + 3]) } else { None },
            ..s
        }
    } else {
        s
    }
}

/// A sub-block chain ends after it starts and inside the buffer.
pub proof fn lemma_skip_blocks_bounds(b: Seq<u8>, at: int)
    ensures
        spec_skip_blocks(b, at) matches Ok(e) ==> at < e <= b.len(),
    decreases b.len() - at,
{
    if 0 <= at < b.len() && b[at] != 0 && at + 1 + b[at] <= b.len() {
        lemma_skip_blocks_bounds(b, at + 1 + b[at]);
    }
}

/// A gathered chain ends after it starts and inside the buffer, and holds
/// no more data than the bytes it spans.
pub proof fn lemma_gather_bounds(b: Seq<u8>, at: int)
    ensures
        spec_gather(b, at) matches Ok((d, e)) ==> at < e <= b.len() && d.len() <= e - at,
    decreases b.len() - at,
{
    if 0 <= at < b.len() && b[at] != 0 && at + 1 + b[at] <= b.len() {
        lemma_gather_bounds(b, at + 1 + b[at]);
    }
}

/// An image descriptor is consumed forwards and inside the buffer.
pub proof fn lemma_gif_image_bounds(b: Seq<u8>, scr: ScreenSpec, s: GifState, at: int)
    ensures
        spec_gif_image(b, scr, s, at) matches Ok(s2) ==> at < s2.at <= b.len(),
{
    if at + 9 <= b.len() {
        let packed = b[at + 8];
        let count = pow2(((packed & 7) + 1) as nat);
        let local = packed & 0x80 != 0;
        let p = if local { at + 9 + 3 * count } else { at + 9 };
        lemma_gather_bounds(b, p + 1);
    }
}

/// Decode blocks from `s.at` until the trailer, the frame cap, or an error.
pub open spec fn spec_gif_blocks(b: Seq<u8>, scr: ScreenSpec, s: GifState) -> Result<
    GifState,
    GifError,
>
    decreases b.len() - s.at,
{
    if s.frames.len() >= MAX_FRAMES {
        Ok(s)
    } else if s.at < 0 || s.at >= b.len() {
        Err(GifError::UnexpectedEnd)
    } else {
        let block = b[s.at];
        let at = s.at + 1;
        if block == 0x3b {
            Ok(GifState { at, ..s })
        } else if block == 0x21 {
            if at >= b.len() {
                Err(GifError::UnexpectedEnd)
            } else {
                let label = b[at];
                let at = at + 1;
                let (s2, at2) = if label == 0xf9 && at < b.len() && at + 1 + b[at] <= b.len() {
                    (spec_control(b, s, at + 1, b[at] as int), at + 1 + b[at])
                } else {
                    (s, at)
                };
                if label == 0xf9 && !(at < b.len() && at + 1 + b[at] <= b.len()) {
                    Err(GifError::UnexpectedEnd)
                } else {
                    match spec_skip_blocks(b, at2) {
                        Err(e) => Err(e),
                        Ok(at3) => {
                            proof {
                                lemma_skip_blocks_bounds(b, at2);
                            }
                            spec_gif_blocks(b, scr, GifState { at: at3, ..s2 })
                        },
                    }
                }
            }
        } else if block == 0x2c {
            match spec_gif_image(b, scr, s, at) {
                Err(e) => Err(e),
                Ok(s2) => {
                    proof {
                        lemma_gif_image_bounds(b, scr, s, at);
                    }
                    // Control values apply to one image only.
                    spec_gif_blocks(
                        b,
                        scr,
                        GifState { delay_cs: 0, transparent: None, disposal: 0, ..s2 },
                    )
                },
            }
        } else {
            Err(GifError::Unsupported)
        }
    }
}

/// What decoding a whole GIF gives: every frame composited full-screen with
/// disposal applied, or why it cannot be decoded.
pub open spec fn spec_gif_decode(b: Seq<u8>) -> Result<AnimationSpec, GifError> {
    match spec_gif_screen(b) {
        Err(e) => Err(e),
        Ok((scr, at)) => {
            let blank = Seq::new((scr.width * scr.height) as nat, |i: int| spec_rgba(0, 0, 0, 0));
            let s0 = GifState {
                at,
                canvas: blank,
                saved: blank,
                frames: Seq::empty(),
                delay_cs: 0,
                transparent: None,
                disposal: 0,
            };
            match spec_gif_blocks(b, scr, s0) {
                Err(e) => Err(e),
                Ok(s) => if s.frames.len() == 0 {
                    Err(GifError::UnexpectedEnd)
                } else {
                    Ok(AnimationSpec { width: scr.width, height: scr.height, frames: s.frames })
                },
            }
        },
    }
}

/// The little-endian `u16` at `at`.
fn le_u16_at(bytes: &[u8], at: usize) -> (res: u16)
    requires
        at + 2 <= bytes@.len(),
    ensures
        res == le_u16(bytes@, at as int),
{
    bytes[at] as u16 + bytes[at + 1] as u16 * 256
}

/// `2^(n+1)` palette entries for a size field `n` of three bits.
fn palette_count(packed: u8) -> (res: usize)
    ensures
        res == pow2(((packed & 7) + 1) as nat),
        2 <= res <= 256,
{
    assert((packed & 7) <= 7) by (bit_vector);
    let n = (packed & 7) + 1;
    let mut r: usize = 1;
    let mut k: u8 = 0;
    while k < n
        invariant
            k <= n <= 8,
            r == pow2(k as nat),
            r <= 256,
        decreases n - k,
    {
        proof {
            lzw::lemma_pow2_mono(k as nat + 1, 8);
            reveal_with_fuel(pow2, 9);
        }
        r = r * 2;
        k += 1;
    }
    proof {
        lzw::lemma_pow2_mono(1, n as nat);
        reveal_with_fuel(pow2, 2);
    }
    r
}

/// Read a table of `count` RGB triples starting at `at`.
fn read_palette(bytes: &[u8], at: usize, count: usize) -> (res: Vec<Color>)
    requires
        at + 3 * count <= bytes@.len(),
        at + 3 * count <= usize::MAX,
    ensures
        res@ == spec_palette(bytes@, at as int, count as nat),
{
    let mut palette: Vec<Color> = Vec::with_capacity(count);
    let mut i: usize = 0;
    while i < count
        invariant
            i <= count,
            at + 3 * count <= bytes@.len(),
            at + 3 * count <= usize::MAX,
            palette@ == spec_palette(bytes@, at as int, i as nat),
        decreases count - i,
    {
        assert(at + i * 3 + 3 <= at + 3 * count);
        let base = at + i * 3;
        palette.push(Color::rgb(bytes[base], bytes[base + 1], bytes[base + 2]));
        i += 1;
        assert(palette@ =~= spec_palette(bytes@, at as int, i as nat));
    }
    palette
}

/// Read the header, logical screen descriptor and global colour table.
///
/// Returns the parsed screen and the byte offset just past everything it
/// consumed, so the caller can continue from there.
pub fn screen(bytes: &[u8]) -> (res: Result<(Screen, usize), GifError>)
    ensures
        match res {
            Ok((s, at)) => spec_gif_screen(bytes@) matches Ok((v, a)) && v == s@ && a == at,
            Err(e) => spec_gif_screen(bytes@) == Err::<(ScreenSpec, int), GifError>(e),
        },
{
    if bytes.len() < 6 {
        return Err(GifError::UnexpectedEnd);
    }
    // "GIF87a" or "GIF89a"
    if !(bytes[0] == 0x47 && bytes[1] == 0x49 && bytes[2] == 0x46 && bytes[3] == 0x38 && (bytes[4]
        == 0x37 || bytes[4] == 0x39) && bytes[5] == 0x61) {
        return Err(GifError::BadMagic);
    }
    if bytes.len() < 13 {
        return Err(GifError::UnexpectedEnd);
    }
    let width = le_u16_at(bytes, 6);
    let height = le_u16_at(bytes, 8);
    // Zero dimensions are invalid per the GIF spec.
    if width == 0 || height == 0 {
        return Err(GifError::BadHeader);
    }
    let packed = bytes[10];
    let background = bytes[11];
    let offset: usize = 13;
    if packed & 0x80 == 0 {
        return Ok((Screen { width, height, background, palette: Vec::new() }, offset));
    }
    let count = palette_count(packed);
    if bytes.len() - offset < count * 3 {
        return Err(GifError::UnexpectedEnd);
    }
    let palette = read_palette(bytes, offset, count);
    Ok((Screen { width, height, background, palette }, offset + count * 3))
}

/// Walk a chain of length-prefixed sub-blocks, returning the offset past it.
fn skip_blocks(bytes: &[u8], start: usize) -> (res: Result<usize, GifError>)
    ensures
        match res {
            Ok(end) => spec_skip_blocks(bytes@, start as int) == Ok::<int, GifError>(end as int),
            Err(e) => spec_skip_blocks(bytes@, start as int) == Err::<int, GifError>(e),
        },
        res matches Ok(end) ==> start < end <= bytes@.len(),
{
    let mut at = start;
    loop
        invariant
            spec_skip_blocks(bytes@, at as int) == spec_skip_blocks(bytes@, start as int),
            start <= at,
        decreases bytes@.len() - at,
    {
        if at >= bytes.len() {
            return Err(GifError::UnexpectedEnd);
        }
        let n = bytes[at] as usize;
        if n == 0 {
            return Ok(at + 1);
        }
        if bytes.len() - (at + 1) < n {
            return Err(GifError::UnexpectedEnd);
        }
        at = at + 1 + n;
    }
}

/// Concatenate a chain of sub-blocks, returning the data and the offset past it.
fn gather(bytes: &[u8], start: usize) -> (res: Result<(Vec<u8>, usize), GifError>)
    ensures
        match res {
            Ok((data, end)) => spec_gather(bytes@, start as int) == Ok::<(Seq<u8>, int), GifError>(
                (data@, end as int),
            ),
            Err(e) => spec_gather(bytes@, start as int) == Err::<(Seq<u8>, int), GifError>(e),
        },
        res matches Ok((data, end)) ==> start < end <= bytes@.len() && data@.len() <= bytes@.len(),
{
    let mut out: Vec<u8> = Vec::new();
    let mut at = start;
    let ghost at0 = start as int;
    let len = bytes.len();
    loop
        invariant
            len == bytes@.len(),
            at0 == start,
            at0 <= at,
            out@.len() <= at - at0,
            match spec_gather(bytes@, at0) {
                Ok((d, e)) => spec_gather(bytes@, at as int) matches Ok((d2, e2)) && d == out@ + d2
                    && e == e2,
                Err(err) => spec_gather(bytes@, at as int) == Err::<(Seq<u8>, int), GifError>(err),
            },
            spec_gather(bytes@, at as int) is Ok ==> spec_gather(bytes@, at0) is Ok,
        decreases bytes@.len() - at,
    {
        if at >= len {
            assert(spec_gather(bytes@, at as int) == Err::<(Seq<u8>, int), GifError>(GifError::UnexpectedEnd));
            return Err(GifError::UnexpectedEnd);
        }
        let n = bytes[at] as usize;
        if n == 0 {
            assert(out@ + Seq::<u8>::empty() =~= out@);
            return Ok((out, at + 1));
        }
        if len - (at + 1) < n {
            assert(spec_gather(bytes@, at as int) == Err::<(Seq<u8>, int), GifError>(GifError::UnexpectedEnd));
            return Err(GifError::UnexpectedEnd);
        }
        let ghost before = out@;
        let mut k: usize = 0;
        while k < n
            invariant
                k <= n,
                len == bytes@.len(),
                at + 1 + n <= bytes@.len(),
                out@ == before + bytes@.subrange(at + 1, at + 1 + k),
            decreases n - k,
        {
            out.push(bytes[at + 1 + k]);
            k += 1;
            assert(out@ =~= before + bytes@.subrange(at + 1, at + 1 + k));
        }
        proof {
            let chunk = bytes@.subrange(at + 1, at + 1 + n);
            match spec_gather(bytes@, at + 1 + n) {
                Ok((rest, end)) => {
                    assert(before + (chunk + rest) =~= (before + chunk) + rest);
                },
                Err(_) => {},
            }
        }
        at = at + 1 + n;
    }
}

/// Map an interlaced row index to its position on the screen.
fn deinterlace(row: usize, height: usize) -> (res: usize)
    requires
        row <= 0x1_0000,
        height <= 0x1_0000,
    ensures
        res == spec_deinterlace(row as int, height as int),
{
    let p1 = (height + 7) / 8;
    let g2 = if height > 4 { (height - 4 + 7) / 8 } else { 0 };
    let g3 = if height > 2 { (height - 2 + 3) / 4 } else { 0 };
    if row < p1 {
        row * 8
    } else if row < p1 + g2 {
        4 + (row - p1) * 8
    } else if row < p1 + g2 + g3 {
        2 + (row - p1 - g2) * 4
    } else {
        1 + (row - p1 - g2 - g3) * 2
    }
}

/// Draw a frame's indices onto the canvas, in order.
fn paint(
    canvas: &mut Vec<Color>,
    indices: &Vec<u8>,
    palette: &Vec<Color>,
    fx: usize,
    fy: usize,
    fw: usize,
    fh: usize,
    sw: usize,
    sh: usize,
    interlaced: bool,
    transparent: Option<u8>,
)
    requires
        old(canvas)@.len() == sw * sh,
        fx <= 0xffff,
        fy <= 0xffff,
        fw <= 0xffff,
        fh <= 0xffff,
        sw <= 0xffff,
        sh <= 0xffff,
        indices@.len() == fw * fh,
    ensures
        final(canvas)@ == spec_paint(
            old(canvas)@,
            indices@,
            palette@,
            FrameGeom {
                fx: fx as int,
                fy: fy as int,
                fw: fw as int,
                fh: fh as int,
                sw: sw as int,
                sh: sh as int,
                interlaced,
                transparent,
            },
            indices@.len(),
        ),
        final(canvas)@.len() == old(canvas)@.len(),
{
    let ghost g = FrameGeom {
        fx: fx as int,
        fy: fy as int,
        fw: fw as int,
        fh: fh as int,
        sw: sw as int,
        sh: sh as int,
        interlaced,
        transparent,
    };
    let ghost orig = canvas@;
    let fw1 = if fw >= 1 { fw } else { 1 };
    let mut i: usize = 0;
    while i < indices.len()
        invariant
            i <= indices@.len(),
            indices@.len() == fw * fh,
            fw1 == if fw >= 1 { fw } else { 1 },
            fx <= 0xffff,
            fy <= 0xffff,
            fw <= 0xffff,
            fh <= 0xffff,
            sw <= 0xffff,
            sh <= 0xffff,
            canvas@.len() == sw * sh,
            canvas@ == spec_paint(orig, indices@, palette@, g, i as nat),
            g == (FrameGeom {
                fx: fx as int,
                fy: fy as int,
                fw: fw as int,
                fh: fh as int,
                sw: sw as int,
                sh: sh as int,
                interlaced,
                transparent,
            }),
        decreases indices@.len() - i,
    {
        let idx = indices[i];
        proof {
            if fw >= 1 {
                assert(i / fw1 <= fh) by (nonlinear_arith)
                    requires
                        i < fw * fh,
                        fw1 == fw,
                        fw >= 1,
                ;
            } else {
                assert(fw * fh == 0);
            }
        }
        // An interlaced frame's rows arrive in four passes; without this the
        // image decodes correctly but appears shredded into bands.
        let row = if interlaced { deinterlace(i / fw1, fh) } else { i / fw1 };
        let col = i % fw1;
        let x = fx + col;
        let y = fy + row;
        let skip = x >= sw || y >= sh || transparent == Some(idx) || idx as usize >= palette.len();
        // Transparent means "leave what is underneath", not "write
        // nothing" -- the distinction only shows up on the second frame.
        if !skip {
            assert(y * sw + x < sw * sh && sw * sh <= 0xfffe0001) by (nonlinear_arith)
                requires
                    x < sw,
                    y < sh,
                    sw <= 0xffff,
                    sh <= 0xffff,
            ;
            canvas.set(y * sw + x, palette[idx as usize]);
        }
        i += 1;
    }
}

/// Clear the frame's rectangle to transparent.
fn clear_rect(canvas: &mut Vec<Color>, fx: usize, fy: usize, fw: usize, fh: usize, sw: usize, sh: usize)
    requires
        old(canvas)@.len() == sw * sh,
        sw >= 1,
        fx <= 0xffff,
        fy <= 0xffff,
        fw <= 0xffff,
        fh <= 0xffff,
        sw <= 0xffff,
        sh <= 0xffff,
    ensures
        final(canvas)@ == spec_clear_rect(old(canvas)@, fx as int, fy as int, fw as int, fh as int, sw as int),
{
    let ghost orig = canvas@;
    let y_end = if fy + fh < sh { fy + fh } else { sh };
    let x_end = if fx + fw < sw { fx + fw } else { sw };
    let mut y = fy;
    while y < y_end
        invariant
            fy <= y,
            y == fy || y <= y_end,
            sw <= 0xffff,
            sh <= 0xffff,
            y_end <= sh,
            x_end <= sw,
            y_end <= fy + fh,
            x_end <= fx + fw,
            sw >= 1,
            canvas@.len() == sw * sh,
            orig.len() == sw * sh,
            forall|k: int|
                0 <= k < sw * sh ==> #[trigger] canvas@[k] == if fy <= k / (sw as int) < y && fx <= k
                    % (sw as int) < x_end {
                    spec_rgba(0, 0, 0, 0)
                } else {
                    orig[k]
                },
        decreases y_end - y,
    {
        let mut x = fx;
        while x < x_end
            invariant
                fy <= y < y_end,
                fx <= x,
                x == fx || x <= x_end,
                sw <= 0xffff,
                sh <= 0xffff,
                y_end <= sh,
                x_end <= sw,
                sw >= 1,
                canvas@.len() == sw * sh,
                orig.len() == sw * sh,
                forall|k: int|
                    0 <= k < sw * sh ==> #[trigger] canvas@[k] == if (fy <= k / (sw as int) < y && fx
                        <= k % (sw as int) < x_end) || (k / (sw as int) == y && fx <= k % (sw as int)
                        < x) {
                        spec_rgba(0, 0, 0, 0)
                    } else {
                        orig[k]
                    },
            decreases x_end - x,
        {
            assert(y * sw + x < sw * sh && sw * sh <= 0xfffe0001) by (nonlinear_arith)
                requires
                    x < sw,
                    y < sh,
                    sw <= 0xffff,
                    sh <= 0xffff,
            ;
            let pos = y * sw + x;
            proof {
                vstd::arithmetic::div_mod::lemma_fundamental_div_mod_converse(
                    pos as int,
                    sw as int,
                    y as int,
                    x as int,
                );
            }
            let ghost before = canvas@;
            canvas.set(pos, Color::rgba(0, 0, 0, 0));
            proof {
                assert forall|k: int| 0 <= k < sw * sh && k != pos implies #[trigger] canvas@[k] == before[k]
                    && (k / (sw as int) != y || k % (sw as int) != x) by {
                    vstd::arithmetic::div_mod::lemma_fundamental_div_mod(k, sw as int);
                    if k / (sw as int) == y && k % (sw as int) == x {
                        assert(k == (sw as int) * y + x);
                        assert((sw as int) * y == y * (sw as int)) by (nonlinear_arith);
                    }
                }
            }
            x += 1;
        }
        y += 1;
    }
    proof {
        assert forall|k: int| 0 <= k < sw * sh implies #[trigger] canvas@[k] == spec_clear_rect(
            orig,
            fx as int,
            fy as int,
            fw as int,
            fh as int,
            sw as int,
        )[k] by {
            let yy = k / (sw as int);
            let xx = k % (sw as int);
            assert(yy < sh) by (nonlinear_arith)
                requires
                    0 <= k < sw * sh,
                    yy == k / (sw as int),
                    sw >= 1,
            ;
        }
    }
    assert(canvas@ =~= spec_clear_rect(orig, fx as int, fy as int, fw as int, fh as int, sw as int));
}

/// The frames' views, as the specification counts them.
pub open spec fn frames_view(frames: Seq<Frame>) -> Seq<FrameSpec> {
    frames.map_values(|f: Frame| f@)
}

/// A copy of `src`, element by element.
fn copy_of(src: &Vec<Color>) -> (res: Vec<Color>)
    ensures
        res@ == src@,
{
    let mut out: Vec<Color> = Vec::with_capacity(src.len());
    let mut i: usize = 0;
    while i < src.len()
        invariant
            i <= src@.len(),
            out@ == src@.subrange(0, i as int),
        decreases src@.len() - i,
    {
        out.push(src[i]);
        i += 1;
        assert(out@ =~= src@.subrange(0, i as int));
    }
    assert(out@ =~= src@);
    out
}

/// Overwrite `dst` with `src`, which has the same length.
fn copy_into(dst: &mut Vec<Color>, src: &Vec<Color>)
    requires
        old(dst)@.len() == src@.len(),
    ensures
        final(dst)@ == src@,
{
    let mut i: usize = 0;
    while i < src.len()
        invariant
            i <= src@.len(),
            dst@.len() == src@.len(),
            forall|k: int| 0 <= k < i ==> #[trigger] dst@[k] == src@[k],
        decreases src@.len() - i,
    {
        dst.set(i, src[i]);
        i += 1;
    }
    assert(dst@ =~= src@);
}

/// Decode the image descriptor at `at`, composite it, and push the frame.
///
/// Every frame is kept full-screen with disposal already applied, so a
/// caller can show frame *n* without having replayed frames 0..n.
#[verifier::rlimit(50)]
fn image(
    bytes: &[u8],
    at: usize,
    scr: &Screen,
    canvas: &mut Vec<Color>,
    saved: &mut Vec<Color>,
    frames: &mut Vec<Frame>,
    delay_cs: u16,
    transparent: Option<u8>,
    disposal: Disposal,
) -> (res: Result<usize, GifError>)
    requires
        old(canvas)@.len() == scr.width * scr.height,
        old(saved)@.len() == scr.width * scr.height,
        scr.width >= 1,
        bytes@.len() * 8 + 16 <= usize::MAX,
    ensures
        ({
            let s = GifState {
                at: 0,
                canvas: old(canvas)@,
                saved: old(saved)@,
                frames: frames_view(old(frames)@),
                delay_cs,
                transparent,
                disposal: disposal_code(disposal),
            };
            match res {
                Ok(next) => spec_gif_image(bytes@, scr@, s, at as int) == Ok::<GifState, GifError>(
                    GifState {
                        at: next as int,
                        canvas: final(canvas)@,
                        saved: final(saved)@,
                        frames: frames_view(final(frames)@),
                        ..s
                    },
                ),
                Err(e) => spec_gif_image(bytes@, scr@, s, at as int) == Err::<GifState, GifError>(e),
            }
        }),
        final(canvas)@.len() == scr.width * scr.height,
        final(saved)@.len() == scr.width * scr.height,
{
    let len = bytes.len();
    if at > len || len - at < 9 {
        return Err(GifError::UnexpectedEnd);
    }
    let fx = le_u16_at(bytes, at) as usize;
    let fy = le_u16_at(bytes, at + 2) as usize;
    let fw = le_u16_at(bytes, at + 4) as usize;
    let fh = le_u16_at(bytes, at + 6) as usize;
    let packed = bytes[at + 8];
    let mut p = at + 9;

    let local = packed & 0x80 != 0;
    let interlaced = packed & 0x40 != 0;
    let count = palette_count(packed);
    let palette = if local {
        if len - p < count * 3 {
            return Err(GifError::UnexpectedEnd);
        }
        let pal = read_palette(bytes, p, count);
        p = p + count * 3;
        pal
    } else {
        copy_of(&scr.palette)
    };
    if palette.len() == 0 {
        return Err(GifError::BadHeader);
    }
    if p >= len {
        return Err(GifError::UnexpectedEnd);
    }
    let min_code_size = bytes[p];
    let (data, next) = match gather(bytes, p + 1) {
        Ok(g) => g,
        Err(e) => return Err(e),
    };
    assert(fw * fh <= 0xfffe0001) by (nonlinear_arith)
        requires
            fw <= 0xffff,
            fh <= 0xffff,
    ;
    let total = fw * fh;
    let indices = match lzw::decode(min_code_size, &data, total) {
        Ok(v) => v,
        Err(e) => return Err(e),
    };

    if disposal == Disposal::Previous {
        copy_into(saved, canvas);
    }
    let sw = scr.width as usize;
    let sh = scr.height as usize;
    paint(canvas, &indices, &palette, fx, fy, fw, fh, sw, sh, interlaced, transparent);

    // A zero or absent delay means "as fast as sensible"; browsers settled on
    // 100ms and so does this, or an animation runs at frame rate.
    let delay_us: u64 = if delay_cs == 0 { 100_000 } else { delay_cs as u64 * 10_000 };
    let ghost before_frames = frames@;
    let pixels = copy_of(canvas);
    frames.push(Frame { pixels, delay_us });
    assert(frames_view(frames@) =~= frames_view(before_frames).push(frames@.last()@));

    match disposal {
        Disposal::Keep => {},
        Disposal::Background => clear_rect(canvas, fx, fy, fw, fh, sw, sh),
        Disposal::Previous => copy_into(canvas, saved),
    }
    Ok(next)
}

/// Decode a whole GIF into composited frames.
///
/// Every frame is returned full-screen with disposal already applied, so a
/// caller can show frame *n* without having replayed frames 0..n: seeking is
/// an index, not a replay. Never panics, on any input.
#[verifier::rlimit(50)]
pub fn decode(bytes: &[u8]) -> (res: Result<Animation, GifError>)
    requires
        bytes@.len() * 8 + 16 <= usize::MAX,
    ensures
        match res {
            Ok(a) => spec_gif_decode(bytes@) == Ok::<AnimationSpec, GifError>(a@),
            Err(e) => spec_gif_decode(bytes@) == Err::<AnimationSpec, GifError>(e),
        },
{
    let (scr, at0) = match screen(bytes) {
        Ok(s) => s,
        Err(e) => return Err(e),
    };
    let len = bytes.len();
    assert(scr.width as usize * scr.height as usize <= 0xfffe0001) by (nonlinear_arith)
        requires
            scr.width <= 0xffff,
            scr.height <= 0xffff,
    ;
    let px = scr.width as usize * scr.height as usize;

    // The canvas frames are composited onto, and the copy kept for
    // Disposal::Previous.
    let mut canvas: Vec<Color> = Vec::with_capacity(px);
    let mut k: usize = 0;
    while k < px
        invariant
            k <= px,
            canvas@ == Seq::new(k as nat, |i: int| spec_rgba(0, 0, 0, 0)),
        decreases px - k,
    {
        canvas.push(Color::rgba(0, 0, 0, 0));
        k += 1;
    }
    let mut saved = copy_of(&canvas);
    let mut frames: Vec<Frame> = Vec::new();

    // Values from the most recent Graphic Control Extension. They apply to
    // the next image descriptor and are reset after it, which is the part of
    // the spec most decoders get wrong by making them sticky.
    let mut delay_cs: u16 = 0;
    let mut transparent: Option<u8> = None;
    let mut disposal = Disposal::Keep;
    let mut at = at0;
    let ghost s0 = GifState {
        at: at0 as int,
        canvas: canvas@,
        saved: saved@,
        frames: Seq::empty(),
        delay_cs: 0,
        transparent: None,
        disposal: 0,
    };
    assert(frames_view(frames@) =~= Seq::<FrameSpec>::empty());

    while frames.len() < MAX_FRAMES
        invariant_except_break
            spec_gif_blocks(
                bytes@,
                scr@,
                GifState {
                    at: at as int,
                    canvas: canvas@,
                    saved: saved@,
                    frames: frames_view(frames@),
                    delay_cs,
                    transparent,
                    disposal: disposal_code(disposal),
                },
            ) == spec_gif_blocks(bytes@, scr@, s0),
        invariant
            len == bytes@.len(),
            bytes@.len() * 8 + 16 <= usize::MAX,
            spec_gif_screen(bytes@) matches Ok((v, a)) && v == scr@ && a == at0,
            s0 == (GifState {
                at: at0 as int,
                canvas: Seq::new((scr.width * scr.height) as nat, |i: int| spec_rgba(0, 0, 0, 0)),
                saved: Seq::new((scr.width * scr.height) as nat, |i: int| spec_rgba(0, 0, 0, 0)),
                frames: Seq::empty(),
                delay_cs: 0,
                transparent: None,
                disposal: 0,
            }),
            scr.width >= 1,
            scr.height >= 1,
            px == scr.width * scr.height,
            canvas@.len() == px,
            saved@.len() == px,
            at <= len,
        ensures
            spec_gif_blocks(bytes@, scr@, s0) matches Ok(fin) && fin.frames == frames_view(frames@),
        decreases len - at,
    {
        let ghost cur = GifState {
            at: at as int,
            canvas: canvas@,
            saved: saved@,
            frames: frames_view(frames@),
            delay_cs,
            transparent,
            disposal: disposal_code(disposal),
        };
        if at >= len {
            return Err(GifError::UnexpectedEnd);
        }
        let block = bytes[at];
        at += 1;
        if block == 0x3b {
            // Trailer.
            break;
        } else if block == 0x21 {
            // Extension.
            if at >= len {
                return Err(GifError::UnexpectedEnd);
            }
            let label = bytes[at];
            at += 1;
            if label == 0xf9 {
                if at >= len {
                    return Err(GifError::UnexpectedEnd);
                }
                let size = bytes[at] as usize;
                if len - (at + 1) < size {
                    return Err(GifError::UnexpectedEnd);
                }
                if size >= 4 {
                    let packed = bytes[at + 1];
                    let d = (packed >> 2u8) & 7;
                    disposal = if d == 2 {
                        Disposal::Background
                    } else if d == 3 {
                        Disposal::Previous
                    } else {
                        Disposal::Keep
                    };
                    delay_cs = le_u16_at(bytes, at + 2);
                    transparent = if packed & 1 != 0 { Some(bytes[at + 4]) } else { None };
                }
                at += 1 + size;
            }
            at = match skip_blocks(bytes, at) {
                Ok(a) => a,
                Err(e) => return Err(e),
            };
        } else if block == 0x2c {
            // Image descriptor.
            at = match image(
                bytes,
                at,
                &scr,
                &mut canvas,
                &mut saved,
                &mut frames,
                delay_cs,
                transparent,
                disposal,
            ) {
                Ok(a) => a,
                Err(e) => return Err(e),
            };
            proof {
                lemma_gif_image_bounds(bytes@, scr@, cur, cur.at + 1);
            }
            // Control values apply to one image only.
            delay_cs = 0;
            transparent = None;
            disposal = Disposal::Keep;
        } else {
            return Err(GifError::Unsupported);
        }
    }

    if frames.len() == 0 {
        return Err(GifError::UnexpectedEnd);
    }
    Ok(Animation { width: scr.width, height: scr.height, frames })
}

/// The frame an image descriptor adds is shown for the delay of the graphic
/// control extension before it, read in hundredths of a second: `d` of them
/// are `d * 10_000` microseconds, and a delay of zero is 100 ms. The frames
/// before it are kept as they were.
pub proof fn lemma_gif_image_delay(b: Seq<u8>, scr: ScreenSpec, s: GifState, at: int)
    ensures
        spec_gif_image(b, scr, s, at) matches Ok(s2) ==> {
            &&& s2.frames.len() == s.frames.len() + 1
            &&& s2.frames.subrange(0, s.frames.len() as int) == s.frames
            &&& s2.frames.last().delay_us == if s.delay_cs == 0 {
                100_000
            } else {
                s.delay_cs as int * 10_000
            }
        },
{
    if let Ok(s2) = spec_gif_image(b, scr, s, at) {
        assert(s2.frames.subrange(0, s.frames.len() as int) =~= s.frames);
        if s.delay_cs != 0 {
            assert(s.delay_cs * 10_000 <= u64::MAX);
        }
    }
}

/// A GIF screen is the magic `GIF87a` or `GIF89a`, then the width and the
/// height as little-endian 16-bit numbers, neither zero; the global colour
/// table, when bit 7 of byte 10 says there is one, holds `2^(n + 1)`
/// opaque RGB triples from byte 13, `n` being that byte's low three bits.
pub proof fn lemma_gif_screen_layout(b: Seq<u8>)
    ensures
        spec_gif_screen(b) matches Ok((scr, at)) ==> {
            &&& b.subrange(0, 3) == seq![0x47u8, 0x49, 0x46]
            &&& b.subrange(3, 6) == seq![0x38u8, 0x37, 0x61] || b.subrange(3, 6) == seq![0x38u8, 0x39, 0x61]
            &&& scr.width == b[6] + 256 * b[7] && scr.width > 0
            &&& scr.height == b[8] + 256 * b[9] && scr.height > 0
            &&& scr.background == b[11]
            &&& b[10] < 0x80 ==> scr.palette.len() == 0 && at == 13
            &&& b[10] >= 0x80 ==> {
                let count = pow2((b[10] % 8 + 1) as nat);
                &&& scr.palette.len() == count
                &&& at == 13 + 3 * count
                &&& forall|i: int|
                    0 <= i < count ==> #[trigger] scr.palette[i] == spec_rgba(
                        b[13 + 3 * i],
                        b[13 + 3 * i + 1],
                        b[13 + 3 * i + 2],
                        255,
                    )
            }
        },
{
    if let Ok((scr, at)) = spec_gif_screen(b) {
        let p = b[10];
        assert((p & 0x80 == 0) == (p < 0x80) && p & 7 == p % 8) by (bit_vector);
        assert(b.subrange(0, 3) =~= seq![b[0], b[1], b[2]]);
        assert(b.subrange(3, 6) =~= seq![b[3], b[4], b[5]]);
    }
}

/// What the canvas holds after an image descriptor at `at`, by the disposal
/// its control extension asked for: the frame as shown (keep); the frame
/// with its own rectangle cleared to transparent (background); or the
/// canvas from before the frame (previous). The frame's rectangle is read
/// from the descriptor's little-endian left, top, width and height.
pub proof fn lemma_gif_disposal(b: Seq<u8>, scr: ScreenSpec, s: GifState, at: int)
    requires
        0 <= at,
        scr.width >= 1,
    ensures
        spec_gif_image(b, scr, s, at) matches Ok(s2) ==> {
            let shown = s2.frames.last().pixels;
            let (fx, fy) = (b[at] + 256 * b[at + 1], b[at + 2] + 256 * b[at + 3]);
            let (fw, fh) = (b[at + 4] + 256 * b[at + 5], b[at + 6] + 256 * b[at + 7]);
            let sw = scr.width as int;
            &&& s.disposal == 0 ==> s2.canvas == shown
            &&& s.disposal == 2 ==> s2.canvas == s.canvas
            &&& s.disposal == 1 ==> s2.canvas.len() == shown.len() && forall|p: int|
                0 <= p < shown.len() ==> #[trigger] s2.canvas[p] == if fy <= p / sw < fy + fh && fx <= p % sw
                    < fx + fw {
                    spec_rgba(0, 0, 0, 0)
                } else {
                    shown[p]
                }
            &&& s.disposal != 0 && s.disposal != 1 && s.disposal != 2 ==> s2.canvas == shown
        },
{
}

/// A graphic control extension of at least four bytes at `at` sets, for the
/// next image: its delay from the little-endian bytes at `at + 1`, its
/// transparent index from the byte at `at + 3` when bit 0 of the first byte
/// is set (none otherwise), and its disposal from bits 2 to 4 of the first
/// byte: 2 clears to the background, 3 restores what was there, anything
/// else keeps the frame. A shorter one changes nothing.
pub proof fn lemma_gif_control(b: Seq<u8>, s: GifState, at: int, size: int)
    requires
        0 <= at,
        at + size <= b.len(),
    ensures
        size >= 4 ==> {
            let s2 = spec_control(b, s, at, size);
            let d = (b[at] as int / 4) % 8;
            &&& s2.delay_cs == b[at + 1] + 256 * b[at + 2]
            &&& s2.transparent == if b[at] % 2 == 1 {
                Some(b[at + 3])
            } else {
                None::<u8>
            }
            &&& s2.disposal == if d == 2 {
                1u8
            } else if d == 3 {
                2u8
            } else {
                0u8
            }
            &&& s2.at == s.at && s2.canvas == s.canvas && s2.saved == s.saved && s2.frames == s.frames
        },
        size < 4 ==> spec_control(b, s, at, size) == s,
{
    if size >= 4 {
        let p = b[at];
        assert((p >> 2u8) & 7 == (p / 4) % 8 && (p & 1 != 0) == (p % 2 == 1)) by (bit_vector);
    }
}

/// Whether the decoder's state holds a screen of `n` pixels: canvas and
/// saved canvas that size, and no more than [`MAX_FRAMES`] frames, each a
/// full screen shown for some time.
pub open spec fn gif_state_ok(s: GifState, n: int) -> bool {
    &&& s.canvas.len() == n
    &&& s.saved.len() == n
    &&& s.frames.len() <= MAX_FRAMES
    &&& forall|i: int| 0 <= i < s.frames.len() ==> #[trigger] s.frames[i].pixels.len() == n && s.frames[i].delay_us > 0
    &&& forall|i: int| 0 <= i < s.frames.len() ==> #[trigger] shown_for_hundredths(s.frames[i].delay_us)
}

/// Whether `us` microseconds is a frame time a GIF can give: a whole number
/// of hundredths of a second a 16-bit field holds, or the 100 ms that stands
/// in for zero.
pub open spec fn shown_for_hundredths(us: u64) -> bool {
    us == 100_000 || (us % 10_000 == 0 && 10_000 <= us <= 655_350_000)
}

/// Painting a frame keeps the canvas's size.
proof fn lemma_paint_len(canvas: Seq<Color>, indices: Seq<u8>, palette: Seq<Color>, g: FrameGeom, k: nat)
    requires
        0 <= g.fx,
        0 <= g.fy,
        0 <= g.fh,
        0 <= g.sw,
        canvas.len() == g.sw * g.sh,
    ensures
        spec_paint(canvas, indices, palette, g, k).len() == canvas.len(),
    decreases k,
{
    if k > 0 {
        lemma_paint_len(canvas, indices, palette, g, (k - 1) as nat);
        let i = k - 1;
        let fw1 = if g.fw >= 1 { g.fw } else { 1 };
        assert(i / fw1 >= 0 && i % fw1 >= 0) by (nonlinear_arith)
            requires
                i >= 0,
                fw1 >= 1,
        ;
        let x = g.fx + geom_col(g, i);
        let y = g.fy + geom_row(g, i);
        assert(0 <= x && 0 <= y);
        if x < g.sw && y < g.sh {
            assert(0 <= y * g.sw + x < g.sw * g.sh) by (nonlinear_arith)
                requires
                    0 <= x < g.sw,
                    0 <= y < g.sh,
            ;
        }
    }
}

/// An image descriptor keeps the state whole and adds one frame.
proof fn lemma_gif_image_ok(b: Seq<u8>, scr: ScreenSpec, s: GifState, at: int, n: int)
    requires
        n == scr.width * scr.height,
        gif_state_ok(s, n),
        s.frames.len() < MAX_FRAMES,
    ensures
        spec_gif_image(b, scr, s, at) matches Ok(s2) ==> gif_state_ok(s2, n),
{
    if let Ok(s2) = spec_gif_image(b, scr, s, at) {
        let fx = le_u16(b, at);
        let fy = le_u16(b, at + 2);
        let fw = le_u16(b, at + 4);
        let fh = le_u16(b, at + 6);
        let packed = b[at + 8];
        let p = at + 9;
        let local = packed & 0x80 != 0;
        let count = pow2(((packed & 7) + 1) as nat);
        let palette = if local { spec_palette(b, p, count) } else { scr.palette };
        let p = if local { p + 3 * count } else { p };
        let min_code_size = b[p];
        let (data, next) = spec_gather(b, p + 1)->Ok_0;
        let indices = spec_lzw_decode(min_code_size, data, (fw * fh) as nat)->Ok_0;
        let g = FrameGeom {
            fx,
            fy,
            fw,
            fh,
            sw: scr.width as int,
            sh: scr.height as int,
            interlaced: packed & 0x40 != 0,
            transparent: s.transparent,
        };
        lemma_paint_len(s.canvas, indices, palette, g, indices.len());
        assert(spec_delay_us(s.delay_cs) > 0 && shown_for_hundredths(spec_delay_us(s.delay_cs))) by {
            if s.delay_cs != 0 {
                assert(s.delay_cs * 10_000 <= u64::MAX);
                assert((s.delay_cs * 10_000) % 10_000 == 0);
            }
        }
        let last = s2.frames.len() - 1;
        assert(s2.frames[last].pixels.len() == n);
        assert forall|i: int| 0 <= i < s2.frames.len() implies #[trigger] s2.frames[i].pixels.len() == n
            && s2.frames[i].delay_us > 0 && shown_for_hundredths(s2.frames[i].delay_us) by {
            if i < last {
                assert(s2.frames[i] == s.frames[i]);
            }
        }
    }
}

/// Decoding blocks keeps the state whole.
#[verifier::spinoff_prover]
proof fn lemma_gif_blocks_ok(b: Seq<u8>, scr: ScreenSpec, s: GifState, n: int)
    requires
        n == scr.width * scr.height,
        gif_state_ok(s, n),
    ensures
        spec_gif_blocks(b, scr, s) matches Ok(s2) ==> gif_state_ok(s2, n),
    decreases b.len() - s.at,
{
    if !(s.frames.len() >= MAX_FRAMES) && !(s.at < 0 || s.at >= b.len()) {
        let block = b[s.at];
        let at = s.at + 1;
        if block == 0x21 && at < b.len() {
            let label = b[at];
            let at = at + 1;
            let (s2, at2) = if label == 0xf9 && at < b.len() && at + 1 + b[at] <= b.len() {
                (spec_control(b, s, at + 1, b[at] as int), at + 1 + b[at])
            } else {
                (s, at)
            };
            if !(label == 0xf9 && !(at < b.len() && at + 1 + b[at] <= b.len())) {
                if let Ok(at3) = spec_skip_blocks(b, at2) {
                    lemma_skip_blocks_bounds(b, at2);
                    assert(s2.frames == s.frames && s2.canvas == s.canvas && s2.saved == s.saved);
                    assert(gif_state_ok(GifState { at: at3, ..s2 }, n));
                    lemma_gif_blocks_ok(b, scr, GifState { at: at3, ..s2 }, n);
                }
            }
        } else if block == 0x2c {
            if let Ok(s2) = spec_gif_image(b, scr, s, at) {
                lemma_gif_image_bounds(b, scr, s, at);
                lemma_gif_image_ok(b, scr, s, at, n);
                assert(gif_state_ok(GifState { delay_cs: 0, transparent: None, disposal: 0, ..s2 }, n));
                lemma_gif_blocks_ok(b, scr, GifState { delay_cs: 0, transparent: None, disposal: 0, ..s2 }, n);
            }
        }
    }
}

/// A decoded animation has between one and [`MAX_FRAMES`] frames, every one
/// a full screen of pixels shown for some time, and that time a whole number
/// of hundredths of a second (or the 100 ms that stands in for none).
pub proof fn lemma_gif_frames(b: Seq<u8>)
    ensures
        spec_gif_decode(b) matches Ok(a) ==> {
            &&& 1 <= a.frames.len() <= MAX_FRAMES
            &&& forall|i: int|
                0 <= i < a.frames.len() ==> #[trigger] a.frames[i].pixels.len() == a.width * a.height
                    && a.frames[i].delay_us > 0
            &&& forall|i: int| 0 <= i < a.frames.len() ==> #[trigger] shown_for_hundredths(a.frames[i].delay_us)
        },
{
    if let Ok((scr, at)) = spec_gif_screen(b) {
        let n = (scr.width * scr.height) as int;
        let blank = Seq::new((scr.width * scr.height) as nat, |i: int| spec_rgba(0, 0, 0, 0));
        let s0 = GifState {
            at,
            canvas: blank,
            saved: blank,
            frames: Seq::empty(),
            delay_cs: 0,
            transparent: None,
            disposal: 0,
        };
        lemma_gif_blocks_ok(b, scr, s0, n);
    }
}

} // verus!

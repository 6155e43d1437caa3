//! The frame buffer and the clipped line rasterizer.
//!
//! The buffer is a flat RGBA byte sequence, four bytes per pixel, row
//! major, of fixed size.  Every write goes through a bounds-checked pixel
//! primitive; the clipper keeps line endpoints on their original line
//! while pulling them toward the screen, and the walk across a segment
//! guards each pixel, so a stray endpoint can never corrupt memory.

use crate::fixed::{
    spec_round_div, spec_sat_i32, round_div, sat_i32, lemma_round_div_error,
};
use crate::{BUF_HEIGHT, BUF_WIDTH};
use vstd::prelude::*;

verus! {

/// Bytes in one buffer row.
pub const ROW_BYTES: usize = 4096;

/// An RGBA color.
#[derive(Clone, Copy, Debug, PartialEq, Eq, Structural)]
pub struct Rgba {
    pub r: u8,
    pub g: u8,
    pub b: u8,
    pub a: u8,
}

/// Channel `j` of a color, in byte order.
pub open spec fn chan(c: Rgba, j: int) -> u8 {
    if j == 0 {
        c.r
    } else if j == 1 {
        c.g
    } else if j == 2 {
        c.b
    } else {
        c.a
    }
}

/// Byte offset of pixel `(x, y)`.
pub open spec fn pix_off(x: int, y: int) -> int {
    4 * (y * (BUF_WIDTH as int) + x)
}

/// Pixel row of byte `i`.
pub open spec fn row_of(i: int) -> int {
    i / (ROW_BYTES as int)
}

/// Pixel column of byte `i`.
pub open spec fn col_of(i: int) -> int {
    (i % (ROW_BYTES as int)) / 4
}

/// Channel index of byte `i`.
pub open spec fn chan_of(i: int) -> int {
    i % 4
}

/// Both coordinates on the screen.
pub open spec fn in_screen(x: int, y: int) -> bool {
    0 <= x < BUF_WIDTH && 0 <= y < BUF_HEIGHT
}

/// A byte index decomposes uniquely into row, column and channel.
pub proof fn lemma_byte_decompose(i: int)
    requires
        0 <= i < 4 * (BUF_WIDTH as int) * (BUF_HEIGHT as int),
    ensures
        i == pix_off(col_of(i), row_of(i)) + chan_of(i),
        0 <= row_of(i) < BUF_HEIGHT,
        0 <= col_of(i) < BUF_WIDTH,
        0 <= chan_of(i) < 4,
{
    vstd::arithmetic::div_mod::lemma_fundamental_div_mod(i, ROW_BYTES as int);
    vstd::arithmetic::div_mod::lemma_mod_bound(i, ROW_BYTES as int);
    let rem = i % (ROW_BYTES as int);
    vstd::arithmetic::div_mod::lemma_fundamental_div_mod(rem, 4);
    vstd::arithmetic::div_mod::lemma_mod_bound(rem, 4);
    assert(chan_of(i) == rem % 4) by {
        vstd::arithmetic::div_mod::lemma_mod_mod(i, 4, BUF_WIDTH as int);
    }
    assert(row_of(i) < BUF_HEIGHT) by (nonlinear_arith)
        requires
            i < 4 * (BUF_WIDTH as int) * (BUF_HEIGHT as int),
            i == (ROW_BYTES as int) * row_of(i) + rem,
            0 <= rem,
            ROW_BYTES == 4 * BUF_WIDTH,
    ;
    assert(row_of(i) >= 0) by (nonlinear_arith)
        requires
            0 <= i,
            i == (ROW_BYTES as int) * row_of(i) + rem,
            rem < ROW_BYTES,
    ;
}

/// The bytes of pixel `(x, y)` decompose back onto `(x, y)`.
pub proof fn lemma_pix_block(x: int, y: int, j: int)
    requires
        0 <= x < BUF_WIDTH,
        0 <= y < BUF_HEIGHT,
        0 <= j < 4,
    ensures
        0 <= pix_off(x, y) + j < 4 * (BUF_WIDTH as int) * (BUF_HEIGHT as int),
        row_of(pix_off(x, y) + j) == y,
        col_of(pix_off(x, y) + j) == x,
        chan_of(pix_off(x, y) + j) == j,
{
    let i = pix_off(x, y) + j;
    assert(i == (ROW_BYTES as int) * y + (4 * x + j)) by (nonlinear_arith)
        requires
            i == 4 * (y * (BUF_WIDTH as int) + x) + j,
            ROW_BYTES == 4 * BUF_WIDTH,
    ;
    assert(0 <= 4 * x + j < ROW_BYTES);
    vstd::arithmetic::div_mod::lemma_fundamental_div_mod_converse(
        i,
        ROW_BYTES as int,
        y,
        4 * x + j,
    );
    vstd::arithmetic::div_mod::lemma_fundamental_div_mod_converse(4 * x + j, 4, x, j);
    assert(i < 4 * (BUF_WIDTH as int) * (BUF_HEIGHT as int)) by (nonlinear_arith)
        requires
            i == (ROW_BYTES as int) * y + (4 * x + j),
            y < BUF_HEIGHT,
            4 * x + j < ROW_BYTES,
            ROW_BYTES == 4 * BUF_WIDTH,
    ;
}

/// Background byte at index `i` of a fresh buffer: a fixed gradient in the
/// color channels, fully transparent.
pub open spec fn background_byte(i: int) -> u8 {
    let j = chan_of(i);
    if j == 1 {
        ((col_of(i) * 255) / (BUF_WIDTH as int)) as u8
    } else if j == 2 {
        ((row_of(i) * 255) / (BUF_HEIGHT as int)) as u8
    } else {
        0u8
    }
}

/// The packed RGBA pixel buffer.
pub struct FrameBuffer {
    pub data: Vec<u8>,
}

impl FrameBuffer {
    /// The buffer always holds exactly its fixed size.
    pub open spec fn wf(self) -> bool {
        self.data@.len() == 4 * (BUF_WIDTH as int) * (BUF_HEIGHT as int)
    }

    /// A fresh buffer filled with the background gradient.
    #[verifier::loop_isolation(false)]
    pub fn new() -> (fb: FrameBuffer)
        ensures
            fb.wf(),
            forall|i: int| 0 <= i < fb.data@.len() ==> #[trigger] fb.data@[i] == background_byte(i),
    {
        let mut data: Vec<u8> = Vec::new();
        let mut y: usize = 0;
        while y < BUF_HEIGHT
            invariant
                y <= BUF_HEIGHT,
                data@.len() == (ROW_BYTES as int) * y,
                forall|i: int| 0 <= i < data@.len() ==> #[trigger] data@[i] == background_byte(i),
            decreases BUF_HEIGHT - y,
        {
            let mut x: usize = 0;
            while x < BUF_WIDTH
                invariant
                    y < BUF_HEIGHT,
                    x <= BUF_WIDTH,
                    data@.len() == (ROW_BYTES as int) * y + 4 * x,
                    forall|i: int|
                        0 <= i < data@.len() ==> #[trigger] data@[i] == background_byte(i),
                decreases BUF_WIDTH - x,
            {
                proof {
                    assert(data@.len() == pix_off(x as int, y as int)) by (nonlinear_arith)
                        requires
                            data@.len() == (ROW_BYTES as int) * y + 4 * x,
                            ROW_BYTES == 4 * BUF_WIDTH,
                    ;
                    lemma_pix_block(x as int, y as int, 0);
                    lemma_pix_block(x as int, y as int, 1);
                    lemma_pix_block(x as int, y as int, 2);
                    lemma_pix_block(x as int, y as int, 3);
                }
                let g: u8 = ((x * 255) / BUF_WIDTH) as u8;
                let b: u8 = ((y * 255) / BUF_HEIGHT) as u8;
                data.push(0u8);
                data.push(g);
                data.push(b);
                data.push(0u8);
                x = x + 1;
            }
            proof {
                assert((ROW_BYTES as int) * y + 4 * (BUF_WIDTH as int) == (ROW_BYTES as int) * (y
                    + 1)) by (nonlinear_arith)
                    requires
                        ROW_BYTES == 4 * BUF_WIDTH,
                ;
            }
            y = y + 1;
        }
        FrameBuffer { data }
    }

    /// Clear for a new frame: only the alpha channel of every pixel is
    /// zeroed; color channels keep their previous bytes.
    #[verifier::loop_isolation(false)]
    pub fn clear(&mut self)
        requires
            old(self).wf(),
        ensures
            final(self).wf(),
            forall|i: int|
                0 <= i < final(self).data@.len() ==> #[trigger] final(self).data@[i] == (if i % 4
                    == 3 {
                    0u8
                } else {
                    old(self).data@[i]
                }),
    {
        let ghost pre = self.data@;
        let n = self.data.len();
        let mut p: usize = 0;
        while p < n / 4
            invariant
                self.data@.len() == n == pre.len(),
                p <= n / 4,
                n == 4 * (BUF_WIDTH as int) * (BUF_HEIGHT as int),
                forall|i: int|
                    0 <= i < n ==> #[trigger] self.data@[i] == (if i % 4 == 3 && i < 4 * p {
                        0u8
                    } else {
                        pre[i]
                    }),
            decreases n / 4 - p,
        {
            let i = 4 * p + 3;
            proof {
                vstd::arithmetic::div_mod::lemma_fundamental_div_mod_converse(
                    i as int,
                    4,
                    p as int,
                    3,
                );
            }
            self.data.set(i, 0u8);
            proof {
                assert forall|k: int| 0 <= k < n implies #[trigger] self.data@[k] == (if k % 4 == 3
                    && k < 4 * (p + 1) {
                    0u8
                } else {
                    pre[k]
                }) by {
                    if k % 4 == 3 && k < 4 * (p + 1) && !(k < 4 * p) {
                        vstd::arithmetic::div_mod::lemma_fundamental_div_mod(k, 4);
                        assert(k == i);
                    }
                }
            }
            p = p + 1;
        }
    }

    /// Write one pixel's four channel bytes.
    pub fn write_pixel(&mut self, x: usize, y: usize, c: Rgba)
        requires
            old(self).wf(),
            x < BUF_WIDTH,
            y < BUF_HEIGHT,
        ensures
            final(self).wf(),
            forall|j: int|
                0 <= j < 4 ==> #[trigger] final(self).data@[pix_off(x as int, y as int) + j]
                    == chan(c, j),
            forall|i: int|
                0 <= i < final(self).data@.len() && !(pix_off(x as int, y as int) <= i < pix_off(
                    x as int,
                    y as int,
                ) + 4) ==> #[trigger] final(self).data@[i] == old(self).data@[i],
    {
        proof {
            lemma_pix_block(x as int, y as int, 0);
            lemma_pix_block(x as int, y as int, 3);
            assert(4 * ((y as int) * (BUF_WIDTH as int) + x) + 3 < 4 * (BUF_WIDTH as int) * (
            BUF_HEIGHT as int));
        }
        let base = 4 * (y * BUF_WIDTH + x);
        self.data.set(base, c.r);
        self.data.set(base + 1, c.g);
        self.data.set(base + 2, c.b);
        self.data.set(base + 3, c.a);
    }
}

/// Linear blend of one channel: `w` of `den` parts toward `b`, the rest
/// toward `a`, rounded down.
pub open spec fn blend_chan(a: u8, b: u8, w: int, den: int) -> u8 {
    (((a as int) * (den - w) + (b as int) * w) / den) as u8
}

/// Linear blend of a color, channel by channel.
pub open spec fn blend(c1: Rgba, c2: Rgba, w: int, den: int) -> Rgba {
    Rgba {
        r: blend_chan(c1.r, c2.r, w, den),
        g: blend_chan(c1.g, c2.g, w, den),
        b: blend_chan(c1.b, c2.b, w, den),
        a: blend_chan(c1.a, c2.a, w, den),
    }
}

/// One channel of the blend; the convex combination never leaves a byte.
fn blend_chan_exec(a: u8, b: u8, w: i64, den: i64) -> (r: u8)
    requires
        0 <= w <= den,
        1 <= den <= 0x2_0000_0000i64,
    ensures
        r == blend_chan(a, b, w as int, den as int),
{
    proof {
        assert(0 <= (a as int) * (den - w) + (b as int) * w <= 255 * den) by (nonlinear_arith)
            requires
                0 <= a <= 255,
                0 <= b <= 255,
                0 <= w <= den,
                1 <= den,
        ;
    }
    let num: i64 = (a as i64) * (den - w) + (b as i64) * w;
    proof {
        assert(num / den <= 255) by (nonlinear_arith)
            requires
                0 <= num <= 255 * den,
                1 <= den,
        ;
    }
    ((num as u64) / (den as u64)) as u8
}

/// The blend of a color.
fn blend_exec(c1: Rgba, c2: Rgba, w: i64, den: i64) -> (r: Rgba)
    requires
        0 <= w <= den,
        1 <= den <= 0x2_0000_0000i64,
    ensures
        r == blend(c1, c2, w as int, den as int),
{
    Rgba {
        r: blend_chan_exec(c1.r, c2.r, w, den),
        g: blend_chan_exec(c1.g, c2.g, w, den),
        b: blend_chan_exec(c1.b, c2.b, w, den),
        a: blend_chan_exec(c1.a, c2.a, w, den),
    }
}

/// Byte `i` after drawing a shared-x segment at column `x` from `y1`
/// (color `c1`) to `y2` (color `c2`): the in-bounds sub-range of rows gets
/// the blend, weighted toward `c2` with the distance from `y1`; the pixel
/// at the larger clamped row is left out.
pub open spec fn vert_byte(
    pre: Seq<u8>,
    x: int,
    y1: int,
    y2: int,
    c1: Rgba,
    c2: Rgba,
    i: int,
) -> u8 {
    let col = col_of(i);
    let row = row_of(i);
    let j = chan_of(i);
    let y1c = crate::fixed::spec_clamp(y1, 0, BUF_HEIGHT as int - 1);
    let y2c = crate::fixed::spec_clamp(y2, 0, BUF_HEIGHT as int - 1);
    if !(0 <= x < BUF_WIDTH) {
        pre[i]
    } else if y1c < y2c && col == x && y1c <= row < y2c {
        blend_chan(chan(c1, j), chan(c2, j), row - y1c, y2c - y1c)
    } else if y2c < y1c && col == x && y2c <= row < y1c {
        blend_chan(chan(c2, j), chan(c1, j), row - y2c, y1c - y2c)
    } else {
        pre[i]
    }
}

/// Byte `i` after drawing a shared-y segment at row `y` from `x1`
/// (color `c1`) to `x2` (color `c2`).
pub open spec fn horiz_byte(
    pre: Seq<u8>,
    y: int,
    x1: int,
    x2: int,
    c1: Rgba,
    c2: Rgba,
    i: int,
) -> u8 {
    let col = col_of(i);
    let row = row_of(i);
    let j = chan_of(i);
    let x1c = crate::fixed::spec_clamp(x1, 0, BUF_WIDTH as int - 1);
    let x2c = crate::fixed::spec_clamp(x2, 0, BUF_WIDTH as int - 1);
    if !(0 <= y < BUF_HEIGHT) {
        pre[i]
    } else if x1c < x2c && row == y && x1c <= col < x2c {
        blend_chan(chan(c1, j), chan(c2, j), col - x1c, x2c - x1c)
    } else if x2c < x1c && row == y && x2c <= col < x1c {
        blend_chan(chan(c2, j), chan(c1, j), col - x2c, x1c - x2c)
    } else {
        pre[i]
    }
}

/// Clamp a screen coordinate into `[0, limit - 1]`.
fn clamp_coord(v: i32, limit: usize) -> (r: usize)
    requires
        1 <= limit <= 0x10000,
    ensures
        r as int == crate::fixed::spec_clamp(v as int, 0, limit as int - 1),
{
    if v < 0 {
        0
    } else if v >= limit as i32 {
        limit - 1
    } else {
        v as usize
    }
}

/// Draw a shared-x segment.
#[verifier::loop_isolation(false)]
#[verifier::rlimit(60)]
fn draw_vertical(fb: &mut FrameBuffer, x: i32, y1: i32, y2: i32, c1: Rgba, c2: Rgba)
    requires
        old(fb).wf(),
    ensures
        final(fb).wf(),
        forall|i: int|
            0 <= i < final(fb).data@.len() ==> #[trigger] final(fb).data@[i] == vert_byte(
                old(fb).data@,
                x as int,
                y1 as int,
                y2 as int,
                c1,
                c2,
                i,
            ),
{
    let ghost pre = fb.data@;
    if x < 0 || x >= BUF_WIDTH as i32 {
        return;
    }
    let xs = x as usize;
    let y1c = clamp_coord(y1, BUF_HEIGHT);
    let y2c = clamp_coord(y2, BUF_HEIGHT);
    if y1c < y2c {
        let den: i64 = (y2c - y1c) as i64;
        let mut y: usize = y1c;
        while y < y2c
            invariant
                y1c <= y <= y2c,
                fb.wf(),
                fb.data@.len() == pre.len(),
                forall|i: int|
                    0 <= i < pre.len() ==> #[trigger] fb.data@[i] == (if col_of(i) == x && y1c
                        <= row_of(i) < y {
                        blend_chan(
                            chan(c1, chan_of(i)),
                            chan(c2, chan_of(i)),
                            row_of(i) - y1c,
                            den as int,
                        )
                    } else {
                        pre[i]
                    }),
            decreases y2c - y,
        {
            let c = blend_exec(c1, c2, (y - y1c) as i64, den);
            let ghost before = fb.data@;
            fb.write_pixel(xs, y, c);
            proof {
                assert forall|i: int| 0 <= i < pre.len() implies #[trigger] fb.data@[i] == (if
                    col_of(i) == x && y1c <= row_of(i) < y + 1 {
                    blend_chan(
                        chan(c1, chan_of(i)),
                        chan(c2, chan_of(i)),
                        row_of(i) - y1c,
                        den as int,
                    )
                } else {
                    pre[i]
                }) by {
                    lemma_byte_decompose(i);
                    if col_of(i) == x && row_of(i) == y {
                        lemma_pix_block(x as int, y as int, chan_of(i));
                        assert(i == pix_off(x as int, y as int) + chan_of(i));
                    } else {
                        assert(!(pix_off(xs as int, y as int) <= i < pix_off(xs as int, y as int)
                            + 4)) by {
                            if pix_off(xs as int, y as int) <= i < pix_off(xs as int, y as int)
                                + 4 {
                                lemma_pix_block(xs as int, y as int, i - pix_off(
                                    xs as int,
                                    y as int,
                                ));
                            }
                        }
                    }
                }
            }
            y = y + 1;
        }
    } else if y2c < y1c {
        let den: i64 = (y1c - y2c) as i64;
        let mut y: usize = y2c;
        while y < y1c
            invariant
                y2c <= y <= y1c,
                fb.wf(),
                fb.data@.len() == pre.len(),
                forall|i: int|
                    0 <= i < pre.len() ==> #[trigger] fb.data@[i] == (if col_of(i) == x && y2c
                        <= row_of(i) < y {
                        blend_chan(
                            chan(c2, chan_of(i)),
                            chan(c1, chan_of(i)),
                            row_of(i) - y2c,
                            den as int,
                        )
                    } else {
                        pre[i]
                    }),
            decreases y1c - y,
        {
            let c = blend_exec(c2, c1, (y - y2c) as i64, den);
            fb.write_pixel(xs, y, c);
            proof {
                assert forall|i: int| 0 <= i < pre.len() implies #[trigger] fb.data@[i] == (if
                    col_of(i) == x && y2c <= row_of(i) < y + 1 {
                    blend_chan(
                        chan(c2, chan_of(i)),
                        chan(c1, chan_of(i)),
                        row_of(i) - y2c,
                        den as int,
                    )
                } else {
                    pre[i]
                }) by {
                    lemma_byte_decompose(i);
                    if col_of(i) == x && row_of(i) == y {
                        lemma_pix_block(x as int, y as int, chan_of(i));
                        assert(i == pix_off(x as int, y as int) + chan_of(i));
                    } else {
                        assert(!(pix_off(xs as int, y as int) <= i < pix_off(xs as int, y as int)
                            + 4)) by {
                            if pix_off(xs as int, y as int) <= i < pix_off(xs as int, y as int)
                                + 4 {
                                lemma_pix_block(xs as int, y as int, i - pix_off(
                                    xs as int,
                                    y as int,
                                ));
                            }
                        }
                    }
                }
            }
            y = y + 1;
        }
    }
}

/// Draw a shared-y segment.
#[verifier::loop_isolation(false)]
#[verifier::rlimit(60)]
fn draw_horizontal(fb: &mut FrameBuffer, y: i32, x1: i32, x2: i32, c1: Rgba, c2: Rgba)
    requires
        old(fb).wf(),
    ensures
        final(fb).wf(),
        forall|i: int|
            0 <= i < final(fb).data@.len() ==> #[trigger] final(fb).data@[i] == horiz_byte(
                old(fb).data@,
                y as int,
                x1 as int,
                x2 as int,
                c1,
                c2,
                i,
            ),
{
    let ghost pre = fb.data@;
    if y < 0 || y >= BUF_HEIGHT as i32 {
        return;
    }
    let ys = y as usize;
    let x1c = clamp_coord(x1, BUF_WIDTH);
    let x2c = clamp_coord(x2, BUF_WIDTH);
    if x1c < x2c {
        let den: i64 = (x2c - x1c) as i64;
        let mut x: usize = x1c;
        while x < x2c
            invariant
                x1c <= x <= x2c,
                fb.wf(),
                fb.data@.len() == pre.len(),
                forall|i: int|
                    0 <= i < pre.len() ==> #[trigger] fb.data@[i] == (if row_of(i) == y && x1c
                        <= col_of(i) < x {
                        blend_chan(
                            chan(c1, chan_of(i)),
                            chan(c2, chan_of(i)),
                            col_of(i) - x1c,
                            den as int,
                        )
                    } else {
                        pre[i]
                    }),
            decreases x2c - x,
        {
            let c = blend_exec(c1, c2, (x - x1c) as i64, den);
            fb.write_pixel(x, ys, c);
            proof {
                assert forall|i: int| 0 <= i < pre.len() implies #[trigger] fb.data@[i] == (if
                    row_of(i) == y && x1c <= col_of(i) < x + 1 {
                    blend_chan(
                        chan(c1, chan_of(i)),
                        chan(c2, chan_of(i)),
                        col_of(i) - x1c,
                        den as int,
                    )
                } else {
                    pre[i]
                }) by {
                    lemma_byte_decompose(i);
                    if col_of(i) == x && row_of(i) == y {
                        lemma_pix_block(x as int, y as int, chan_of(i));
                        assert(i == pix_off(x as int, y as int) + chan_of(i));
                    } else {
                        assert(!(pix_off(x as int, ys as int) <= i < pix_off(x as int, ys as int)
                            + 4)) by {
                            if pix_off(x as int, ys as int) <= i < pix_off(x as int, ys as int)
                                + 4 {
                                lemma_pix_block(x as int, ys as int, i - pix_off(
                                    x as int,
                                    ys as int,
                                ));
                            }
                        }
                    }
                }
            }
            x = x + 1;
        }
    } else if x2c < x1c {
        let den: i64 = (x1c - x2c) as i64;
        let mut x: usize = x2c;
        while x < x1c
            invariant
                x2c <= x <= x1c,
                fb.wf(),
                fb.data@.len() == pre.len(),
                forall|i: int|
                    0 <= i < pre.len() ==> #[trigger] fb.data@[i] == (if row_of(i) == y && x2c
                        <= col_of(i) < x {
                        blend_chan(
                            chan(c2, chan_of(i)),
                            chan(c1, chan_of(i)),
                            col_of(i) - x2c,
                            den as int,
                        )
                    } else {
                        pre[i]
                    }),
            decreases x1c - x,
        {
            let c = blend_exec(c2, c1, (x - x2c) as i64, den);
            fb.write_pixel(x, ys, c);
            proof {
                assert forall|i: int| 0 <= i < pre.len() implies #[trigger] fb.data@[i] == (if
                    row_of(i) == y && x2c <= col_of(i) < x + 1 {
                    blend_chan(
                        chan(c2, chan_of(i)),
                        chan(c1, chan_of(i)),
                        col_of(i) - x2c,
                        den as int,
                    )
                } else {
                    pre[i]
                }) by {
                    lemma_byte_decompose(i);
                    if col_of(i) == x && row_of(i) == y {
                        lemma_pix_block(x as int, y as int, chan_of(i));
                        assert(i == pix_off(x as int, y as int) + chan_of(i));
                    } else {
                        assert(!(pix_off(x as int, ys as int) <= i < pix_off(x as int, ys as int)
                            + 4)) by {
                            if pix_off(x as int, ys as int) <= i < pix_off(x as int, ys as int)
                                + 4 {
                                lemma_pix_block(x as int, ys as int, i - pix_off(
                                    x as int,
                                    ys as int,
                                ));
                            }
                        }
                    }
                }
            }
            x = x + 1;
        }
    }
}

/// Round `a / b` to the nearest integer for any nonzero divisor, halves
/// away from zero.
pub open spec fn spec_rdiv(a: int, b: int) -> int {
    if b > 0 {
        spec_round_div(a, b)
    } else {
        spec_round_div(-a, -b)
    }
}

/// Absolute value.
pub open spec fn abs(x: int) -> int {
    crate::fixed::abs(x)
}

/// Nearest-integer division for a signed divisor.
fn rdiv(a: i128, b: i128) -> (r: i128)
    requires
        b != 0,
        -0x4000_0000_0000_0000_0000_0000_0000_0000 < a < 0x4000_0000_0000_0000_0000_0000_0000_0000,
        -0x4000_0000_0000_0000_0000_0000_0000_0000 < b < 0x4000_0000_0000_0000_0000_0000_0000_0000,
    ensures
        r == spec_rdiv(a as int, b as int),
{
    if b > 0 {
        round_div(a, b)
    } else {
        round_div(-a, -b)
    }
}

/// The rounded ratio is within half a divisor of the exact one, whatever
/// the divisor's sign.
proof fn lemma_rdiv_error(a: int, b: int)
    requires
        b != 0,
    ensures
        2 * abs(a - spec_rdiv(a, b) * b) <= abs(b),
{
    if b > 0 {
        lemma_round_div_error(a, b);
    } else {
        lemma_round_div_error(-a, -b);
        let q = spec_round_div(-a, -b);
        assert(a - q * b == -(-a - q * (-b))) by (nonlinear_arith);
    }
}

/// Shift that pulls an x coordinate into `[1, BUF_WIDTH - 2]`.
pub open spec fn x_shift(px: int) -> int {
    if px < 1 {
        1 - px
    } else if px > BUF_WIDTH as int - 2 {
        BUF_WIDTH as int - 2 - px
    } else {
        0
    }
}

/// Shift that pulls a y coordinate into `[1, BUF_HEIGHT - 2]`.
pub open spec fn y_shift(py: int) -> int {
    if py < 1 {
        1 - py
    } else if py > BUF_HEIGHT as int - 2 {
        BUF_HEIGHT as int - 2 - py
    } else {
        0
    }
}

/// Clip one endpoint of a segment with direction `(dx, dy)`: each
/// coordinate that is off the drawable range is pulled to its nearest
/// bound, and the other coordinate follows the line's slope, rounded to
/// the nearest integer and saturated at the coordinate range.
pub open spec fn spec_fix_point(px: int, py: int, dx: int, dy: int) -> (int, int) {
    let xs = x_shift(px);
    let x1 = px + xs;
    let y1 = spec_sat_i32(py + spec_rdiv(xs * dy, dx));
    let ys = y_shift(y1);
    let y2 = y1 + ys;
    let x2 = spec_sat_i32(x1 + spec_rdiv(ys * dx, dy));
    (x2, y2)
}

/// The clip step of one endpoint.
fn fix_point(px: i32, py: i32, dx: i64, dy: i64) -> (r: (i32, i32))
    requires
        dx != 0,
        dy != 0,
        -0x1_0000_0000 <= dx <= 0x1_0000_0000,
        -0x1_0000_0000 <= dy <= 0x1_0000_0000,
    ensures
        (r.0 as int, r.1 as int) == spec_fix_point(px as int, py as int, dx as int, dy as int),
        1 <= r.1 <= BUF_HEIGHT as int - 2,
{
    let xs: i64 = if px < 1 {
        1 - px as i64
    } else if px as i64 > BUF_WIDTH as i64 - 2 {
        BUF_WIDTH as i64 - 2 - px as i64
    } else {
        0
    };
    let x1: i32 = (px as i64 + xs) as i32;
    proof {
        assert(-0x4_0000_0000_0000_0000 <= (xs as int) * (dy as int) <= 0x4_0000_0000_0000_0000)
            by (nonlinear_arith)
            requires
                -0x2_0000_0000 <= xs <= 0x2_0000_0000,
                -0x1_0000_0000 <= dy <= 0x1_0000_0000,
        ;
        crate::fixed::lemma_round_div_mag((xs as int) * (dy as int), if dx > 0 {
            dx as int
        } else {
            -(dx as int)
        });
    }
    let y1: i32 = sat_i32((py as i128) + rdiv((xs as i128) * (dy as i128), dx as i128));
    let ys: i64 = if y1 < 1 {
        1 - y1 as i64
    } else if y1 as i64 > BUF_HEIGHT as i64 - 2 {
        BUF_HEIGHT as i64 - 2 - y1 as i64
    } else {
        0
    };
    let y2: i32 = (y1 as i64 + ys) as i32;
    proof {
        assert(-0x4_0000_0000_0000_0000 <= (ys as int) * (dx as int) <= 0x4_0000_0000_0000_0000)
            by (nonlinear_arith)
            requires
                -0x2_0000_0000 <= ys <= 0x2_0000_0000,
                -0x1_0000_0000 <= dx <= 0x1_0000_0000,
        ;
        crate::fixed::lemma_round_div_mag((ys as int) * (dx as int), if dy > 0 {
            dy as int
        } else {
            -(dy as int)
        });
    }
    let x2: i32 = sat_i32((x1 as i128) + rdiv((ys as i128) * (dx as i128), dy as i128));
    (x2, y2)
}

/// Clipping an endpoint keeps it on the segment's line to within one
/// rounding step: scaled by `2 dx dy`, the clipped point's deviation from
/// the exact line is at most half of `|dx| + |dy|` — provided neither
/// adjusted coordinate hits the saturation bound.
pub proof fn lemma_fix_point_preserves_slope(px: int, py: int, dx: int, dy: int)
    requires
        dx != 0,
        dy != 0,
        i32::MIN <= py + spec_rdiv(x_shift(px) * dy, dx) <= i32::MAX,
        i32::MIN <= px + x_shift(px) + spec_rdiv(
            y_shift(py + spec_rdiv(x_shift(px) * dy, dx)) * dx,
            dy,
        ) <= i32::MAX,
    ensures
        2 * abs((spec_fix_point(px, py, dx, dy).1 - py) * dx - (spec_fix_point(
            px,
            py,
            dx,
            dy,
        ).0 - px) * dy) <= abs(dx) + abs(dy),
{
    let xs = x_shift(px);
    let r1 = spec_rdiv(xs * dy, dx);
    let y1 = py + r1;
    let ys = y_shift(y1);
    let r2 = spec_rdiv(ys * dx, dy);
    let qx = px + xs + r2;
    let qy = y1 + ys;
    assert(spec_fix_point(px, py, dx, dy) == (qx, qy));
    lemma_rdiv_error(xs * dy, dx);
    lemma_rdiv_error(ys * dx, dy);
    assert((qy - py) * dx == r1 * dx + ys * dx) by (nonlinear_arith)
        requires
            qy - py == r1 + ys,
    ;
    assert((qx - px) * dy == xs * dy + r2 * dy) by (nonlinear_arith)
        requires
            qx - px == xs + r2,
    ;
    assert((qy - py) * dx - (qx - px) * dy == (r1 * dx - xs * dy) + (ys * dx - r2 * dy));
    assert(2 * abs(xs * dy - r1 * dx) <= abs(dx));
    assert(2 * abs(ys * dx - r2 * dy) <= abs(dy));
}

/// Byte `i` after the walk of `count + 1` interpolation steps from the
/// clipped point `q1` along `(ddx, ddy)`: each in-bounds step pixel gets
/// the blend weighted toward `c2` by its step index; the dominant axis
/// advances one pixel per step, so steps never collide.
pub open spec fn walk_byte(
    pre: Seq<u8>,
    q1: (int, int),
    ddx: int,
    ddy: int,
    count: int,
    c1: Rgba,
    c2: Rgba,
    bound: int,
    i: int,
) -> u8 {
    let col = col_of(i);
    let row = row_of(i);
    let j = chan_of(i);
    if abs(ddx) >= abs(ddy) {
        let inc = if ddx > 0 {
            col - q1.0
        } else {
            q1.0 - col
        };
        if 0 <= inc <= count && inc < bound && row == q1.1 + spec_rdiv(inc * ddy, count) {
            blend_chan(chan(c1, j), chan(c2, j), inc, count)
        } else {
            pre[i]
        }
    } else {
        let inc = if ddy > 0 {
            row - q1.1
        } else {
            q1.1 - row
        };
        if 0 <= inc <= count && inc < bound && col == q1.0 + spec_rdiv(inc * ddx, count) {
            blend_chan(chan(c1, j), chan(c2, j), inc, count)
        } else {
            pre[i]
        }
    }
}

/// Byte `i` after drawing a general-slope segment: both endpoints are
/// clipped slope-preservingly, then the walk runs; a segment clipped to a
/// single point draws nothing.
pub open spec fn gen_byte(
    pre: Seq<u8>,
    p1: (int, int),
    p2: (int, int),
    c1: Rgba,
    c2: Rgba,
    i: int,
) -> u8 {
    let dx = p2.0 - p1.0;
    let dy = p2.1 - p1.1;
    let q1 = spec_fix_point(p1.0, p1.1, dx, dy);
    let q2 = spec_fix_point(p2.0, p2.1, dx, dy);
    let ddx = q2.0 - q1.0;
    let ddy = q2.1 - q1.1;
    let count = if abs(ddx) >= abs(ddy) {
        abs(ddx)
    } else {
        abs(ddy)
    };
    if count == 0 {
        pre[i]
    } else {
        walk_byte(pre, q1, ddx, ddy, count, c1, c2, count + 1, i)
    }
}

/// Rounding an exact multiple is exact.
proof fn lemma_rdiv_exact(a: int, b: int)
    requires
        b > 0,
    ensures
        spec_rdiv(a * b, b) == a,
{
    let h = b / 2;
    assert(0 <= h < b);
    if a >= 0 {
        assert(a * b >= 0) by (nonlinear_arith)
            requires
                a >= 0,
                b > 0,
        ;
        assert((a * b + h) / b == a) by (nonlinear_arith)
            requires
                0 <= h < b,
                a >= 0,
                b > 0,
        ;
    } else {
        assert(a * b < 0) by (nonlinear_arith)
            requires
                a < 0,
                b > 0,
        ;
        assert(-(a * b) == (-a) * b) by (nonlinear_arith);
        assert(((-a) * b + h) / b == -a) by (nonlinear_arith)
            requires
                0 <= h < b,
                a < 0,
                b > 0,
        ;
    }
}

/// A step's cross-axis move never exceeds the cross-axis span.
proof fn lemma_rdiv_step_bound(w: int, d: int, den: int)
    requires
        0 <= w <= den,
        1 <= den,
    ensures
        -abs(d) <= spec_rdiv(w * d, den) <= abs(d),
{
    let h = den / 2;
    assert(0 <= h < den);
    if d >= 0 {
        assert(0 <= w * d <= den * d) by (nonlinear_arith)
            requires
                0 <= w <= den,
                0 <= d,
        ;
        assert((w * d + h) / den <= d) by (nonlinear_arith)
            requires
                w * d <= den * d,
                0 <= w * d,
                0 <= h < den,
                1 <= den,
                0 <= d,
        ;
        assert((w * d + h) / den >= 0) by (nonlinear_arith)
            requires
                0 <= w * d,
                0 <= h,
                1 <= den,
        ;
    } else {
        assert(0 <= w * (-d) <= den * (-d)) by (nonlinear_arith)
            requires
                0 <= w <= den,
                d < 0,
        ;
        assert(-(w * d) == w * (-d)) by (nonlinear_arith);
        assert((w * (-d) + h) / den <= -d) by (nonlinear_arith)
            requires
                w * (-d) <= den * (-d),
                0 <= w * (-d),
                0 <= h < den,
                1 <= den,
                d < 0,
        ;
        assert((w * (-d) + h) / den >= 0) by (nonlinear_arith)
            requires
                0 <= w * (-d),
                0 <= h,
                1 <= den,
        ;
    }
}

/// Draw a general-slope segment: clip both endpoints along the original
/// line, then walk `count + 1` steps, guarding every pixel.
#[verifier::loop_isolation(false)]
#[verifier::rlimit(100)]
#[verifier::spinoff_prover]
fn draw_general(fb: &mut FrameBuffer, p1: (i32, i32), p2: (i32, i32), c1: Rgba, c2: Rgba)
    requires
        old(fb).wf(),
        p1.0 != p2.0,
        p1.1 != p2.1,
    ensures
        final(fb).wf(),
        forall|i: int|
            0 <= i < final(fb).data@.len() ==> #[trigger] final(fb).data@[i] == gen_byte(
                old(fb).data@,
                (p1.0 as int, p1.1 as int),
                (p2.0 as int, p2.1 as int),
                c1,
                c2,
                i,
            ),
{
    let ghost pre = fb.data@;
    let dx: i64 = p2.0 as i64 - p1.0 as i64;
    let dy: i64 = p2.1 as i64 - p1.1 as i64;
    let q1 = fix_point(p1.0, p1.1, dx, dy);
    let q2 = fix_point(p2.0, p2.1, dx, dy);
    let ddx: i64 = q2.0 as i64 - q1.0 as i64;
    let ddy: i64 = q2.1 as i64 - q1.1 as i64;
    let adx: i64 = if ddx >= 0 {
        ddx
    } else {
        -ddx
    };
    let ady: i64 = if ddy >= 0 {
        ddy
    } else {
        -ddy
    };
    let count: i64 = if adx >= ady {
        adx
    } else {
        ady
    };
    if count == 0 {
        return;
    }
    let ghost q1g = (q1.0 as int, q1.1 as int);
    let mut inc: i64 = 0;
    while inc <= count
        invariant
            0 <= inc <= count + 1,
            fb.wf(),
            fb.data@.len() == pre.len(),
            forall|i: int|
                0 <= i < pre.len() ==> #[trigger] fb.data@[i] == walk_byte(
                    pre,
                    q1g,
                    ddx as int,
                    ddy as int,
                    count as int,
                    c1,
                    c2,
                    inc as int,
                    i,
                ),
        decreases count - inc + 1,
    {
        proof {
            lemma_rdiv_step_bound(inc as int, ddx as int, count as int);
            lemma_rdiv_step_bound(inc as int, ddy as int, count as int);
            assert(-0x1_0000_0000_0000_0000 <= (inc as int) * (ddx as int)
                <= 0x1_0000_0000_0000_0000) by (nonlinear_arith)
                requires
                    0 <= inc <= 0x1_0000_0000,
                    -0x1_0000_0000 <= ddx <= 0x1_0000_0000,
            ;
            assert(-0x1_0000_0000_0000_0000 <= (inc as int) * (ddy as int)
                <= 0x1_0000_0000_0000_0000) by (nonlinear_arith)
                requires
                    0 <= inc <= 0x1_0000_0000,
                    -0x1_0000_0000 <= ddy <= 0x1_0000_0000,
            ;
        }
        let sx: i64 = rdiv((inc as i128) * (ddx as i128), count as i128) as i64;
        let sy: i64 = rdiv((inc as i128) * (ddy as i128), count as i128) as i64;
        let px: i64 = q1.0 as i64 + sx;
        let py: i64 = q1.1 as i64 + sy;
        proof {
            // On the dominant axis the step lands exactly one pixel on.
            if adx >= ady {
                if ddx >= 0 {
                    assert((inc as int) * (ddx as int) == (inc as int) * (count as int));
                    lemma_rdiv_exact(inc as int, count as int);
                    assert(sx == inc);
                } else {
                    assert((inc as int) * (ddx as int) == (-(inc as int)) * (count as int))
                        by (nonlinear_arith)
                        requires
                            ddx == -count,
                    ;
                    lemma_rdiv_exact(-(inc as int), count as int);
                    assert(sx == -inc);
                }
            } else {
                if ddy >= 0 {
                    assert((inc as int) * (ddy as int) == (inc as int) * (count as int));
                    lemma_rdiv_exact(inc as int, count as int);
                    assert(sy == inc);
                } else {
                    assert((inc as int) * (ddy as int) == (-(inc as int)) * (count as int))
                        by (nonlinear_arith)
                        requires
                            ddy == -count,
                    ;
                    lemma_rdiv_exact(-(inc as int), count as int);
                    assert(sy == -inc);
                }
            }
        }
        let ghost before = fb.data@;
        if px >= 0 && px < BUF_WIDTH as i64 && py >= 0 && py < BUF_HEIGHT as i64 {
            let c = blend_exec(c1, c2, inc, count);
            fb.write_pixel(px as usize, py as usize, c);
            proof {
                assert forall|i: int| 0 <= i < pre.len() implies #[trigger] fb.data@[i]
                    == walk_byte(
                    pre,
                    q1g,
                    ddx as int,
                    ddy as int,
                    count as int,
                    c1,
                    c2,
                    inc + 1,
                    i,
                ) by {
                    lemma_byte_decompose(i);
                    let col = col_of(i);
                    let row = row_of(i);
                    if col == px && row == py {
                        lemma_pix_block(px as int, py as int, chan_of(i));
                        assert(i == pix_off(px as int, py as int) + chan_of(i));
                    } else {
                        assert(!(pix_off(px as int, py as int) <= i < pix_off(
                            px as int,
                            py as int,
                        ) + 4)) by {
                            if pix_off(px as int, py as int) <= i < pix_off(px as int, py as int)
                                + 4 {
                                lemma_pix_block(px as int, py as int, i - pix_off(
                                    px as int,
                                    py as int,
                                ));
                            }
                        }
                    }
                }
            }
        } else {
            proof {
                assert forall|i: int| 0 <= i < pre.len() implies #[trigger] fb.data@[i]
                    == walk_byte(
                    pre,
                    q1g,
                    ddx as int,
                    ddy as int,
                    count as int,
                    c1,
                    c2,
                    inc + 1,
                    i,
                ) by {
                    lemma_byte_decompose(i);
                }
            }
        }
        inc = inc + 1;
    }
}

/// Both endpoints lie off the screen.
pub open spec fn both_offscreen(p1: (int, int), p2: (int, int)) -> bool {
    !in_screen(p1.0, p1.1) && !in_screen(p2.0, p2.1)
}

/// Byte `i` after drawing the segment `p1`–`p2` with endpoint colors `c1`
/// and `c2`: a fully offscreen segment draws nothing; a shared-x or
/// shared-y segment takes its dedicated path; anything else is clipped
/// and walked at the original slope.
pub open spec fn edge_byte(
    pre: Seq<u8>,
    p1: (int, int),
    p2: (int, int),
    c1: Rgba,
    c2: Rgba,
    i: int,
) -> u8 {
    if both_offscreen(p1, p2) {
        pre[i]
    } else if p1.0 == p2.0 {
        vert_byte(pre, p1.0, p1.1, p2.1, c1, c2, i)
    } else if p1.1 == p2.1 {
        horiz_byte(pre, p1.1, p1.0, p2.0, c1, c2, i)
    } else {
        gen_byte(pre, p1, p2, c1, c2, i)
    }
}

/// Draw the segment from `p1` (color `c1`) to `p2` (color `c2`) into the
/// buffer, clipping against the screen: every byte of the result is
/// pinned, and a segment with both endpoints offscreen leaves the buffer
/// untouched.
pub fn draw_edge(fb: &mut FrameBuffer, p1: (i32, i32), p2: (i32, i32), c1: Rgba, c2: Rgba)
    requires
        old(fb).wf(),
    ensures
        final(fb).wf(),
        forall|i: int|
            0 <= i < final(fb).data@.len() ==> #[trigger] final(fb).data@[i] == edge_byte(
                old(fb).data@,
                (p1.0 as int, p1.1 as int),
                (p2.0 as int, p2.1 as int),
                c1,
                c2,
                i,
            ),
        both_offscreen((p1.0 as int, p1.1 as int), (p2.0 as int, p2.1 as int))
            ==> final(fb).data@ == old(fb).data@,
{
    let off1 = p1.0 < 0 || p1.0 >= BUF_WIDTH as i32 || p1.1 < 0 || p1.1 >= BUF_HEIGHT as i32;
    let off2 = p2.0 < 0 || p2.0 >= BUF_WIDTH as i32 || p2.1 < 0 || p2.1 >= BUF_HEIGHT as i32;
    if off1 && off2 {
        return;
    }
    if p1.0 == p2.0 {
        draw_vertical(fb, p1.0, p1.1, p2.1, c1, c2);
    } else if p1.1 == p2.1 {
        draw_horizontal(fb, p1.1, p1.0, p2.0, c1, c2);
    } else {
        draw_general(fb, p1, p2, c1, c2);
    }
}

} // verus!

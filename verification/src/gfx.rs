//! Pixel work on BGRA buffers: nearest-neighbour scaling with optional
//! horizontal mirroring, the speech bubble (layout, rounded corners,
//! blending), presenting a frame in the pet window, placing a frame on the
//! render canvas, straight-alpha conversion and hit testing.

use vstd::prelude::*;
use vstd::arithmetic::div_mod::{lemma_fundamental_div_mod_converse, lemma_div_is_ordered};
use vstd::arithmetic::mul::{lemma_mul_inequality, lemma_mul_is_distributive_add_other_way};

verus! {

/// Source column sampled for destination column `x`.
pub open spec fn src_col(x: int, sw: int, dw: int, mirror: bool) -> int {
    if mirror {
        sw - 1 - x * sw / dw
    } else {
        x * sw / dw
    }
}

/// Source row sampled for destination row `y`.
pub open spec fn src_row(y: int, sh: int, dh: int) -> int {
    y * sh / dh
}

/// Whether byte `i` of the destination lies in the `dw`×`dh` pixel block
/// whose rows start every `stride` bytes.
pub open spec fn in_block(i: int, dw: int, dh: int, stride: int) -> bool {
    &&& dw > 0
    &&& stride > 0
    &&& 0 <= i
    &&& i / stride < dh
    &&& i % stride < dw * 4
}

/// The source byte that lands on destination byte `i` of the block.
pub open spec fn scaled_byte(
    src: Seq<u8>,
    i: int,
    sw: int,
    sh: int,
    dw: int,
    dh: int,
    stride: int,
    mirror: bool,
) -> u8 {
    let y = i / stride;
    let r = i % stride;
    src[(src_row(y, sh, dh) * sw + src_col(r / 4, sw, dw, mirror)) * 4 + r % 4]
}

proof fn lemma_sample_in_range(x: int, sw: int, dw: int)
    requires
        0 <= x < dw,
        sw > 0,
    ensures
        0 <= x * sw / dw < sw,
{
    assert(0 <= x * sw) by (nonlinear_arith)
        requires
            0 <= x,
            sw > 0,
    ;
    assert(x * sw < dw * sw) by (nonlinear_arith)
        requires
            0 <= x < dw,
            sw > 0,
    ;
    assert(x * sw / dw < sw) by (nonlinear_arith)
        requires
            0 <= x * sw < dw * sw,
            dw > 0,
    ;
    assert(0 <= x * sw / dw) by (nonlinear_arith)
        requires
            0 <= x * sw,
            dw > 0,
    ;
}

proof fn lemma_src_index(sy: int, sx: int, sw: int, sh: int)
    requires
        0 <= sy < sh,
        0 <= sx < sw,
    ensures
        0 <= sy * sw + sx < sw * sh,
        0 <= sy * sw,
{
    assert(0 <= sy * sw) by (nonlinear_arith)
        requires
            0 <= sy,
            sw > 0,
    ;
    assert(sy * sw + sx < sw * sh) by (nonlinear_arith)
        requires
            0 <= sy < sh,
            0 <= sx < sw,
    ;
}

proof fn lemma_row_offset(y: int, dh: int, stride: int, dw: int)
    requires
        0 <= y < dh,
        stride >= 0,
    ensures
        0 <= y * stride <= (dh - 1) * stride,
{
    assert(0 <= y * stride <= (dh - 1) * stride) by (nonlinear_arith)
        requires
            0 <= y < dh,
            stride >= 0,
    ;
}

/// Scales (and, with `mirror`, flips horizontally) the `sw`×`sh` BGRA image
/// `src` onto the `dw`×`dh` block of `dst`, whose rows start every
/// `dst_stride` bytes, by nearest-neighbour sampling. Bytes outside the block
/// are left as they were.
pub fn scale_bgra(
    src: &[u8],
    sw: usize,
    sh: usize,
    dst: &mut [u8],
    dw: usize,
    dh: usize,
    dst_stride: usize,
    mirror: bool,
)
    requires
        dw > 0 && dh > 0 ==> {
            &&& sw > 0
            &&& sh > 0
            &&& sw * sh * 4 <= src@.len()
            &&& dst_stride >= dw * 4
            &&& (dh - 1) * dst_stride + dw * 4 <= old(dst)@.len()
            &&& dw * sw <= u64::MAX
            &&& dh * sh <= u64::MAX
        },
    ensures
        final(dst)@.len() == old(dst)@.len(),
        forall|i: int|
            0 <= i < final(dst)@.len() ==> #[trigger] final(dst)@[i] == if in_block(
                i,
                dw as int,
                dh as int,
                dst_stride as int,
            ) {
                scaled_byte(src@, i, sw as int, sh as int, dw as int, dh as int, dst_stride as int, mirror)
            } else {
                old(dst)@[i]
            },
{
    let ghost orig = dst@;
    let ghost st = dst_stride as int;
    if dw == 0 || dh == 0 {
        return;
    }
    let mut y: usize = 0;
    while y < dh
        invariant
            0 <= y <= dh,
            dw > 0,
            dh > 0,
            sw > 0,
            sh > 0,
            sw * sh * 4 <= src@.len(),
            dst_stride >= dw * 4,
            st == dst_stride,
            (dh - 1) * dst_stride + dw * 4 <= orig.len(),
            dw * sw <= u64::MAX,
            dh * sh <= u64::MAX,
            dst@.len() == orig.len(),
            forall|i: int|
                0 <= i < dst@.len() ==> #[trigger] dst@[i] == if in_block(i, dw as int, y as int, st) {
                    scaled_byte(src@, i, sw as int, sh as int, dw as int, dh as int, st, mirror)
                } else {
                    orig[i]
                },
        decreases dh - y,
    {
        proof {
            lemma_sample_in_range(y as int, sh as int, dh as int);
            assert(y * sh <= dh * sh) by (nonlinear_arith)
                requires
                    y < dh,
            ;
        }
        let sy = (y as u64 * sh as u64 / dh as u64) as usize;
        proof {
            lemma_src_index(sy as int, 0, sw as int, sh as int);
            lemma_row_offset(y as int, dh as int, st, dw as int);
            assert(sy * sw * 4 < sw * sh * 4) by (nonlinear_arith)
                requires
                    sy * sw < sw * sh,
            ;
            assert(src@.len() == src.len());
            assert(dst@.len() == dst.len());
        }
        let srow = sy * sw * 4;
        let drow = y * dst_stride;
        let mut x: usize = 0;
        while x < dw
            invariant
                0 <= x <= dw,
                0 <= y < dh,
                dw > 0,
                sw > 0,
                sh > 0,
                sw * sh * 4 <= src@.len(),
                dst_stride >= dw * 4,
                st == dst_stride,
                drow == y * st,
                0 <= drow <= (dh - 1) * st,
                (dh - 1) * dst_stride + dw * 4 <= orig.len(),
                dw * sw <= u64::MAX,
                sy == src_row(y as int, sh as int, dh as int),
                0 <= sy < sh,
                srow == sy * sw * 4,
                dst@.len() == orig.len(),
                forall|i: int|
                    0 <= i < dst@.len() ==> #[trigger] dst@[i] == if in_block(i, dw as int, y as int, st)
                        || (i / st == y && 0 <= i % st < x * 4) {
                        scaled_byte(src@, i, sw as int, sh as int, dw as int, dh as int, st, mirror)
                    } else {
                        orig[i]
                    },
            decreases dw - x,
        {
            proof {
                lemma_sample_in_range(x as int, sw as int, dw as int);
                assert(x * sw <= dw * sw) by (nonlinear_arith)
                    requires
                        x < dw,
            ;
            }
            let q = (x as u64 * sw as u64 / dw as u64) as usize;
            let sx = if mirror {
                sw - 1 - q
            } else {
                q
            };
            proof {
                lemma_src_index(sy as int, sx as int, sw as int, sh as int);
                assert((sy * sw + sx) * 4 + 3 < sw * sh * 4) by (nonlinear_arith)
                    requires
                        sy * sw + sx < sw * sh,
                ;
                assert(srow + sx * 4 == (sy * sw + sx) * 4) by (nonlinear_arith)
                    requires
                        srow == sy * sw * 4,
                ;
                assert(src@.len() == src.len());
                assert(dst@.len() == dst.len());
            }
            let s = srow + sx * 4;
            let d = drow + x * 4;
            let ghost prev = dst@;
            proof {
                assert forall|c: int| 0 <= c < 4 implies #[trigger] ((d + c) / st) == y && (d + c) % st
                    == x * 4 + c by {
                    lemma_fundamental_div_mod_converse(d + c, st, y as int, x * 4 + c);
                }
            }
            dst[d] = src[s];
            dst[d + 1] = src[s + 1];
            dst[d + 2] = src[s + 2];
            dst[d + 3] = src[s + 3];
            proof {
                assert forall|i: int| 0 <= i < dst@.len() implies #[trigger] dst@[i] == if in_block(
                    i,
                    dw as int,
                    y as int,
                    st,
                ) || (i / st == y && 0 <= i % st < (x + 1) * 4) {
                    scaled_byte(src@, i, sw as int, sh as int, dw as int, dh as int, st, mirror)
                } else {
                    orig[i]
                } by {
                    if d <= i < d + 4 {
                        let c = i - d;
                        assert((d + c) / st == y && (d + c) % st == x * 4 + c);
                        assert((x * 4 + c) / 4 == x);
                        assert((x * 4 + c) % 4 == c);
                        assert(src_col(x as int, sw as int, dw as int, mirror) == sx);
                    } else {
                        assert(dst@[i] == prev[i]);
                        if i / st == y && 0 <= i % st < (x + 1) * 4 {
                            assert(i == y * st + i % st) by {
                                vstd::arithmetic::div_mod::lemma_fundamental_div_mod(i, st);
                                vstd::arithmetic::mul::lemma_mul_is_commutative(st, y as int);
                            }
                            assert(i % st < x * 4);
                        }
                    }
                }
            }
            x += 1;
        }
        proof {
            assert forall|i: int| 0 <= i < dst@.len() implies #[trigger] dst@[i] == if in_block(
                i,
                dw as int,
                (y + 1) as int,
                st,
            ) {
                scaled_byte(src@, i, sw as int, sh as int, dw as int, dh as int, st, mirror)
            } else {
                orig[i]
            } by {}
        }
        y += 1;
    }
}


/// Scaling samples the nearest source pixel over the whole picture: byte
/// `c` of destination pixel `(x, y)` lies in the written block and comes
/// from source row `y * sh / dh` and source column `x * sw / dw` (mirrored:
/// `sw - 1 - x * sw / dw`), in integer division; so halving the width takes
/// every second column.
pub proof fn scaling_samples_nearest_pixel(
    src: Seq<u8>,
    sw: int,
    sh: int,
    dw: int,
    dh: int,
    stride: int,
    mirror: bool,
    x: int,
    y: int,
    c: int,
)
    requires
        dw > 0,
        dh > 0,
        stride >= dw * 4,
        0 <= x < dw,
        0 <= y < dh,
        0 <= c < 4,
    ensures
        in_block(y * stride + x * 4 + c, dw, dh, stride),
        scaled_byte(src, y * stride + x * 4 + c, sw, sh, dw, dh, stride, mirror) == src[((y * sh / dh) * sw + (if mirror {
            sw - 1 - x * sw / dw
        } else {
            x * sw / dw
        })) * 4 + c],
{
    let i = y * stride + x * 4 + c;
    let r = x * 4 + c;
    assert(0 <= r < stride);
    assert(i / stride == y && i % stride == r) by {
        lemma_fundamental_div_mod_converse(i, stride, y, r);
    }
    assert(r / 4 == x && r % 4 == c) by {
        lemma_fundamental_div_mod_converse(r, 4, x, c);
    }
    assert(0 <= i) by (nonlinear_arith)
        requires
            0 <= y,
            stride > 0,
            0 <= r,
            i == y * stride + r,
    ;
}

/// Scaling a picture to its own size copies it, and with mirroring reverses
/// the order of the pixels in each row.
pub proof fn same_size_scaling_copies(src: Seq<u8>, i: int, w: int, h: int)
    requires
        w > 0,
        h > 0,
        w * h * 4 <= src.len(),
        in_block(i, w, h, w * 4),
    ensures
        scaled_byte(src, i, w, h, w, h, w * 4, false) == src[i],
        scaled_byte(src, i, w, h, w, h, w * 4, true) == src[(i / (w * 4)) * (w * 4) + (w - 1 - (i % (w
            * 4)) / 4) * 4 + i % 4],
{
    let st = w * 4;
    let y = i / st;
    let r = i % st;
    let x = r / 4;
    assert(y * h / h == y) by {
        vstd::arithmetic::div_mod::lemma_div_multiples_vanish(y, h);
        vstd::arithmetic::mul::lemma_mul_is_commutative(y, h);
    }
    assert(x * w / w == x) by {
        vstd::arithmetic::div_mod::lemma_div_multiples_vanish(x, w);
        vstd::arithmetic::mul::lemma_mul_is_commutative(x, w);
    }
    assert(i == y * st + r) by {
        vstd::arithmetic::div_mod::lemma_fundamental_div_mod(i, st);
        vstd::arithmetic::mul::lemma_mul_is_commutative(st, y);
    }
    assert(r == x * 4 + r % 4) by {
        vstd::arithmetic::div_mod::lemma_fundamental_div_mod(r, 4);
    }
    assert((y * w + x) * 4 + r % 4 == i) by (nonlinear_arith)
        requires
            i == y * st + r,
            r == x * 4 + r % 4,
            st == w * 4,
    ;
    assert((y * w + (w - 1 - x)) * 4 + r % 4 == y * st + (w - 1 - x) * 4 + r % 4) by (nonlinear_arith)
        requires
            st == w * 4,
    ;
    assert(i % 4 == r % 4) by {
        assert(i == 4 * (y * w) + r) by (nonlinear_arith)
            requires
                i == y * st + r,
                st == w * 4,
        ;
        vstd::arithmetic::div_mod::lemma_mod_multiples_vanish(y * w, r, 4);
    }
    assert(src_col(x, w, w, true) == w - 1 - x);
    assert(src_row(y, h, h) == y);
}

/// A pre-rendered speech bubble: `w`×`h` premultiplied BGRA pixels.
pub struct BubbleBitmap {
    pub buf: Vec<u8>,
    pub w: usize,
    pub h: usize,
}

impl BubbleBitmap {
    /// The buffer holds all `w`×`h` pixels.
    pub open spec fn wf(&self) -> bool {
        self.w * self.h * 4 <= self.buf@.len()
    }
}

/// Horizontal padding between the bubble's edge and its text.
pub const BUBBLE_PAD_X: i32 = 14;
/// Vertical padding between the bubble's edge and its text.
pub const BUBBLE_PAD_Y: i32 = 7;

/// The widest a bubble may be: the window's width, but at least 40.
pub open spec fn bubble_max_w(max_w: nat) -> nat {
    if max_w < 40 {
        40
    } else {
        max_w
    }
}

/// Whether a line of text `w` pixels wide fits in a bubble at most `max_w`
/// wide, padding included.
pub open spec fn line_fits(w: int, max_w: nat) -> bool {
    0 <= w + 2 * BUBBLE_PAD_X && w + 2 * BUBBLE_PAD_X <= bubble_max_w(max_w)
}

/// Whether the line fits in the font at position `i` (see [`line_fits`]);
/// not where the font could not be made.
pub open spec fn fits_at(widths: Seq<Option<i32>>, i: int, max_w: nat) -> bool {
    match widths[i] {
        Some(w) => line_fits(w as int, max_w),
        None => false,
    }
}

/// The font used for a bubble, given the single-line width of the text in
/// each candidate font size (largest first; `None` where the font could not
/// be made): the first size in which the line fits, else the last size
/// when its font could be made, else none.
pub open spec fn bubble_font_spec(widths: Seq<Option<i32>>, max_w: nat) -> Option<int>
    decreases widths.len(),
{
    if widths.len() == 0 {
        None
    } else {
        let n = widths.len() - 1;
        let first = bubble_font_spec(widths.drop_last(), max_w);
        if first matches Some(j) && fits_at(widths, j, max_w) {
            first
        } else {
            match widths[n] {
                Some(_) => Some(n),
                None => None,
            }
        }
    }
}

/// Chooses the bubble's font size (see [`bubble_font_spec`]).
pub fn bubble_font(widths: &Vec<Option<i32>>, max_w: usize) -> (r: Option<usize>)
    requires
        forall|i: int| 0 <= i < widths@.len() ==> (#[trigger] widths@[i] matches Some(w) ==> w + 2 * BUBBLE_PAD_X <= i32::MAX),
    ensures
        match r {
            Some(i) => bubble_font_spec(widths@, max_w as nat) == Some(i as int),
            None => bubble_font_spec(widths@, max_w as nat) is None,
        },
{
    let limit: usize = if max_w < 40 {
        40
    } else {
        max_w
    };
    let mut font: Option<usize> = None;
    let mut i: usize = 0;
    while i < widths.len()
        invariant
            i <= widths@.len(),
            limit == bubble_max_w(max_w as nat),
            forall|k: int| 0 <= k < widths@.len() ==> (#[trigger] widths@[k] matches Some(w) ==> w + 2 * BUBBLE_PAD_X <= i32::MAX),
            match font {
                Some(j) => bubble_font_spec(widths@.subrange(0, i as int), max_w as nat) == Some(j as int) && j < i,
                None => bubble_font_spec(widths@.subrange(0, i as int), max_w as nat) is None,
            },
            forall|j: int| 0 <= j < i ==> !fits_at(widths@, j, max_w as nat),
        decreases widths@.len() - i,
    {
        let ghost pre = widths@.subrange(0, i + 1);
        let ghost prev = font;
        proof {
            assert(pre.drop_last() =~= widths@.subrange(0, i as int));
            assert(pre[i as int] == widths@[i as int]);
            assert forall|j: int| 0 <= j <= i implies fits_at(pre, j, max_w as nat) == fits_at(widths@, j, max_w as nat) by {
                assert(pre[j] == widths@[j]);
            }
        }
        font = None;
        match widths[i] {
            Some(w) => {
                font = Some(i);
                let total = w + 2 * BUBBLE_PAD_X;
                if total >= 0 && (total as usize) <= limit {
                    proof {
                        assert(fits_at(widths@, i as int, max_w as nat));
                        lemma_font_prefix_no_fit(widths@, max_w as nat, i as int);
                    }
                    return Some(i);
                }
                proof {
                    assert(!fits_at(widths@, i as int, max_w as nat));
                }
            },
            None => {
                proof {
                    assert(!fits_at(widths@, i as int, max_w as nat));
                }
            },
        }
        proof {
            match prev {
                Some(j) => {
                    assert(!fits_at(widths@, j as int, max_w as nat));
                    assert(!fits_at(pre, j as int, max_w as nat));
                },
                None => {},
            }
        }
        i += 1;
    }
    proof {
        assert(widths@.subrange(0, i as int) =~= widths@);
    }
    font
}

proof fn lemma_font_prefix_no_fit(widths: Seq<Option<i32>>, max_w: nat, i: int)
    requires
        0 <= i < widths.len(),
        fits_at(widths, i, max_w),
        forall|j: int| 0 <= j < i ==> !fits_at(widths, j, max_w),
    ensures
        bubble_font_spec(widths, max_w) == Some(i),
    decreases widths.len(),
{
    let d = widths.drop_last();
    assert forall|j: int| 0 <= j < d.len() implies fits_at(d, j, max_w) == fits_at(widths, j, max_w) by {
        assert(d[j] == widths[j]);
    }
    if widths.len() - 1 > i {
        assert forall|j: int| 0 <= j < i implies !fits_at(d, j, max_w) by {
            assert(!fits_at(widths, j, max_w));
        }
        lemma_font_prefix_no_fit(d, max_w, i);
    } else {
        assert forall|j: int| 0 <= j < d.len() implies !fits_at(d, j, max_w) by {
            assert(!fits_at(widths, j, max_w));
        }
        lemma_font_spec_no_fit(d, max_w);
    }
}

proof fn lemma_font_spec_no_fit(widths: Seq<Option<i32>>, max_w: nat)
    requires
        forall|j: int| 0 <= j < widths.len() ==> !fits_at(widths, j, max_w),
    ensures
        bubble_font_spec(widths, max_w) matches Some(j) ==> j == widths.len() - 1,
    decreases widths.len(),
{
    if widths.len() > 0 {
        assert forall|j: int| 0 <= j < widths.drop_last().len() implies !fits_at(widths.drop_last(), j, max_w) by {
            assert(widths.drop_last()[j] == widths[j]);
            assert(!fits_at(widths, j, max_w));
        }
        lemma_font_spec_no_fit(widths.drop_last(), max_w);
    }
}

/// The width in which the bubble's text is laid out: the widest bubble less
/// the padding, but at least 1.
pub fn bubble_line_width(max_w: usize) -> (r: i32)
    requires
        max_w <= i32::MAX,
    ensures
        r == (if bubble_max_w(max_w as nat) - 2 * BUBBLE_PAD_X < 1 {
            1
        } else {
            bubble_max_w(max_w as nat) - 2 * BUBBLE_PAD_X
        }),
{
    let m: i32 = if max_w < 40 {
        40
    } else {
        max_w as i32
    };
    let w = m - 2 * BUBBLE_PAD_X;
    if w < 1 {
        1
    } else {
        w
    }
}

/// The bubble's size around laid-out text of `text_w`×`text_h` pixels: the
/// padding added on each side, but at least 40×24.
pub fn bubble_size(text_w: i32, text_h: i32) -> (r: (usize, usize))
    requires
        text_w + 2 * BUBBLE_PAD_X <= i32::MAX,
        text_h + 2 * BUBBLE_PAD_Y <= i32::MAX,
    ensures
        r.0 == (if text_w + 2 * BUBBLE_PAD_X < 40 {
            40
        } else {
            text_w + 2 * BUBBLE_PAD_X
        }),
        r.1 == (if text_h + 2 * BUBBLE_PAD_Y < 24 {
            24
        } else {
            text_h + 2 * BUBBLE_PAD_Y
        }),
{
    let w = text_w + 2 * BUBBLE_PAD_X;
    let h = text_h + 2 * BUBBLE_PAD_Y;
    let w: i32 = if w < 40 {
        40
    } else {
        w
    };
    let h: i32 = if h < 24 {
        24
    } else {
        h
    };
    (w as usize, h as usize)
}

/// Twice the corner radius of a `bw`×`bh` bubble: 16, or its shorter side
/// when that is shorter still.
pub open spec fn corner_diameter(bw: int, bh: int) -> int {
    if bw < 16 || bh < 16 {
        if bw < bh {
            bw
        } else {
            bh
        }
    } else {
        16
    }
}

/// Whether pixel `(x, y)` of a `bw`×`bh` bubble lies inside its rounded
/// rectangle. Lengths are doubled so that pixel centres and the corner
/// radius are whole: a pixel whose centre lies in a corner square counts
/// when its centre is within the radius of that corner's centre.
pub open spec fn inside_round_rect(x: int, y: int, bw: int, bh: int) -> bool {
    let d = corner_diameter(bw, bh);
    let px = 2 * x + 1;
    let py = 2 * y + 1;
    let cx = if px < d {
        d
    } else {
        2 * bw - d
    };
    let cy = if py < d {
        d
    } else {
        2 * bh - d
    };
    if (px < d || px > 2 * bw - d) && (py < d || py > 2 * bh - d) {
        (px - cx) * (px - cx) + (py - cy) * (py - cy) <= d * d
    } else {
        true
    }
}

/// Index of the alpha byte of pixel `k` in a BGRA buffer.
pub open spec fn alpha_at(k: int) -> int {
    4 * k + 3
}

/// Sets the alpha of every pixel of the `bw`×`bh` BGRA bubble: 255 inside
/// its rounded rectangle and 0 in the cut corners (see
/// [`inside_round_rect`]); the colour bytes stay as they were.
pub fn round_rect_alpha(buf: &mut Vec<u8>, bw: usize, bh: usize)
    requires
        old(buf)@.len() == bw * bh * 4,
    ensures
        final(buf)@.len() == old(buf)@.len(),
        forall|k: int|
            0 <= k < bw * bh ==> #[trigger] final(buf)@[alpha_at(k)] == (if inside_round_rect(
                k % (bw as int),
                k / (bw as int),
                bw as int,
                bh as int,
            ) {
                255u8
            } else {
                0u8
            }),
        forall|i: int| 0 <= i < old(buf)@.len() && i % 4 != 3 ==> #[trigger] final(buf)@[i] == old(buf)@[i],
{
    let ghost orig = buf@;
    if bw == 0 || bh == 0 {
        return;
    }
    let len = buf.len();
    proof {
        assert(bw * bh <= bw * bh * 4) by (nonlinear_arith);
        assert(bw <= bw * bh) by (nonlinear_arith)
            requires
                bh > 0,
        ;
        assert(bh <= bw * bh) by (nonlinear_arith)
            requires
                bw > 0,
        ;
    }
    let n = bw * bh;
    let d: usize = if bw < 16 || bh < 16 {
        if bw < bh {
            bw
        } else {
            bh
        }
    } else {
        16
    };
    let mut k: usize = 0;
    let mut x: usize = 0;
    let mut y: usize = 0;
    while k < n
        invariant
            n == bw * bh,
            bw > 0,
            bh > 0,
            n * 4 == orig.len(),
            n * 4 <= usize::MAX,
            bw <= n,
            bh <= n,
            buf@.len() == orig.len(),
            d == corner_diameter(bw as int, bh as int),
            k <= n,
            k == y * bw + x,
            x < bw,
            k < n ==> y < bh,
            forall|j: int|
                0 <= j < k ==> #[trigger] buf@[alpha_at(j)] == (if inside_round_rect(
                    j % (bw as int),
                    j / (bw as int),
                    bw as int,
                    bh as int,
                ) {
                    255u8
                } else {
                    0u8
                }),
            forall|i: int| 0 <= i < orig.len() && i % 4 != 3 ==> #[trigger] buf@[i] == orig[i],
        decreases n - k,
    {
        proof {
            assert(y * bw + x < bw * bh);
            assert(y < bh);
            assert(x * 2 + 1 < bw * 4);
            assert(y * 2 + 1 < bh * 4);
            vstd::arithmetic::div_mod::lemma_fundamental_div_mod_converse(k as int, bw as int, y as int, x as int);
        }
        let px = 2 * x + 1;
        let py = 2 * y + 1;
        let corner_x = px < d || px > 2 * bw - d;
        let corner_y = py < d || py > 2 * bh - d;
        let inside = if corner_x && corner_y {
            let dx = if px < d {
                d - px
            } else {
                px - (2 * bw - d)
            };
            let dy = if py < d {
                d - py
            } else {
                py - (2 * bh - d)
            };
            proof {
                assert(dx <= 16 && dy <= 16 && d <= 16);
                assert(dx * dx <= 256) by (nonlinear_arith)
                    requires
                        dx <= 16,
                ;
                assert(dy * dy <= 256) by (nonlinear_arith)
                    requires
                        dy <= 16,
                ;
                assert(d * d <= 256) by (nonlinear_arith)
                    requires
                        d <= 16,
                ;
            }
            let r = dx * dx + dy * dy <= d * d;
            proof {
                let cx: int = if px < d {
                    d as int
                } else {
                    2 * bw - d
                };
                let cy: int = if py < d {
                    d as int
                } else {
                    2 * bh - d
                };
                assert((px - cx) * (px - cx) == dx * dx) by (nonlinear_arith)
                    requires
                        px - cx == dx || px - cx == -(dx as int),
                ;
                assert((py - cy) * (py - cy) == dy * dy) by (nonlinear_arith)
                    requires
                        py - cy == dy || py - cy == -(dy as int),
                ;
            }
            r
        } else {
            true
        };
        let ghost prev = buf@;
        buf.set(4 * k + 3, if inside {
            255
        } else {
            0
        });
        proof {
            assert forall|j: int| 0 <= j < k + 1 implies #[trigger] buf@[alpha_at(j)] == (if inside_round_rect(
                j % (bw as int),
                j / (bw as int),
                bw as int,
                bh as int,
            ) {
                255u8
            } else {
                0u8
            }) by {
                if j < k {
                    assert(alpha_at(j) != 4 * k + 3);
                    assert(buf@[alpha_at(j)] == prev[alpha_at(j)]);
                }
            }
            assert forall|i: int| 0 <= i < orig.len() && i % 4 != 3 implies #[trigger] buf@[i] == orig[i] by {
                assert(i != 4 * k + 3);
                assert(buf@[i] == prev[i]);
            }
        }
        k += 1;
        if x + 1 == bw {
            x = 0;
            y += 1;
            proof {
                assert(y * bw == (y - 1) * bw + bw) by (nonlinear_arith);
            }
        } else {
            x += 1;
        }
        proof {
            if k < n && y >= bh {
                assert(y * bw + x >= bw * bh) by (nonlinear_arith)
                    requires
                        y >= bh,
                        bw > 0,
                ;
                assert(false);
            }
        }
    }
}

/// Left edge of a bubble of width `bw` centred in a window of width `dw`.
pub open spec fn bubble_left(dw: int, bw: int) -> int {
    (dw - bw) / 2
}

/// Top edge of the bubble, in window rows.
pub const BUBBLE_TOP: usize = 4;

/// The bubble pixel and channel `(y, x, c)` that covers byte `i` of a
/// `dw`×`dh` BGRA window, if any; nothing is drawn unless `0 < bw < dw` and
/// `bh > 0`.
pub open spec fn bubble_cell(i: int, dw: int, dh: int, bw: int, bh: int) -> Option<(int, int, int)> {
    if bw > 0 && bh > 0 && bw < dw && 0 <= i {
        let row = i / (dw * 4);
        let r = i % (dw * 4);
        let px = r / 4;
        let bx = bubble_left(dw, bw);
        if BUBBLE_TOP <= row < dh && row - BUBBLE_TOP < bh && bx <= px < bx + bw {
            Some((row - BUBBLE_TOP, px - bx, r % 4))
        } else {
            None
        }
    } else {
        None
    }
}

/// Source-over blend of one channel with coverage `a` (0..=255).
pub open spec fn blend_channel(s: u8, d: u8, a: u8) -> u8 {
    ((s as int * a as int + d as int * (255 - a as int)) / 255) as u8
}

/// New value of a window byte covered by bubble pixel `(y, x)`, channel `c`:
/// unchanged where the bubble is fully transparent, opaque alpha otherwise.
pub open spec fn composited_byte(buf: Seq<u8>, bw: int, old: u8, y: int, x: int, c: int) -> u8 {
    let si = (y * bw + x) * 4;
    let sa = buf[si + 3];
    if sa == 0 {
        old
    } else if c == 3 {
        255
    } else {
        blend_channel(buf[si + c], old, sa)
    }
}

proof fn lemma_blend_bounds(s: u8, d: u8, a: u8)
    ensures
        s as int * a as int <= 65025,
        d as int * (255 - a as int) <= 65025,
        0 <= (s as int * a as int + d as int * (255 - a as int)) / 255 <= 255,
{
    assert(s as int * a as int <= 255 * a as int) by (nonlinear_arith);
    assert(d as int * (255 - a as int) <= 255 * (255 - a as int)) by (nonlinear_arith);
    assert(0 <= s as int * a as int) by (nonlinear_arith);
    assert(0 <= d as int * (255 - a as int)) by (nonlinear_arith);
}

/// Blends the bubble onto the top centre of the `dw`×`dh` window pixels
/// `dst` (rows of `dw * 4` bytes).
pub fn composite_bubble(dst: &mut [u8], dw: usize, dh: usize, b: &BubbleBitmap)
    requires
        b.wf(),
        dw * dh * 4 <= old(dst)@.len(),
    ensures
        final(dst)@.len() == old(dst)@.len(),
        forall|i: int|
            0 <= i < final(dst)@.len() ==> #[trigger] final(dst)@[i] == match bubble_cell(
                i,
                dw as int,
                dh as int,
                b.w as int,
                b.h as int,
            ) {
                Some(cell) => composited_byte(b.buf@, b.w as int, old(dst)@[i], cell.0, cell.1, cell.2),
                None => old(dst)@[i],
            },
{
    let ghost orig = dst@;
    if b.w == 0 || b.h == 0 || b.w >= dw {
        return;
    }
    let bx = (dw - b.w) / 2;
    let by = BUBBLE_TOP;
    let ghost rw = (dw * 4) as int;
    assert(dst@.len() == dst.len());
    assert(b.buf@.len() == b.buf.len());
    assert(b.h <= b.w * b.h) by (nonlinear_arith)
        requires
            b.w > 0,
    ;
    let mut y: usize = 0;
    while y < b.h && by + y < dh
        invariant
            b.h + BUBBLE_TOP <= usize::MAX,
            0 < b.w < dw,
            b.h > 0,
            b.wf(),
            dw * dh * 4 <= orig.len(),
            rw == dw * 4,
            bx == bubble_left(dw as int, b.w as int),
            by == BUBBLE_TOP,
            y <= b.h,
            dst@.len() == orig.len(),
            dst@.len() == dst.len(),
            forall|i: int|
                0 <= i < dst@.len() ==> #[trigger] dst@[i] == match bubble_cell(
                    i,
                    dw as int,
                    dh as int,
                    b.w as int,
                    b.h as int,
                ) {
                    Some(cell) => if cell.0 < y {
                        composited_byte(b.buf@, b.w as int, orig[i], cell.0, cell.1, cell.2)
                    } else {
                        orig[i]
                    },
                    None => orig[i],
                },
        decreases b.h - y,
    {
        let dy = by + y;
        let mut x: usize = 0;
        while x < b.w
            invariant
                0 < b.w < dw,
                b.h > 0,
                b.wf(),
                dw * dh * 4 <= orig.len(),
                rw == dw * 4,
                bx == bubble_left(dw as int, b.w as int),
                y < b.h,
                dy == BUBBLE_TOP + y,
                dy < dh,
                x <= b.w,
                dst@.len() == orig.len(),
                dst@.len() == dst.len(),
                forall|i: int|
                    0 <= i < dst@.len() ==> #[trigger] dst@[i] == match bubble_cell(
                        i,
                        dw as int,
                        dh as int,
                        b.w as int,
                        b.h as int,
                    ) {
                        Some(cell) => if cell.0 < y || (cell.0 == y && cell.1 < x) {
                            composited_byte(b.buf@, b.w as int, orig[i], cell.0, cell.1, cell.2)
                        } else {
                            orig[i]
                        },
                        None => orig[i],
                    },
            decreases b.w - x,
        {
            let dx = bx + x;
            proof {
                assert(y * b.w + x < b.w * b.h) by (nonlinear_arith)
                    requires
                        y < b.h,
                        x < b.w,
                ;
                assert((y * b.w + x) * 4 + 3 < b.w * b.h * 4) by (nonlinear_arith)
                    requires
                        y * b.w + x < b.w * b.h,
                ;
                assert(dy * dw + dx < dw * dh) by (nonlinear_arith)
                    requires
                        dy < dh,
                        dx < dw,
                ;
                assert((dy * dw + dx) * 4 + 3 < dw * dh * 4) by (nonlinear_arith)
                    requires
                        dy * dw + dx < dw * dh,
                ;
                assert(b.buf@.len() == b.buf.len());
            }
            let si = (y * b.w + x) * 4;
            let sa = b.buf[si + 3];
            if sa != 0 {
                let di = (dy * dw + dx) * 4;
                let ghost prev = dst@;
                proof {
                    assert forall|c: int| 0 <= c < 4 implies bubble_cell(di + c, dw as int, dh as int, b.w as int, b.h as int)
                        == Some((y as int, x as int, c)) by {
                        assert(di + c == dy * rw + (dx * 4 + c)) by (nonlinear_arith)
                            requires
                                di == (dy * dw + dx) * 4,
                                rw == dw * 4,
                        ;
                        lemma_fundamental_div_mod_converse(di + c, rw, dy as int, dx * 4 + c);
                    }
                }
                let inv = 255 - sa;
                proof {
                    lemma_blend_bounds(b.buf[si as int], dst@[di as int], sa);
                    lemma_blend_bounds(b.buf[si + 1], dst@[di + 1], sa);
                    lemma_blend_bounds(b.buf[si + 2], dst@[di + 2], sa);
                }
                dst[di] = ((b.buf[si] as u32 * sa as u32 + dst[di] as u32 * inv as u32) / 255) as u8;
                dst[di + 1] = ((b.buf[si + 1] as u32 * sa as u32 + dst[di + 1] as u32 * inv as u32) / 255) as u8;
                dst[di + 2] = ((b.buf[si + 2] as u32 * sa as u32 + dst[di + 2] as u32 * inv as u32) / 255) as u8;
                dst[di + 3] = 255;
                proof {
                    assert forall|i: int| 0 <= i < dst@.len() implies #[trigger] dst@[i] == match bubble_cell(
                        i,
                        dw as int,
                        dh as int,
                        b.w as int,
                        b.h as int,
                    ) {
                        Some(cell) => if cell.0 < y || (cell.0 == y && cell.1 < x + 1) {
                            composited_byte(b.buf@, b.w as int, orig[i], cell.0, cell.1, cell.2)
                        } else {
                            orig[i]
                        },
                        None => orig[i],
                    } by {
                        if di <= i < di + 4 {
                            assert(bubble_cell(i, dw as int, dh as int, b.w as int, b.h as int) == Some((y as int, x as int, i - di)));
                            assert(prev[i] == orig[i]);
                        } else {
                            assert(dst@[i] == prev[i]);
                            if let Some(cell) = bubble_cell(i, dw as int, dh as int, b.w as int, b.h as int) {
                                if cell.0 == y && cell.1 == x {
                                    let row = i / rw;
                                    let r = i % rw;
                                    vstd::arithmetic::div_mod::lemma_fundamental_div_mod(i, rw);
                                    assert(i == rw * row + r);
                                    assert(r / 4 == dx);
                                    assert(r == dx * 4 + r % 4);
                                    assert(i == di + r % 4) by (nonlinear_arith)
                                        requires
                                            i == rw * row + r,
                                            row == dy,
                                            r == dx * 4 + r % 4,
                                            di == (dy * dw + dx) * 4,
                                            rw == dw * 4,
                                    ;
                                }
                            }
                        }
                    }
                }
            } else {
                proof {
                    assert forall|i: int| 0 <= i < dst@.len() implies #[trigger] dst@[i] == match bubble_cell(
                        i,
                        dw as int,
                        dh as int,
                        b.w as int,
                        b.h as int,
                    ) {
                        Some(cell) => if cell.0 < y || (cell.0 == y && cell.1 < x + 1) {
                            composited_byte(b.buf@, b.w as int, orig[i], cell.0, cell.1, cell.2)
                        } else {
                            orig[i]
                        },
                        None => orig[i],
                    } by {
                        if let Some(cell) = bubble_cell(i, dw as int, dh as int, b.w as int, b.h as int) {
                            if cell.0 == y && cell.1 == x {
                                assert(((cell.0 * b.w + cell.1) * 4) == si);
                            }
                        }
                    }
                }
            }
            x += 1;
        }
        y += 1;
    }
    proof {
        assert forall|i: int| 0 <= i < dst@.len() implies #[trigger] dst@[i] == match bubble_cell(
            i,
            dw as int,
            dh as int,
            b.w as int,
            b.h as int,
        ) {
            Some(cell) => composited_byte(b.buf@, b.w as int, orig[i], cell.0, cell.1, cell.2),
            None => orig[i],
        } by {
            if let Some(cell) = bubble_cell(i, dw as int, dh as int, b.w as int, b.h as int) {
                assert(cell.0 < y);
            }
        }
    }
}


/// Undoes premultiplication of one channel, rounding to nearest; values above
/// 255 (from malformed input) wrap as a byte cast does.
pub open spec fn unpremul(c: u8, a: u8) -> u8 {
    ((c as int * 255 + a as int / 2) / a as int) as u8
}

/// Byte `i` of the straight-alpha RGBA image made from premultiplied BGRA `buf`.
pub open spec fn straight_byte(buf: Seq<u8>, i: int) -> u8 {
    let p = i / 4;
    let c = i % 4;
    let a = buf[4 * p + 3];
    if a == 0 {
        0
    } else if c == 3 {
        a
    } else {
        unpremul(buf[4 * p + 2 - c], a)
    }
}

/// Converts premultiplied BGRA pixels to straight-alpha RGBA in a fresh
/// `w`×`h` buffer; pixels past the end of `buf` stay zero, and a trailing
/// partial pixel of `buf` is ignored.
pub fn bgra_premul_to_rgba_straight(buf: &[u8], w: usize, h: usize) -> (out: Vec<u8>)
    requires
        w * h * 4 <= usize::MAX,
        buf@.len() / 4 <= w * h,
    ensures
        out@.len() == w * h * 4,
        forall|i: int|
            0 <= i < out@.len() ==> #[trigger] out@[i] == if i < (buf@.len() / 4) * 4 {
                straight_byte(buf@, i)
            } else {
                0u8
            },
{
    let n = w * h * 4;
    let mut out: Vec<u8> = vec![0u8; n];
    let np = buf.len() / 4;
    assert(buf@.len() == buf.len());
    let mut i: usize = 0;
    while i < np
        invariant
            i <= np,
            np == buf@.len() / 4,
            np <= w * h,
            n == w * h * 4,
            out@.len() == n,
            forall|k: int|
                0 <= k < n ==> #[trigger] out@[k] == if k < i * 4 {
                    straight_byte(buf@, k)
                } else {
                    0u8
                },
        decreases np - i,
    {
        let b = buf[i * 4] as u32;
        let g = buf[i * 4 + 1] as u32;
        let r = buf[i * 4 + 2] as u32;
        let a = buf[i * 4 + 3] as u32;
        let ghost prev = out@;
        proof {
            assert forall|c: int| 0 <= c < 4 implies (#[trigger] ((i * 4 + c) / 4)) == i && (i * 4 + c) % 4 == c by {}
        }
        if a == 0 {
            out[i * 4] = 0;
            out[i * 4 + 1] = 0;
            out[i * 4 + 2] = 0;
            out[i * 4 + 3] = 0;
        } else {
            out[i * 4] = ((r * 255 + a / 2) / a) as u8;
            out[i * 4 + 1] = ((g * 255 + a / 2) / a) as u8;
            out[i * 4 + 2] = ((b * 255 + a / 2) / a) as u8;
            out[i * 4 + 3] = a as u8;
        }
        proof {
            assert forall|k: int| 0 <= k < n implies #[trigger] out@[k] == if k < (i + 1) * 4 {
                straight_byte(buf@, k)
            } else {
                0u8
            } by {
                if i * 4 <= k < i * 4 + 4 {
                    assert(k / 4 == i && k % 4 == k - i * 4);
                } else {
                    assert(out@[k] == prev[k]);
                }
            }
        }
        i += 1;
    }
    out
}

/// Whether window point `(x, y)` hits the pet: inside the `width`×`height`
/// window and over a pixel whose alpha is at least 128 (fainter pixels let
/// the mouse through).
pub fn hit_test_alpha(alpha: &[u8], width: i32, height: i32, x: i32, y: i32) -> (r: bool)
    requires
        width > 0 && height > 0 ==> width * height <= alpha@.len() && width * height <= i32::MAX,
    ensures
        r == (0 <= x < width && 0 <= y < height && alpha@[y * width + x] >= 128),
{
    if x < 0 || y < 0 || x >= width || y >= height {
        return false;
    }
    proof {
        assert(y * width + x < width * height) by (nonlinear_arith)
            requires
                0 <= x < width,
                0 <= y < height,
        ;
        assert(0 <= y * width) by (nonlinear_arith)
            requires
                0 <= y,
                0 < width,
        ;
    }
    alpha[(y * width + x) as usize] >= 128
}

/// Byte `i` of a render buffer once a frame `w4 / 4` pixels wide and `h`
/// rows high is placed `pad` rows down: the rows `pad .. pad + h` that lie
/// within the buffer's `dst_h` whole rows hold the frame's rows in order,
/// and every other byte is clear.
pub open spec fn placed_byte(frame: Seq<u8>, i: int, w4: int, h: int, pad: int, dst_h: int) -> u8 {
    let r = i / w4;
    if pad <= r < pad + h && r < dst_h {
        frame[(r - pad) * w4 + i % w4]
    } else {
        0
    }
}

/// Clears the render buffer and copies the `w`×`h` BGRA frame into it, `pad`
/// rows down, row by row, as far as the buffer's whole rows of `w` pixels
/// reach (see [`placed_byte`]).
pub fn place_frame(buf: &mut Vec<u8>, frame: &[u8], w: usize, h: usize, pad: usize)
    requires
        w > 0,
        w * 4 <= usize::MAX,
        h * (w * 4) <= frame@.len(),
    ensures
        final(buf)@.len() == old(buf)@.len(),
        forall|i: int|
            0 <= i < final(buf)@.len() ==> #[trigger] final(buf)@[i] == placed_byte(
                frame@,
                i,
                w * 4,
                h as int,
                pad as int,
                old(buf)@.len() as int / (w * 4),
            ),
{
    let w4 = w * 4;
    let n = buf.len();
    let dst_h = n / w4;
    let ghost fr = frame@;
    let mut k: usize = 0;
    while k < n
        invariant
            n == buf@.len(),
            k <= n,
            forall|j: int| 0 <= j < k ==> #[trigger] buf@[j] == 0u8,
        decreases n - k,
    {
        buf.set(k, 0);
        k += 1;
    }
    proof {
        assert forall|i: int| 0 <= i < n implies #[trigger] buf@[i] == placed_byte(
            fr,
            i,
            w4 as int,
            0,
            pad as int,
            dst_h as int,
        ) by {
            assert(buf@[i] == 0u8);
        }
    }
    let mut y: usize = 0;
    while y < h
        invariant
            w4 == w * 4,
            w4 > 0,
            n == buf@.len(),
            dst_h == n / w4,
            fr == frame@,
            h * w4 <= fr.len(),
            y <= h,
            forall|i: int|
                0 <= i < n ==> #[trigger] buf@[i] == placed_byte(fr, i, w4 as int, y as int, pad as int, dst_h as int),
        ensures
            forall|i: int|
                0 <= i < n ==> #[trigger] buf@[i] == placed_byte(fr, i, w4 as int, h as int, pad as int, dst_h as int),
        decreases h - y,
    {
        if pad >= dst_h || y >= dst_h - pad {
            proof {
                assert forall|i: int| 0 <= i < n implies #[trigger] buf@[i] == placed_byte(
                    fr,
                    i,
                    w4 as int,
                    h as int,
                    pad as int,
                    dst_h as int,
                ) by {
                    assert(buf@[i] == placed_byte(fr, i, w4 as int, y as int, pad as int, dst_h as int));
                }
            }
            break;
        }
        let r = pad + y;
        proof {
            assert(r * w4 + w4 <= dst_h * w4) by (nonlinear_arith)
                requires
                    r < dst_h,
                    w4 > 0,
            ;
            assert(dst_h * w4 <= n) by (nonlinear_arith)
                requires
                    dst_h == n / w4,
                    w4 > 0,
            ;
            assert(y * w4 + w4 <= h * w4) by (nonlinear_arith)
                requires
                    y < h,
                    w4 > 0,
            ;
            assert(frame@.len() == frame.len());
        }
        let d = r * w4;
        let s = y * w4;
        let mut c: usize = 0;
        while c < w4
            invariant
                w4 == w * 4,
                w4 > 0,
                n == buf@.len(),
                dst_h == n / w4,
                fr == frame@,
                h * w4 <= fr.len(),
                y < h,
                r == pad + y,
                r < dst_h,
                d == r * w4,
                s == y * w4,
                d + w4 <= n,
                s + w4 <= fr.len(),
                s + w4 <= frame.len(),
                c <= w4,
                forall|i: int|
                    0 <= i < n ==> #[trigger] buf@[i] == if i / (w4 as int) == r && i % (w4 as int) < c {
                        fr[(r - pad) * w4 + i % (w4 as int)]
                    } else {
                        placed_byte(fr, i, w4 as int, y as int, pad as int, dst_h as int)
                    },
            decreases w4 - c,
        {
            let ghost prev = buf@;
            proof {
                lemma_fundamental_div_mod_converse((d + c) as int, w4 as int, r as int, c as int);
            }
            buf.set(d + c, frame[s + c]);
            proof {
                assert forall|i: int| 0 <= i < n implies #[trigger] buf@[i] == if i / (w4 as int) == r && i % (w4 as int) < c + 1 {
                    fr[(r - pad) * w4 + i % (w4 as int)]
                } else {
                    placed_byte(fr, i, w4 as int, y as int, pad as int, dst_h as int)
                } by {
                    if i == d + c {
                        assert(i / (w4 as int) == r && i % (w4 as int) == c);
                        assert((r - pad) * w4 + c == s + c);
                    } else {
                        assert(buf@[i] == prev[i]);
                        if i / (w4 as int) == r && i % (w4 as int) < c + 1 {
                            assert(i == r * w4 + i % (w4 as int)) by {
                                vstd::arithmetic::div_mod::lemma_fundamental_div_mod(i, w4 as int);
                                vstd::arithmetic::mul::lemma_mul_is_commutative(w4 as int, r as int);
                            }
                            assert(i % (w4 as int) != c);
                        }
                    }
                }
            }
            c += 1;
        }
        proof {
            assert forall|i: int| 0 <= i < n implies #[trigger] buf@[i] == placed_byte(
                fr,
                i,
                w4 as int,
                (y + 1) as int,
                pad as int,
                dst_h as int,
            ) by {
                assert(0 <= i % (w4 as int) < w4) by {
                    vstd::arithmetic::div_mod::lemma_mod_bound(i, w4 as int);
                }
            }
        }
        y += 1;
    }
    proof {
        assert(old(buf)@.len() == n);
    }
}

/// Copies the alpha byte of each of the first `alpha.len()` pixels of the
/// BGRA buffer `dst` into `alpha`, for hit testing.
pub fn copy_alpha_plane(dst: &[u8], alpha: &mut Vec<u8>)
    requires
        old(alpha)@.len() * 4 <= dst@.len(),
    ensures
        final(alpha)@.len() == old(alpha)@.len(),
        forall|k: int| 0 <= k < final(alpha)@.len() ==> #[trigger] final(alpha)@[k] == dst@[alpha_at(k)],
{
    let n = alpha.len();
    let mut k: usize = 0;
    while k < n
        invariant
            n == alpha@.len(),
            n * 4 <= dst@.len(),
            k <= n,
            forall|j: int| 0 <= j < k ==> #[trigger] alpha@[j] == dst@[alpha_at(j)],
        decreases n - k,
    {
        proof {
            assert(dst@.len() == dst.len());
        }
        alpha.set(k, dst[4 * k + 3]);
        k += 1;
    }
}

/// A window pixel byte once a frame has been presented: the scaled frame,
/// with the bubble (if any) blended over it.
pub open spec fn presented_byte(
    src: Seq<u8>,
    i: int,
    sw: int,
    sh: int,
    dw: int,
    dh: int,
    mirror: bool,
    bubble: Option<(Seq<u8>, int, int)>,
) -> u8 {
    let scaled = scaled_byte(src, i, sw, sh, dw, dh, dw * 4, mirror);
    match bubble {
        Some(b) => match bubble_cell(i, dw, dh, b.1, b.2) {
            Some(cell) => composited_byte(b.0, b.1, scaled, cell.0, cell.1, cell.2),
            None => scaled,
        },
        None => scaled,
    }
}

/// Presents an `sw`×`sh` BGRA frame in a `dw`×`dh` window: scales it (mirrored
/// when the pet faces right), blends the speech bubble over it and keeps
/// the window's alpha for hit testing. Nothing changes when the frame holds
/// too few bytes or the frame or the window is empty.
pub fn present_frame(
    src: &[u8],
    sw: usize,
    sh: usize,
    mirror: bool,
    bubble: &Option<BubbleBitmap>,
    dst: &mut [u8],
    dw: usize,
    dh: usize,
    alpha: &mut Vec<u8>,
)
    requires
        old(dst)@.len() == dw * dh * 4,
        old(alpha)@.len() == dw * dh,
        dw * sw <= u64::MAX,
        dh * sh <= u64::MAX,
        bubble matches Some(b) ==> b.wf(),
    ensures
        final(dst)@.len() == old(dst)@.len(),
        final(alpha)@.len() == old(alpha)@.len(),
        (src@.len() < sw * sh * 4 || sw == 0 || sh == 0 || dw == 0 || dh == 0) ==> final(dst)@ == old(dst)@ && final(alpha)@ == old(
            alpha,
        )@,
        !(src@.len() < sw * sh * 4 || sw == 0 || sh == 0 || dw == 0 || dh == 0) ==> {
            &&& forall|i: int|
                0 <= i < final(dst)@.len() ==> #[trigger] final(dst)@[i] == presented_byte(
                    src@,
                    i,
                    sw as int,
                    sh as int,
                    dw as int,
                    dh as int,
                    mirror,
                    match bubble {
                        Some(b) => Some((b.buf@, b.w as int, b.h as int)),
                        None => None,
                    },
                )
            &&& forall|k: int| 0 <= k < final(alpha)@.len() ==> #[trigger] final(alpha)@[k] == final(dst)@[alpha_at(k)]
        },
{
    let sl = src.len();
    let short = match sw.checked_mul(sh) {
        Some(p) => match p.checked_mul(4) {
            Some(n) => sl < n,
            None => {
                proof {
                    assert(sl < sw * sh * 4);
                }
                true
            },
        },
        None => {
            proof {
                assert(sw * sh * 4 >= sw * sh) by (nonlinear_arith);
                assert(sl < sw * sh * 4);
            }
            true
        },
    };
    if short || sw == 0 || sh == 0 || dw == 0 || dh == 0 {
        return;
    }
    proof {
        assert(dw * 4 <= dw * dh * 4) by (nonlinear_arith)
            requires
                dh > 0,
        ;
        assert(dst@.len() == dst.len());
    }
    let stride = dw * 4;
    proof {
        assert((dh - 1) * stride + dw * 4 == dw * dh * 4) by (nonlinear_arith)
            requires
                stride == dw * 4,
                dh > 0,
        ;
    }
    scale_bgra(src, sw, sh, dst, dw, dh, stride, mirror);
    let ghost scaled = dst@;
    proof {
        assert forall|i: int| 0 <= i < scaled.len() implies in_block(i, dw as int, dh as int, stride as int) by {
            assert(i / (stride as int) < dh) by (nonlinear_arith)
                requires
                    0 <= i < dw * dh * 4,
                    stride == dw * 4,
                    dw > 0,
            ;
            assert(i % (stride as int) < dw * 4) by (nonlinear_arith)
                requires
                    stride == dw * 4,
                    dw > 0,
            ;
        }
    }
    match bubble {
        Some(b) => {
            composite_bubble(dst, dw, dh, b);
        },
        None => {},
    }
    proof {
        assert(alpha@.len() * 4 <= dst@.len());
    }
    copy_alpha_plane(dst, alpha);
}

} // verus!

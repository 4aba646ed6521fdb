//! Frame-by-frame playback of one animation and the composition of decoded
//! frames (8-bit 4:2:0 YUV colour plus an optional alpha plane) into
//! premultiplied BGRA. Decoding the VP9 data is done by the caller.

use vstd::prelude::*;
use std::rc::Rc;
use crate::webm::{WebM, spec_duration_ms};

verus! {

/// Canvas width of the animations.
pub const W: usize = 640;
/// Canvas height of the animations.
pub const H: usize = 360;

/// Luma term of limited-range BT.601: `298 * max(i - 16, 0) / 256`.
pub open spec fn luma(i: int) -> int {
    (298 * (if i - 16 < 0 {
        0
    } else {
        i - 16
    })) / 256
}

/// The luma table used by [`compose_into`].
pub open spec fn ytab_ok(t: [i32; 256]) -> bool {
    forall|i: int| 0 <= i < 256 ==> #[trigger] t@[i] == luma(i)
}

/// Builds the luma table.
pub fn make_ytab() -> (t: [i32; 256])
    ensures
        ytab_ok(t),
{
    let mut t = [0i32; 256];
    let mut i: usize = 0;
    while i < 256
        invariant
            i <= 256,
            forall|k: int| 0 <= k < i ==> #[trigger] t@[k] == luma(k),
        decreases 256 - i,
    {
        let y: i32 = if i < 16 {
            0
        } else {
            i as i32 - 16
        };
        let prod: i32 = 298 * y;
        proof {
            assert(prod >> 8u32 == prod / 256) by (bit_vector)
                requires
                    0 <= prod,
            ;
        }
        t[i] = prod >> 8;
        i += 1;
    }
    t
}

/// A plane of 8-bit samples whose rows start every `stride` bytes.
pub struct Plane<'a> {
    pub data: &'a [u8],
    pub stride: usize,
}

/// A decoded colour frame: `w`×`h` luma samples, chroma planes subsampled by
/// `1 << x_shift` horizontally and `1 << y_shift` vertically.
pub struct YuvFrame<'a> {
    pub w: usize,
    pub h: usize,
    pub y: Plane<'a>,
    pub u: Plane<'a>,
    pub v: Plane<'a>,
    pub x_shift: u32,
    pub y_shift: u32,
}

pub open spec fn clamp255(v: int) -> int {
    if v < 0 {
        0
    } else if v > 255 {
        255
    } else {
        v
    }
}

/// Red, green and blue of one sample (integer BT.601, rounded, clamped).
pub open spec fn rgb_of(y: int, u: int, v: int) -> (int, int, int) {
    let base = luma(y);
    (
        clamp255(base + (409 * (v - 128) + 128) / 256),
        clamp255(base - (100 * (u - 128) + 128) / 256 - (208 * (v - 128) + 128) / 256),
        clamp255(base + (516 * (u - 128) + 128) / 256),
    )
}

/// Premultiplied BGRA bytes of a sample with coverage `a`.
#[verifier::opaque]
pub open spec fn bgra_of(y: int, u: int, v: int, a: int) -> Seq<u8> {
    let c = rgb_of(y, u, v);
    seq![(c.2 * a / 256) as u8, (c.1 * a / 256) as u8, (c.0 * a / 256) as u8, a as u8]
}

/// Sample `(x, y)` of a plane subsampled by the given shifts.
pub open spec fn sample(p: Seq<u8>, stride: int, x: int, y: int, xs: u32, ys: u32) -> int {
    p[(y as usize >> ys) as int * stride + (x as usize >> xs) as int] as int
}

/// The planes hold every sample of the frame.
pub open spec fn frame_fits(f: YuvFrame) -> bool {
    &&& f.x_shift < 32 && f.y_shift < 32
    &&& f.w * f.h * 4 <= usize::MAX
    &&& f.w > 0 && f.h > 0 ==> {
        &&& (f.h - 1) * f.y.stride + f.w <= f.y.data@.len()
        &&& ((f.h - 1) as usize >> f.y_shift) * f.u.stride + ((f.w - 1) as usize >> f.x_shift) < f.u.data@.len()
        &&& ((f.h - 1) as usize >> f.y_shift) * f.v.stride + ((f.w - 1) as usize >> f.x_shift) < f.v.data@.len()
    }
}

/// The alpha plane holds every sample of a `w`×`h` frame.
pub open spec fn alpha_fits(a: Plane, w: usize, h: usize) -> bool {
    w > 0 && h > 0 ==> (h - 1) * a.stride + w <= a.data@.len()
}

/// The coverage of pixel `(x, y)`: the alpha sample, or opaque without one.
pub open spec fn coverage(alpha: Option<Plane>, x: int, y: int) -> int {
    match alpha {
        Some(a) => a.data@[y * a.stride + x] as int,
        None => 255,
    }
}

proof fn lemma_shift_mono(a: usize, b: usize, s: u32)
    requires
        a <= b,
        s < 32,
    ensures
        (a >> s) <= (b >> s),
{
    assert(a <= b ==> (a >> s) <= (b >> s)) by (bit_vector)
        requires
            s < 32,
    ;
}

proof fn lemma_row_index(y: int, h: int, stride: int, x: int, w: int)
    requires
        0 <= y < h,
        0 <= x < w,
        stride >= 0,
    ensures
        0 <= y * stride + x <= (h - 1) * stride + w - 1,
{
    assert(0 <= y * stride <= (h - 1) * stride) by (nonlinear_arith)
        requires
            0 <= y < h,
            stride >= 0,
    ;
}

fn clamp_u8(v: i32) -> (r: u32)
    ensures
        r == clamp255(v as int),
{
    if v < 0 {
        0
    } else if v > 255 {
        255
    } else {
        v as u32
    }
}

fn shr8(x: i32) -> (r: i32)
    ensures
        r as int == x as int / 256,
{
    proof {
        assert((x >> 8u32) as int == x as int / 256) by (bit_vector);
    }
    x >> 8
}

/// Premultiplied BGRA of pixel `(x, y)` of a decoded frame.
fn pixel_bgra(color: &YuvFrame, alpha: Option<&Plane>, ytab: &[i32; 256], x: usize, y: usize) -> (r: (u8, u8, u8, u8))
    requires
        frame_fits(*color),
        ytab_ok(*ytab),
        alpha matches Some(a) ==> alpha_fits(*a, color.w, color.h),
        x < color.w,
        y < color.h,
    ensures
        seq![r.0, r.1, r.2, r.3] == bgra_of(
            sample(color.y.data@, color.y.stride as int, x as int, y as int, 0, 0),
            sample(color.u.data@, color.u.stride as int, x as int, y as int, color.x_shift, color.y_shift),
            sample(color.v.data@, color.v.stride as int, x as int, y as int, color.x_shift, color.y_shift),
            coverage(
                match alpha {
                    Some(a) => Some(*a),
                    None => None,
                },
                x as int,
                y as int,
            ),
        ),
{
    let w = color.w;
    let h = color.h;
    proof {
        lemma_row_index(y as int, h as int, color.y.stride as int, x as int, w as int);
        lemma_shift_mono(y, (h - 1) as usize, color.y_shift);
        lemma_shift_mono(x, (w - 1) as usize, color.x_shift);
        let ry = (y >> color.y_shift) as int;
        let rh = ((h - 1) as usize >> color.y_shift) as int;
        assert(ry * color.u.stride <= rh * color.u.stride) by (nonlinear_arith)
            requires
                0 <= ry <= rh,
        ;
        assert(ry * color.v.stride <= rh * color.v.stride) by (nonlinear_arith)
            requires
                0 <= ry <= rh,
        ;
        assert(0 <= ry * color.u.stride && 0 <= ry * color.v.stride) by (nonlinear_arith)
            requires
                0 <= ry,
        ;
        assert(color.y.data@.len() == color.y.data.len());
        assert(color.u.data@.len() == color.u.data.len());
        assert(color.v.data@.len() == color.v.data.len());
    }
    let yv = color.y.data[y * color.y.stride + x] as usize;
    let ur = (y >> color.y_shift) * color.u.stride + (x >> color.x_shift);
    let vr = (y >> color.y_shift) * color.v.stride + (x >> color.x_shift);
    let u = color.u.data[ur] as i32;
    let v = color.v.data[vr] as i32;
    let base = ytab[yv];
    let r = clamp_u8(base + shr8(409 * (v - 128) + 128));
    let g = clamp_u8(base - shr8(100 * (u - 128) + 128) - shr8(208 * (v - 128) + 128));
    let b = clamp_u8(base + shr8(516 * (u - 128) + 128));
    let a: u32 = match alpha {
        Some(ap) => {
            proof {
                lemma_row_index(y as int, h as int, ap.stride as int, x as int, w as int);
                assert(ap.data@.len() == ap.data.len());
            }
            ap.data[y * ap.stride + x] as u32
        },
        None => 255,
    };
    proof {
        assert(b * a <= 255 * 255 && g * a <= 255 * 255 && r * a <= 255 * 255) by (nonlinear_arith)
            requires
                b <= 255,
                g <= 255,
                r <= 255,
                a <= 255,
        ;
    }
    let bv: u32 = b * a;
    let gv: u32 = g * a;
    let rv: u32 = r * a;
    proof {
        assert((bv >> 8u32) == bv / 256 && (gv >> 8u32) == gv / 256 && (rv >> 8u32) == rv / 256) by (bit_vector);
        assert((y >> 0u32) == y && (x >> 0u32) == x) by (bit_vector);
        assert(sample(color.y.data@, color.y.stride as int, x as int, y as int, 0, 0) == yv as int);
        assert(sample(color.u.data@, color.u.stride as int, x as int, y as int, color.x_shift, color.y_shift) == u as int);
        assert(sample(color.v.data@, color.v.stride as int, x as int, y as int, color.x_shift, color.y_shift) == v as int);
        assert(base == luma(yv as int));
        assert(coverage(
                match alpha {
                    Some(a) => Some(*a),
                    None => None,
                },
                x as int,
                y as int,
            ) == a as int);
        reveal(bgra_of);
        assert(seq![(bv >> 8) as u8, (gv >> 8) as u8, (rv >> 8) as u8, a as u8] =~= bgra_of(
            sample(color.y.data@, color.y.stride as int, x as int, y as int, 0, 0),
            sample(color.u.data@, color.u.stride as int, x as int, y as int, color.x_shift, color.y_shift),
            sample(color.v.data@, color.v.stride as int, x as int, y as int, color.x_shift, color.y_shift),
            coverage(
                match alpha {
                    Some(a) => Some(*a),
                    None => None,
                },
                x as int,
                y as int,
            ),
        ));
    }
    ((bv >> 8) as u8, (gv >> 8) as u8, (rv >> 8) as u8, a as u8)
}

/// `v` held to the byte range 0..=255.
pub open spec fn to_byte_range(v: int) -> int {
    if v < 0 {
        0
    } else if v > 255 {
        255
    } else {
        v
    }
}

/// A composed pixel follows integer BT.601 with rounding: with
/// `L = 298 * max(Y - 16, 0) / 256`, red is `L + (409 (V-128) + 128) / 256`,
/// green `L - (100 (U-128) + 128) / 256 - (208 (V-128) + 128) / 256`, blue
/// `L + (516 (U-128) + 128) / 256`, each held to 0..=255 and premultiplied
/// by the coverage `a` as `c * a / 256`; the bytes are blue, green, red and
/// `a`.
pub proof fn composed_pixel_is_bt601(y: int, u: int, v: int, a: int)
    ensures
        ({
            let l = 298 * (if y - 16 < 0 {
                0
            } else {
                y - 16
            }) / 256;
            let r = to_byte_range(l + (409 * (v - 128) + 128) / 256);
            let g = to_byte_range(l - (100 * (u - 128) + 128) / 256 - (208 * (v - 128) + 128) / 256);
            let b = to_byte_range(l + (516 * (u - 128) + 128) / 256);
            &&& bgra_of(y, u, v, a).len() == 4
            &&& bgra_of(y, u, v, a)[0] == (b * a / 256) as u8
            &&& bgra_of(y, u, v, a)[1] == (g * a / 256) as u8
            &&& bgra_of(y, u, v, a)[2] == (r * a / 256) as u8
            &&& bgra_of(y, u, v, a)[3] == a as u8
        }),
{
    reveal(bgra_of);
}

/// Composes a decoded frame into `out` as `w`×`h` premultiplied BGRA pixels
/// (the buffer is resized to fit).
pub fn compose_into(color: &YuvFrame, alpha: Option<&Plane>, ytab: &[i32; 256], out: &mut Vec<u8>)
    requires
        frame_fits(*color),
        ytab_ok(*ytab),
        alpha matches Some(a) ==> alpha_fits(*a, color.w, color.h),
    ensures
        final(out)@.len() == color.w * color.h * 4,
        forall|y: int, x: int, c: int|
            0 <= y < color.h && 0 <= x < color.w && 0 <= c < 4 ==> #[trigger] final(out)@[(y * color.w + x) * 4 + c]
                == bgra_of(
                sample(color.y.data@, color.y.stride as int, x, y, 0, 0),
                sample(color.u.data@, color.u.stride as int, x, y, color.x_shift, color.y_shift),
                sample(color.v.data@, color.v.stride as int, x, y, color.x_shift, color.y_shift),
                coverage(
                    match alpha {
                        Some(a) => Some(*a),
                        None => None,
                    },
                    x,
                    y,
                ),
            )[c],
{
    let w = color.w;
    let h = color.h;
    out.resize(w * h * 4, 0);
    let ghost al = match alpha {
        Some(a) => Some(*a),
        None => None::<Plane>,
    };
    let mut y: usize = 0;
    while y < h
        invariant
            w == color.w,
            h == color.h,
            frame_fits(*color),
            ytab_ok(*ytab),
            alpha matches Some(a) ==> alpha_fits(*a, w, h),
            al == (match alpha {
                Some(a) => Some(*a),
                None => None::<Plane>,
            }),
            y <= h,
            out@.len() == w * h * 4,
            forall|yy: int, x: int, c: int|
                0 <= yy < y && 0 <= x < w && 0 <= c < 4 ==> #[trigger] out@[(yy * w + x) * 4 + c] == bgra_of(
                    sample(color.y.data@, color.y.stride as int, x, yy, 0, 0),
                    sample(color.u.data@, color.u.stride as int, x, yy, color.x_shift, color.y_shift),
                    sample(color.v.data@, color.v.stride as int, x, yy, color.x_shift, color.y_shift),
                    coverage(al, x, yy),
                )[c],
        decreases h - y,
    {
        let mut x: usize = 0;
        while x < w
            invariant
                w == color.w,
                h == color.h,
                frame_fits(*color),
                ytab_ok(*ytab),
                alpha matches Some(a) ==> alpha_fits(*a, w, h),
                al == (match alpha {
                    Some(a) => Some(*a),
                    None => None::<Plane>,
                }),
                y < h,
                x <= w,
                out@.len() == w * h * 4,
                forall|yy: int, xx: int, c: int|
                    ((0 <= yy < y && 0 <= xx < w) || (yy == y && 0 <= xx < x)) && 0 <= c < 4
                        ==> #[trigger] out@[(yy * w + xx) * 4 + c] == bgra_of(
                        sample(color.y.data@, color.y.stride as int, xx, yy, 0, 0),
                        sample(color.u.data@, color.u.stride as int, xx, yy, color.x_shift, color.y_shift),
                        sample(color.v.data@, color.v.stride as int, xx, yy, color.x_shift, color.y_shift),
                        coverage(al, xx, yy),
                    )[c],
            decreases w - x,
        {
            proof {
                assert((y * w + x) * 4 + 3 < w * h * 4) by (nonlinear_arith)
                    requires
                        y < h,
                        x < w,
                ;
                assert(out@.len() == out.len());
            }
            let (pb, pg, pr, pa) = pixel_bgra(color, alpha, ytab, x, y);
            let o = (y * w + x) * 4;
            let ghost prev = out@;
            out[o] = pb;
            out[o + 1] = pg;
            out[o + 2] = pr;
            out[o + 3] = pa;
            proof {
                assert forall|yy: int, xx: int, c: int|
                    ((0 <= yy < y && 0 <= xx < w) || (yy == y && 0 <= xx < x + 1)) && 0 <= c < 4
                        implies #[trigger] out@[(yy * w + xx) * 4 + c] == bgra_of(
                        sample(color.y.data@, color.y.stride as int, xx, yy, 0, 0),
                        sample(color.u.data@, color.u.stride as int, xx, yy, color.x_shift, color.y_shift),
                        sample(color.v.data@, color.v.stride as int, xx, yy, color.x_shift, color.y_shift),
                        coverage(al, xx, yy),
                    )[c] by {
                    let p = (yy * w + xx) * 4 + c;
                    if yy == y && xx == x {
                        assert(p == o + c);
                    } else {
                        assert(p < o || p >= o + 4) by (nonlinear_arith)
                            requires
                                (0 <= yy < y && 0 <= xx < w) || (yy == y && 0 <= xx < x),
                                0 <= c < 4,
                                p == (yy * w + xx) * 4 + c,
                                o == (y * w + x) * 4,
                        ;
                        assert(0 <= p < w * h * 4) by (nonlinear_arith)
                            requires
                                0 <= yy <= y < h,
                                0 <= xx < w,
                                0 <= c < 4,
                                p == (yy * w + xx) * 4 + c,
                        ;
                        assert(out@[p] == prev[p]);
                    }
                }
            }
            x += 1;
        }
        y += 1;
    }
}

/// Playback position in one animation.
pub struct ClipDecoder {
    pub webm: Rc<WebM>,
    /// Index of the next frame to show.
    pub cur: usize,
    /// Luma table used for composition.
    pub ytab: [i32; 256],
}

impl ClipDecoder {
    /// The table behind composition holds the luma terms.
    pub open spec fn wf(&self) -> bool {
        ytab_ok(self.ytab)
    }

    /// Starts at the first frame.
    pub fn new(webm: Rc<WebM>) -> (r: Option<ClipDecoder>)
        ensures
            r matches Some(c) && c.cur == 0 && c.webm == webm && c.wf(),
    {
        Some(ClipDecoder { webm, cur: 0, ytab: make_ytab() })
    }

    /// Moves to frame `idx` (0 replays from the start).
    pub fn seek(&mut self, idx: usize)
        ensures
            final(self).cur == idx,
            final(self).webm == old(self).webm,
            old(self).wf() ==> final(self).wf(),
    {
        if self.cur == idx {
            return;
        }
        self.cur = idx;
    }

    /// Number of frames of the animation.
    pub fn frame_count(&self) -> (r: usize)
        ensures
            r == self.webm.frames@.len(),
    {
        self.webm.frames.len()
    }

    /// Playing time of the animation.
    pub fn duration_ms(&self) -> (r: u64)
        ensures
            r == spec_duration_ms(self.webm@),
    {
        self.webm.duration_ms()
    }

    /// Timecode of the frame shown last (0 before the first).
    pub fn current_time_ms(&self) -> (r: u64)
        ensures
            r == if self.cur == 0 || self.webm.frames@.len() == 0 {
                0
            } else {
                let i = if self.cur - 1 < self.webm.frames@.len() - 1 {
                    self.cur - 1
                } else {
                    self.webm.frames@.len() - 1
                };
                self.webm.frames@[i].timecode_ms
            },
    {
        let n = self.webm.frames.len();
        if self.cur == 0 || n == 0 {
            return 0;
        }
        let i = if self.cur - 1 < n - 1 {
            self.cur - 1
        } else {
            n - 1
        };
        self.webm.frames[i].timecode_ms
    }

    /// Takes the next frame to show, if any, and moves past it.
    pub fn next_frame_index(&mut self) -> (r: Option<usize>)
        ensures
            final(self).webm == old(self).webm,
            old(self).wf() ==> final(self).wf(),
            old(self).cur >= old(self).webm.frames@.len() ==> r is None && final(self).cur == old(self).cur,
            old(self).cur < old(self).webm.frames@.len() ==> r == Some(old(self).cur) && final(self).cur == old(self).cur + 1,
    {
        if self.cur >= self.webm.frames.len() {
            return None;
        }
        let i = self.cur;
        self.cur += 1;
        Some(i)
    }

    /// Composes a decoded frame of this animation with the clip's table.
    pub fn compose(&self, color: &YuvFrame, alpha: Option<&Plane>, out: &mut Vec<u8>)
        requires
            self.wf(),
            frame_fits(*color),
            alpha matches Some(a) ==> alpha_fits(*a, color.w, color.h),
        ensures
            final(out)@.len() == color.w * color.h * 4,
            forall|y: int, x: int, c: int|
                0 <= y < color.h && 0 <= x < color.w && 0 <= c < 4 ==> #[trigger] final(out)@[(y * color.w + x) * 4 + c]
                    == bgra_of(
                    sample(color.y.data@, color.y.stride as int, x, y, 0, 0),
                    sample(color.u.data@, color.u.stride as int, x, y, color.x_shift, color.y_shift),
                    sample(color.v.data@, color.v.stride as int, x, y, color.x_shift, color.y_shift),
                    coverage(
                        match alpha {
                            Some(a) => Some(*a),
                            None => None,
                        },
                        x,
                        y,
                    ),
                )[c],
    {
        compose_into(color, alpha, &self.ytab, out)
    }
}

} // verus!

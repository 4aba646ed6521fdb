//! The integer geometry of converting a green-screen video into an animation:
//! the watermark corners that are cleared, the union of the character's
//! boxes over the sampled frames, the crop around it, where the scaled
//! character is placed on the canvas, and the filter text handed to the
//! encoder. The colour keying itself works in floating point and is not here.

use vstd::prelude::*;
use vstd::string::StringExecFns;
use crate::text::{dec_digits, push_decimal};

verus! {

/// Canvas size and foot margin of a converted animation.
pub struct CanvasSpec {
    pub canvas_w: usize,
    pub canvas_h: usize,
    pub foot_margin: i64,
}

/// Width and height of the watermark corners of a `w`×`h` frame: 24% of the
/// width and 15% of the height, rounded down.
pub fn watermark_margins(w: usize, h: usize) -> (r: (usize, usize))
    requires
        w * 24 <= usize::MAX,
        h * 15 <= usize::MAX,
    ensures
        r.0 == w * 24 / 100,
        r.1 == h * 15 / 100,
        r.0 <= w,
        r.1 <= h,
{
    (w * 24 / 100, h * 15 / 100)
}

/// Whether pixel `(x, y)` lies in one of the four watermark corners
/// (`mw` wide, `mh` high) of a `w`×`h` frame.
pub open spec fn in_watermark_spec(x: int, y: int, w: int, h: int, mw: int, mh: int) -> bool {
    (x < mw || x >= w - mw) && (y < mh || y >= h - mh)
}

/// Whether pixel `(x, y)` lies in a watermark corner (see [`in_watermark_spec`]).
pub fn in_watermark(x: usize, y: usize, w: usize, h: usize, mw: usize, mh: usize) -> (r: bool)
    requires
        mw <= w,
        mh <= h,
    ensures
        r == in_watermark_spec(x as int, y as int, w as int, h as int, mw as int, mh as int),
{
    (x < mw || x >= w - mw) && (y < mh || y >= h - mh)
}

/// A box of pixels `(x0, y0, x1, y1)`, bounds included.
pub open spec fn box_has(q: (usize, usize, usize, usize), x: int, y: int) -> bool {
    q.0 <= x <= q.2 && q.1 <= y <= q.3
}

/// Whether the alpha of pixel `(x, y)` of a plane `w` wide is above 16, the
/// level from which a pixel counts as part of the character.
pub open spec fn opaque_px(alpha: Seq<u8>, w: int, x: int, y: int) -> bool {
    alpha[y * w + x] > 16
}

/// The pixels of a plane `w` wide read so far: every row above `cy`, and the
/// first `cx` pixels of row `cy`.
pub open spec fn seen(w: int, cx: int, cy: int, x: int, y: int) -> bool {
    0 <= x < w && 0 <= y && (y < cy || (y == cy && x < cx))
}

/// `q` is the smallest box that holds `b` (if any) and every pixel read so
/// far whose alpha is above 16.
pub open spec fn least_box_seen(
    q: (usize, usize, usize, usize),
    b: Option<(usize, usize, usize, usize)>,
    alpha: Seq<u8>,
    w: int,
    cx: int,
    cy: int,
) -> bool {
    &&& (b matches Some(o) ==> q.0 <= o.0 && q.1 <= o.1 && o.2 <= q.2 && o.3 <= q.3)
    &&& forall|x: int, y: int| seen(w, cx, cy, x, y) && #[trigger] opaque_px(alpha, w, x, y) ==> box_has(q, x, y)
    &&& ((b matches Some(o) && o.0 == q.0) || exists|x: int, y: int|
        seen(w, cx, cy, x, y) && #[trigger] opaque_px(alpha, w, x, y) && x == q.0)
    &&& ((b matches Some(o) && o.1 == q.1) || exists|x: int, y: int|
        seen(w, cx, cy, x, y) && #[trigger] opaque_px(alpha, w, x, y) && y == q.1)
    &&& ((b matches Some(o) && o.2 == q.2) || exists|x: int, y: int|
        seen(w, cx, cy, x, y) && #[trigger] opaque_px(alpha, w, x, y) && x == q.2)
    &&& ((b matches Some(o) && o.3 == q.3) || exists|x: int, y: int|
        seen(w, cx, cy, x, y) && #[trigger] opaque_px(alpha, w, x, y) && y == q.3)
}

/// The result of adding the pixels read so far to `b`: `None` exactly when
/// there was no box and no pixel above 16, else the smallest box holding both.
pub open spec fn union_seen(
    r: Option<(usize, usize, usize, usize)>,
    b: Option<(usize, usize, usize, usize)>,
    alpha: Seq<u8>,
    w: int,
    cx: int,
    cy: int,
) -> bool {
    &&& (r is None <==> (b is None && forall|x: int, y: int|
        seen(w, cx, cy, x, y) ==> !#[trigger] opaque_px(alpha, w, x, y)))
    &&& (r matches Some(q) ==> least_box_seen(q, b, alpha, w, cx, cy))
}

/// Adds the character's pixels of one frame's `w`×`h` alpha plane to the box
/// `b` gathered over earlier frames: the result is `None` exactly when there
/// was no box and the plane has no pixel above 16, and otherwise the smallest
/// box holding `b` and every such pixel.
pub fn grow_bbox(b: Option<(usize, usize, usize, usize)>, alpha: &[u8], w: usize, h: usize) -> (r: Option<
    (usize, usize, usize, usize),
>)
    requires
        w * h <= alpha@.len(),
        b matches Some(o) ==> o.0 <= o.2 && o.1 <= o.3,
    ensures
        union_seen(r, b, alpha@, w as int, 0, h as int),
        r matches Some(q) ==> q.0 <= q.2 && q.1 <= q.3 && (b is None ==> q.2 < w && q.3 < h),
{
    let mut bb = b;
    let mut y: usize = 0;
    while y < h
        invariant
            w * h <= alpha@.len(),
            y <= h,
            b matches Some(o) ==> o.0 <= o.2 && o.1 <= o.3,
            union_seen(bb, b, alpha@, w as int, 0, y as int),
            bb matches Some(q) ==> q.0 <= q.2 && q.1 <= q.3 && (b is None ==> q.2 < w && q.3 < y),
        decreases h - y,
    {
        proof {
            assert(y * w + w <= w * h) by (nonlinear_arith)
                requires
                    y < h,
            ;
            assert(w * h <= alpha.len());
        }
        let row = y * w;
        let mut x: usize = 0;
        while x < w
            invariant
                w * h <= alpha@.len(),
                y < h,
                row == y * w,
                row + w <= alpha.len(),
                x <= w,
                b matches Some(o) ==> o.0 <= o.2 && o.1 <= o.3,
                union_seen(bb, b, alpha@, w as int, x as int, y as int),
                bb matches Some(q) ==> q.0 <= q.2 && q.1 <= q.3 && (b is None ==> q.2 < w && q.3 <= y),
            decreases w - x,
        {
            let ghost old_bb = bb;
            if alpha[row + x] > 16 {
                proof {
                    assert(opaque_px(alpha@, w as int, x as int, y as int));
                }
                match bb {
                    Some(q) => {
                        let nx0 = if x < q.0 { x } else { q.0 };
                        let ny0 = if y < q.1 { y } else { q.1 };
                        let nx1 = if x > q.2 { x } else { q.2 };
                        let ny1 = if y > q.3 { y } else { q.3 };
                        bb = Some((nx0, ny0, nx1, ny1));
                    },
                    None => {
                        bb = Some((x, y, x, y));
                    },
                }
            }
            proof {
                assert forall|xx: int, yy: int| seen(w as int, (x + 1) as int, y as int, xx, yy) implies seen(
                    w as int,
                    x as int,
                    y as int,
                    xx,
                    yy,
                ) || (xx == x && yy == y) by {}
            }
            x += 1;
        }
        proof {
            assert forall|xx: int, yy: int| seen(w as int, 0, (y + 1) as int, xx, yy) <==> seen(
                w as int,
                w as int,
                y as int,
                xx,
                yy,
            ) by {}
        }
        y += 1;
    }
    bb
}

/// The crop window around a character box `(x0, y0, x1, y1)` of a `w`×`h`
/// frame: six pixels of margin on every side, kept inside the frame.
/// Returns `(x, y, width, height)`.
pub fn crop_window(q: (usize, usize, usize, usize), w: usize, h: usize) -> (r: (usize, usize, usize, usize))
    requires
        q.0 <= q.2 < w,
        q.1 <= q.3 < h,
    ensures
        r.0 == (if q.0 >= 6 { q.0 - 6 } else { 0 }),
        r.1 == (if q.1 >= 6 { q.1 - 6 } else { 0 }),
        r.0 + r.2 == (if q.2 + 6 < w { q.2 + 6 } else { w as int }),
        r.1 + r.3 == (if q.3 + 6 < h { q.3 + 6 } else { h as int }),
        r.2 > 0,
        r.3 > 0,
{
    let x0 = q.0.saturating_sub(6);
    let y0 = q.1.saturating_sub(6);
    let x1 = if w >= 6 && q.2 < w - 6 { q.2 + 6 } else { w };
    let y1 = if h >= 6 && q.3 < h - 6 { q.3 + 6 } else { h };
    (x0, y0, x1 - x0, y1 - y0)
}

/// The size of the scaled character: the width, given already rounded, made
/// even by rounding an odd one up and at least 2; the height at least 2.
pub fn scaled_size(sw_rounded: i64, sh_target: i64) -> (r: (usize, usize))
    requires
        sw_rounded < usize::MAX,
        sw_rounded < i64::MAX,
        sh_target <= usize::MAX,
    ensures
        r.0 == (if sw_rounded % 2 != 0 {
            if sw_rounded + 1 >= 2 { sw_rounded + 1 } else { 2 }
        } else {
            if sw_rounded >= 2 { sw_rounded as int } else { 2 }
        }),
        r.1 == (if sh_target >= 2 { sh_target as int } else { 2 }),
{
    let mut sw = sw_rounded;
    if sw % 2 != 0 {
        sw += 1;
    }
    let sw: i64 = if sw >= 2 { sw } else { 2 };
    let sh: i64 = if sh_target >= 2 { sh_target } else { 2 };
    proof {
        assert(sw_rounded % 2 != 0 <==> sw_rounded as int % 2 != 0);
    }
    (sw as usize, sh as usize)
}

/// Where the scaled `sw`×`sh` character goes on the canvas: centred across,
/// and standing `foot_margin` pixels above the bottom, both kept inside the
/// canvas.
pub fn canvas_offset(c: &CanvasSpec, sw: usize, sh: usize) -> (r: (usize, usize))
    requires
        sw <= c.canvas_w <= i64::MAX,
        sh <= c.canvas_h <= i64::MAX,
        i64::MIN <= c.canvas_h - c.foot_margin <= i64::MAX,
        i64::MIN <= c.canvas_h - c.foot_margin - sh <= i64::MAX,
    ensures
        r.0 == (c.canvas_w - sw) / 2,
        r.1 == ({
            let d = c.canvas_h - c.foot_margin - sh;
            if d < 0 {
                0
            } else if d > c.canvas_h - sh {
                c.canvas_h - sh
            } else {
                d
            }
        }),
{
    let room_w = (c.canvas_w - sw) as i64;
    let dx = room_w / 2;
    let room_h = (c.canvas_h - sh) as i64;
    let d = c.canvas_h as i64 - c.foot_margin - sh as i64;
    let dy: i64 = if d < 0 {
        0
    } else if d > room_h {
        room_h
    } else {
        d
    };
    (dx as usize, dy as usize)
}

/// The encoder's filter text for a crop `(x, y, cw, ch)`, a scale to
/// `sw`×`sh` and a placement at `(dx, dy)` on the canvas:
/// `crop=cw:ch:x:y,scale=sw:sh,pad=W:H:dx:dy:0x00000000`.
pub open spec fn normalize_filter_text(
    crop: (usize, usize, usize, usize),
    sw: usize,
    sh: usize,
    c: CanvasSpec,
    dx: usize,
    dy: usize,
) -> Seq<char> {
    "crop="@ + dec_digits(crop.2 as nat) + ":"@ + dec_digits(crop.3 as nat) + ":"@ + dec_digits(
        crop.0 as nat,
    ) + ":"@ + dec_digits(crop.1 as nat) + ",scale="@ + dec_digits(sw as nat) + ":"@ + dec_digits(
        sh as nat,
    ) + ",pad="@ + dec_digits(c.canvas_w as nat) + ":"@ + dec_digits(c.canvas_h as nat) + ":"@
        + dec_digits(dx as nat) + ":"@ + dec_digits(dy as nat) + ":0x00000000"@
}

fn push_num(s: &mut String, n: usize)
    ensures
        final(s)@ == old(s)@ + dec_digits(n as nat),
{
    push_decimal(s, n as u64);
}

/// Writes the normalising filter text (see [`normalize_filter_text`]).
pub fn normalize_filter(
    crop: (usize, usize, usize, usize),
    sw: usize,
    sh: usize,
    c: &CanvasSpec,
    dx: usize,
    dy: usize,
) -> (r: String)
    ensures
        r@ == normalize_filter_text(crop, sw, sh, *c, dx, dy),
{
    let mut s = String::from_str("crop=");
    push_num(&mut s, crop.2);
    s.append(":");
    push_num(&mut s, crop.3);
    s.append(":");
    push_num(&mut s, crop.0);
    s.append(":");
    push_num(&mut s, crop.1);
    s.append(",scale=");
    push_num(&mut s, sw);
    s.append(":");
    push_num(&mut s, sh);
    s.append(",pad=");
    push_num(&mut s, c.canvas_w);
    s.append(":");
    push_num(&mut s, c.canvas_h);
    s.append(":");
    push_num(&mut s, dx);
    s.append(":");
    push_num(&mut s, dy);
    s.append(":0x00000000");
    s
}

/// The full video filter: the normalising filter, if any, followed by the
/// conversion to the alpha-carrying pixel format.
pub open spec fn video_filter_text(norm: Option<Seq<char>>) -> Seq<char> {
    match norm {
        Some(n) => n + ",format=yuva420p"@,
        None => "format=yuva420p"@,
    }
}

/// Writes the full video filter (see [`video_filter_text`]).
pub fn video_filter(norm: Option<&str>) -> (r: String)
    ensures
        r@ == video_filter_text(match norm {
            Some(n) => Some(n@),
            None => None,
        }),
{
    match norm {
        Some(n) => {
            let mut s = String::from_str(n);
            s.append(",format=yuva420p");
            s
        },
        None => String::from_str("format=yuva420p"),
    }
}

} // verus!

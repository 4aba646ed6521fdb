//! Choosing the frame of an animation that shows the most of the character,
//! and encoding it as PNG (full-body picture and thumbnails).

use vstd::prelude::*;

verus! {

/// Number of pixels among the first `n` of an RGBA buffer whose alpha is
/// above 8.
pub open spec fn opaque_upto(rgba: Seq<u8>, n: int) -> nat
    decreases n,
{
    if n <= 0 {
        0
    } else {
        opaque_upto(rgba, n - 1) + if rgba[4 * (n - 1) + 3] > 8 {
            1nat
        } else {
            0nat
        }
    }
}

/// Number of whole RGBA pixels whose alpha is above 8; a trailing partial
/// pixel is ignored.
pub open spec fn opaque_count(rgba: Seq<u8>) -> nat {
    opaque_upto(rgba, rgba.len() as int / 4)
}

proof fn lemma_opaque_upto_bound(rgba: Seq<u8>, n: int)
    requires
        n >= 0,
    ensures
        opaque_upto(rgba, n) <= n,
    decreases n,
{
    if n > 0 {
        lemma_opaque_upto_bound(rgba, n - 1);
    }
}

/// Counts the pixels of `rgba` whose alpha is above 8.
pub fn count_opaque(rgba: &[u8]) -> (r: u64)
    ensures
        r == opaque_count(rgba@),
{
    let n = rgba.len() / 4;
    let mut c: u64 = 0;
    let mut i: usize = 0;
    while i < n
        invariant
            n == rgba@.len() / 4,
            rgba@.len() == rgba.len(),
            i <= n,
            c == opaque_upto(rgba@, i as int),
        decreases n - i,
    {
        proof {
            lemma_opaque_upto_bound(rgba@, i as int);
        }
        if rgba[4 * i + 3] > 8 {
            c += 1;
        }
        i += 1;
    }
    c
}

/// The PNG file that the `png` crate writes for an 8-bit RGBA image.
pub uninterp spec fn png_encoding(rgba: Seq<u8>, w: nat, h: nat) -> Seq<u8>;

/// The eight bytes that open every PNG file.
pub open spec fn png_signature() -> Seq<u8> {
    seq![137u8, 80, 78, 71, 13, 10, 26, 10]
}

/// Encodes a `w`×`h` RGBA8 image with `png::Encoder`. The encoder refuses a
/// zero width or height and a buffer whose length is not `w * h * 4`; it
/// writes into memory, which does not fail, and starts with the signature.
#[verifier::external_body]
fn encode_rgba_png(rgba: &[u8], w: u32, h: u32) -> (r: Option<Vec<u8>>)
    requires
        w * h * 4 <= usize::MAX,
    ensures
        r is Some <==> (w > 0 && h > 0 && rgba@.len() == w * h * 4),
        r matches Some(b) ==> b@ == png_encoding(rgba@, w as nat, h as nat) && b@.len() >= 8 && b@.subrange(
            0,
            8,
        ) == png_signature(),
{
    let mut buf = Vec::new();
    {
        let mut enc = png::Encoder::new(&mut buf, w, h);
        enc.set_color(png::ColorType::Rgba);
        enc.set_depth(png::BitDepth::Eight);
        let mut writer = enc.write_header().ok()?;
        writer.write_image_data(rgba).ok()?;
    }
    Some(buf)
}

/// Encodes a `w`×`h` RGBA8 image as PNG; `None` for an empty image, a size
/// beyond 32 bits or a buffer of the wrong length.
pub fn encode_png(rgba: &[u8], w: usize, h: usize) -> (r: Option<Vec<u8>>)
    ensures
        r is Some <==> (0 < w <= u32::MAX && 0 < h <= u32::MAX && rgba@.len() == w * h * 4),
        r matches Some(b) ==> b@ == png_encoding(rgba@, w as nat, h as nat),
{
    if w == 0 || h == 0 || w > 0xFFFF_FFFF || h > 0xFFFF_FFFF {
        return None;
    }
    if rgba.len() / 4 / h < w || rgba.len() % 4 != 0 {
        proof {
            assert(rgba@.len() != w * h * 4) by (nonlinear_arith)
                requires
                    rgba.len() / 4 / h < w || rgba.len() % 4 != 0,
                    rgba@.len() == rgba.len(),
                    h > 0,
            ;
        }
        return None;
    }
    proof {
        assert(w * h * 4 <= rgba@.len()) by (nonlinear_arith)
            requires
                rgba.len() / 4 / h >= w,
                rgba.len() % 4 == 0,
                rgba@.len() == rgba.len(),
                h > 0,
        ;
        assert(rgba@.len() <= usize::MAX);
    }
    encode_rgba_png(rgba, w as u32, h as u32)
}

/// The frame kept so far while scanning an animation: the one with the most
/// opaque pixels, the earliest among equals.
pub struct BestFrame {
    pub opaque: u64,
    pub rgba: Vec<u8>,
    pub w: usize,
    pub h: usize,
}

impl BestFrame {
    /// Nothing kept yet.
    pub fn new() -> (r: BestFrame)
        ensures
            r.opaque == 0,
            r.rgba@.len() == 0,
            r.w == 0 && r.h == 0,
    {
        BestFrame { opaque: 0, rgba: Vec::new(), w: 0, h: 0 }
    }

    /// Offers the next composed `w`×`h` frame; it is kept when it has strictly
    /// more opaque pixels than the frame kept so far. Returns whether it was.
    pub fn offer(&mut self, rgba: &Vec<u8>, w: usize, h: usize) -> (kept: bool)
        ensures
            kept == (opaque_count(rgba@) > old(self).opaque),
            kept ==> final(self).opaque == opaque_count(rgba@) && final(self).rgba@ == rgba@
                && final(self).w == w && final(self).h == h,
            !kept ==> *final(self) == *old(self),
    {
        let c = count_opaque(rgba.as_slice());
        if c > self.opaque {
            self.opaque = c;
            self.rgba = rgba.clone();
            self.w = w;
            self.h = h;
            true
        } else {
            false
        }
    }

    /// The PNG of the kept frame, or `None` when no offered frame had an
    /// opaque pixel.
    pub fn finish(&self) -> (r: Option<Vec<u8>>)
        ensures
            self.opaque == 0 ==> r is None,
            self.opaque > 0 ==> (r is Some <==> (0 < self.w <= u32::MAX && 0 < self.h <= u32::MAX
                && self.rgba@.len() == self.w * self.h * 4)),
            r matches Some(b) ==> b@ == png_encoding(self.rgba@, self.w as nat, self.h as nat),
    {
        if self.opaque == 0 {
            return None;
        }
        encode_png(self.rgba.as_slice(), self.w, self.h)
    }
}


/// A composed frame as plain values: RGBA bytes, width and height.
pub open spec fn frame_of(f: Option<(Vec<u8>, usize, usize)>) -> Option<(Seq<u8>, usize, usize)> {
    match f {
        Some(x) => Some((x.0@, x.1, x.2)),
        None => None,
    }
}

/// The opaque-pixel count of the fullest of the first `n` frames and its
/// index (the earliest among equals); `(0, -1)` when no frame has an opaque
/// pixel. Frames that could not be decoded count as empty.
pub open spec fn best_upto(frames: Seq<Option<(Seq<u8>, usize, usize)>>, n: int) -> (nat, int)
    decreases n,
{
    if n <= 0 {
        (0, -1)
    } else {
        let prev = best_upto(frames, n - 1);
        match frames[n - 1] {
            Some(f) => if opaque_count(f.0) > prev.0 {
                (opaque_count(f.0), n - 1)
            } else {
                prev
            },
            None => prev,
        }
    }
}

/// The opaque-pixel count of a frame; zero for one that could not be decoded.
pub open spec fn frame_opaque(f: Option<(Seq<u8>, usize, usize)>) -> nat {
    match f {
        Some(x) => opaque_count(x.0),
        None => 0,
    }
}

proof fn lemma_best_index(frames: Seq<Option<(Seq<u8>, usize, usize)>>, n: int)
    requires
        0 <= n <= frames.len(),
    ensures
        best_upto(frames, n).0 > 0 ==> 0 <= best_upto(frames, n).1 < n
            && frame_opaque(frames[best_upto(frames, n).1]) == best_upto(frames, n).0,
        best_upto(frames, n).0 == 0 ==> best_upto(frames, n).1 == -1,
    decreases n,
{
    if n > 0 {
        lemma_best_index(frames, n - 1);
    }
}

/// The full-body picture of an animation: the PNG of the frame with the most
/// opaque pixels (the earliest among equals), given the animation's frames
/// composed to RGBA (`None` where a frame could not be decoded). Nothing when
/// no frame has an opaque pixel or the PNG cannot be written.
pub fn extract_png(frames: &Vec<Option<(Vec<u8>, usize, usize)>>) -> (r: Option<Vec<u8>>)
    ensures
        ({
            let fv = frames@.map_values(|f: Option<(Vec<u8>, usize, usize)>| frame_of(f));
            let best = best_upto(fv, fv.len() as int);
            if best.0 == 0 {
                r is None
            } else {
                let f = fv[best.1]->0;
                &&& (r is Some <==> (0 < f.1 <= u32::MAX && 0 < f.2 <= u32::MAX && f.0.len() == f.1 * f.2 * 4))
                &&& (r matches Some(b) ==> b@ == png_encoding(f.0, f.1 as nat, f.2 as nat))
            }
        }),
{
    let ghost fv = frames@.map_values(|f: Option<(Vec<u8>, usize, usize)>| frame_of(f));
    let mut best = BestFrame::new();
    let mut i: usize = 0;
    while i < frames.len()
        invariant
            fv == frames@.map_values(|f: Option<(Vec<u8>, usize, usize)>| frame_of(f)),
            i <= frames@.len(),
            best.opaque == best_upto(fv, i as int).0,
            best.opaque > 0 ==> fv[best_upto(fv, i as int).1] == Some((best.rgba@, best.w, best.h)),
        decreases frames@.len() - i,
    {
        proof {
            lemma_best_index(fv, i as int);
            assert(fv[i as int] == frame_of(frames@[i as int]));
        }
        match &frames[i] {
            Some(f) => {
                best.offer(&f.0, f.1, f.2);
            },
            None => {},
        }
        i += 1;
    }
    proof {
        lemma_best_index(fv, fv.len() as int);
    }
    best.finish()
}

} // verus!

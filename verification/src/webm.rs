//! WebM (Matroska/EBML) parsing for VP9 animations with an alpha channel
//! carried in `BlockAdditional`.
//!
//! Layout read here:
//!   EBML header
//!   Segment
//!     Info (TimecodeScale)
//!     Tracks (TrackEntry > Video > PixelWidth / PixelHeight)
//!     Cluster { Timecode, SimpleBlock | BlockGroup }
//!       BlockGroup { Block (colour frame),
//!                    BlockAdditions { BlockMore { BlockAddID, BlockAdditional (alpha frame) } } }

use vstd::prelude::*;
use crate::ebml::{
    find_first, first_with_id, hdr, kids_match, lemma_children_in_window, lemma_first_with_id_at,
    parse_i64, parse_u32, parse_u64, read_vint, spec_children, spec_parse_i64, spec_parse_u32,
    spec_parse_u64, spec_read_vint, walk,
};

verus! {

// Matroska element ids used by the parser.
pub const EBML: u64 = 0x1A45DFA3;
pub const SEGMENT: u64 = 0x18538067;
pub const INFO: u64 = 0x1549A966;
pub const TIMECODE_SCALE: u64 = 0x2AD7B1;
pub const TRACKS: u64 = 0x1654AE6B;
pub const TRACK_ENTRY: u64 = 0xAE;
pub const TRACK_NUMBER: u64 = 0xD7;
pub const TRACK_TYPE: u64 = 0x83;
pub const CODEC_ID: u64 = 0x86;
pub const VIDEO: u64 = 0xE0;
pub const PIXEL_WIDTH: u64 = 0xB0;
pub const PIXEL_HEIGHT: u64 = 0xBA;
pub const ALPHA_MODE: u64 = 0x53C0;
pub const CLUSTER: u64 = 0x1F43B675;
pub const CLUSTER_TIMECODE: u64 = 0xE7;
pub const SIMPLE_BLOCK: u64 = 0xA3;
pub const BLOCK_GROUP: u64 = 0xA0;
pub const BLOCK: u64 = 0xA1;
pub const BLOCK_ADDITIONS: u64 = 0x75A1;
pub const BLOCK_MORE: u64 = 0xA6;
pub const BLOCK_ADD_ID: u64 = 0xEE;
pub const BLOCK_ADDITIONAL: u64 = 0xA5;

/// Timecode scale (nanoseconds per tick) when the file gives none.
pub const DEFAULT_TIMECODE_SCALE: u64 = 1_000_000;
/// Frame size when the file gives none.
pub const DEFAULT_WIDTH: u32 = 640;
pub const DEFAULT_HEIGHT: u32 = 360;
/// Frame duration for the fallback rate of 24 frames per second (1000 / 24, rounded).
pub const DEFAULT_FRAME_MS: u64 = 42;

/// One animation frame: the VP9 colour frame and an optional VP9 alpha frame.
pub struct Frame {
    pub timecode_ms: u64,
    pub video: Vec<u8>,
    pub alpha: Option<Vec<u8>>,
}

/// A frame as plain values.
pub struct FrameView {
    pub timecode_ms: u64,
    pub video: Seq<u8>,
    pub alpha: Option<Seq<u8>>,
}

impl View for Frame {
    type V = FrameView;

    open spec fn view(&self) -> FrameView {
        FrameView {
            timecode_ms: self.timecode_ms,
            video: self.video@,
            alpha: match self.alpha {
                Some(a) => Some(a@),
                None => None,
            },
        }
    }
}

impl Clone for Frame {
    fn clone(&self) -> (r: Frame)
        ensures
            r@ == self@,
    {
        Frame {
            timecode_ms: self.timecode_ms,
            video: self.video.clone(),
            alpha: match &self.alpha {
                Some(a) => Some(a.clone()),
                None => None,
            },
        }
    }
}

/// A parsed animation. `frame_interval_ms` is the median gap between
/// consecutive positive frame timecodes (absent for two frames or fewer,
/// or when no gap is positive).
pub struct WebM {
    pub width: u32,
    pub height: u32,
    pub frame_interval_ms: Option<u64>,
    pub frames: Vec<Frame>,
}

pub struct WebMView {
    pub width: u32,
    pub height: u32,
    pub frame_interval_ms: Option<u64>,
    pub frames: Seq<FrameView>,
}

pub open spec fn frame_views(v: Seq<Frame>) -> Seq<FrameView> {
    v.map_values(|f: Frame| f@)
}

impl View for WebM {
    type V = WebMView;

    open spec fn view(&self) -> WebMView {
        WebMView {
            width: self.width,
            height: self.height,
            frame_interval_ms: self.frame_interval_ms,
            frames: frame_views(self.frames@),
        }
    }
}

// ---------------- specification ----------------

/// A 16-bit big-endian two's-complement value.
pub open spec fn tc16(hi: u8, lo: u8) -> int {
    let v = hi as int * 256 + lo as int;
    if v >= 0x8000 {
        v - 0x10000
    } else {
        v
    }
}

/// Block payload in `d[a..b]`: track number, relative timecode, keyframe flag and
/// the start of the frame data (which runs to `b`).
pub open spec fn spec_block_payload(d: Seq<u8>, a: int, b: int) -> Option<(int, int, bool, int)> {
    match spec_read_vint(d, b, a) {
        None => None,
        Some((track, q)) => if q + 3 > b {
            None
        } else {
            Some((track, tc16(d[q], d[q + 1]), d[q + 2] >= 0x80, q + 3))
        },
    }
}

/// Milliseconds of a timecode in ticks of `scale` nanoseconds (0 when negative).
pub open spec fn timecode_to_ms(tc: i64, scale: u64) -> u64 {
    if tc < 0 {
        0
    } else {
        ((tc as int * scale as int) / 1_000_000) as u64
    }
}

/// Alpha data of a BlockMore element: its first BlockAdditional child.
pub open spec fn spec_more_alpha(d: Seq<u8>, e: (int, int, int)) -> Option<Seq<u8>> {
    match first_with_id(spec_children(d, e.1 + e.2, e.1, e.1 + e.2), BLOCK_ADDITIONAL as int) {
        Some(x) => Some(d.subrange(x.1, x.1 + x.2)),
        None => None,
    }
}

/// Alpha data found in the children of BlockAdditions: the last BlockMore that
/// holds a BlockAdditional wins.
pub open spec fn additions_alpha(d: Seq<u8>, kids: Seq<(int, int, int)>) -> Option<Seq<u8>>
    decreases kids.len(),
{
    if kids.len() == 0 {
        None
    } else {
        let prev = additions_alpha(d, kids.drop_last());
        let e = kids.last();
        if e.0 == BLOCK_MORE as int {
            match spec_more_alpha(d, e) {
                Some(a) => Some(a),
                None => prev,
            }
        } else {
            prev
        }
    }
}

/// Alpha data of a BlockAdditions payload `d[a..b]`.
pub open spec fn spec_block_additions(d: Seq<u8>, a: int, b: int) -> Option<Seq<u8>> {
    additions_alpha(d, spec_children(d, b, a, b))
}

/// State of a BlockGroup after some of its children: relative timecode,
/// colour data of the last readable Block, and alpha data of the last BlockAdditions.
pub open spec fn group_fold(d: Seq<u8>, kids: Seq<(int, int, int)>) -> (i64, Option<Seq<u8>>, Option<Seq<u8>>)
    decreases kids.len(),
{
    if kids.len() == 0 {
        (0, None, None)
    } else {
        let prev = group_fold(d, kids.drop_last());
        let e = kids.last();
        if e.0 == BLOCK as int {
            match spec_block_payload(d, e.1, e.1 + e.2) {
                Some(bp) => (bp.1 as i64, Some(d.subrange(bp.3, e.1 + e.2)), prev.2),
                None => prev,
            }
        } else if e.0 == BLOCK_ADDITIONS as int {
            (prev.0, prev.1, spec_block_additions(d, e.1, e.1 + e.2))
        } else {
            prev
        }
    }
}

/// State of a Cluster after some of its children: the cluster timecode (which
/// starts from the value left by earlier clusters) and the frames collected.
pub open spec fn cluster_fold(d: Seq<u8>, scale: u64, tc0: i64, kids: Seq<(int, int, int)>) -> (i64, Seq<FrameView>)
    decreases kids.len(),
{
    if kids.len() == 0 {
        (tc0, Seq::empty())
    } else {
        let prev = cluster_fold(d, scale, tc0, kids.drop_last());
        let e = kids.last();
        if e.0 == CLUSTER_TIMECODE as int {
            (
                match spec_parse_i64(d, e.1, e.2) {
                    Some(v) => v,
                    None => 0,
                },
                prev.1,
            )
        } else if e.0 == SIMPLE_BLOCK as int {
            match spec_block_payload(d, e.1, e.1 + e.2) {
                Some(bp) => (
                    prev.0,
                    prev.1.push(
                        FrameView {
                            timecode_ms: timecode_to_ms(
                                vstd::wrapping::i64_specs::wrapping_add(prev.0, bp.1 as i64),
                                scale,
                            ),
                            video: d.subrange(bp.3, e.1 + e.2),
                            alpha: None,
                        },
                    ),
                ),
                None => prev,
            }
        } else if e.0 == BLOCK_GROUP as int {
            let g = group_fold(d, spec_children(d, d.len() as int, e.1, e.1 + e.2));
            match g.1 {
                Some(v) => (
                    prev.0,
                    prev.1.push(
                        FrameView {
                            timecode_ms: timecode_to_ms(
                                vstd::wrapping::i64_specs::wrapping_add(prev.0, g.0),
                                scale,
                            ),
                            video: v,
                            alpha: g.2,
                        },
                    ),
                ),
                None => prev,
            }
        } else {
            prev
        }
    }
}

/// Timecode scale after the children of an Info element: the last TimecodeScale
/// child decides (an unreadable one gives the default).
pub open spec fn info_scale(d: Seq<u8>, scale: u64, kids: Seq<(int, int, int)>) -> u64
    decreases kids.len(),
{
    if kids.len() == 0 {
        scale
    } else {
        let prev = info_scale(d, scale, kids.drop_last());
        let e = kids.last();
        if e.0 == TIMECODE_SCALE as int {
            match spec_parse_u64(d, e.1, e.2) {
                Some(v) => v,
                None => DEFAULT_TIMECODE_SCALE,
            }
        } else {
            prev
        }
    }
}

/// Frame size after the children of a Video element.
pub open spec fn video_dims(d: Seq<u8>, wh: (u32, u32), kids: Seq<(int, int, int)>) -> (u32, u32)
    decreases kids.len(),
{
    if kids.len() == 0 {
        wh
    } else {
        let prev = video_dims(d, wh, kids.drop_last());
        let e = kids.last();
        if e.0 == PIXEL_WIDTH as int {
            (
                match spec_parse_u32(d, e.1, e.2) {
                    Some(v) => v,
                    None => DEFAULT_WIDTH,
                },
                prev.1,
            )
        } else if e.0 == PIXEL_HEIGHT as int {
            (
                prev.0,
                match spec_parse_u32(d, e.1, e.2) {
                    Some(v) => v,
                    None => DEFAULT_HEIGHT,
                },
            )
        } else {
            prev
        }
    }
}

/// Frame size after the children of a TrackEntry element.
pub open spec fn entry_dims(d: Seq<u8>, wh: (u32, u32), kids: Seq<(int, int, int)>) -> (u32, u32)
    decreases kids.len(),
{
    if kids.len() == 0 {
        wh
    } else {
        let prev = entry_dims(d, wh, kids.drop_last());
        let e = kids.last();
        if e.0 == VIDEO as int {
            video_dims(d, prev, spec_children(d, d.len() as int, e.1, e.1 + e.2))
        } else {
            prev
        }
    }
}

/// Frame size after the children of a Tracks element.
pub open spec fn tracks_dims(d: Seq<u8>, wh: (u32, u32), kids: Seq<(int, int, int)>) -> (u32, u32)
    decreases kids.len(),
{
    if kids.len() == 0 {
        wh
    } else {
        let prev = tracks_dims(d, wh, kids.drop_last());
        let e = kids.last();
        if e.0 == TRACK_ENTRY as int {
            entry_dims(d, prev, spec_children(d, d.len() as int, e.1, e.1 + e.2))
        } else {
            prev
        }
    }
}

/// State while reading the children of the Segment.
pub struct SegState {
    pub scale: u64,
    pub width: u32,
    pub height: u32,
    pub cluster_tc: i64,
    pub frames: Seq<FrameView>,
}

pub open spec fn seg_fold(d: Seq<u8>, kids: Seq<(int, int, int)>) -> SegState
    decreases kids.len(),
{
    if kids.len() == 0 {
        SegState {
            scale: DEFAULT_TIMECODE_SCALE,
            width: DEFAULT_WIDTH,
            height: DEFAULT_HEIGHT,
            cluster_tc: 0,
            frames: Seq::empty(),
        }
    } else {
        let prev = seg_fold(d, kids.drop_last());
        let e = kids.last();
        let inner = spec_children(d, d.len() as int, e.1, e.1 + e.2);
        if e.0 == INFO as int {
            SegState {
                scale: info_scale(d, prev.scale, inner),
                width: prev.width,
                height: prev.height,
                cluster_tc: prev.cluster_tc,
                frames: prev.frames,
            }
        } else if e.0 == TRACKS as int {
            let wh = tracks_dims(d, (prev.width, prev.height), inner);
            SegState {
                scale: prev.scale,
                width: wh.0,
                height: wh.1,
                cluster_tc: prev.cluster_tc,
                frames: prev.frames,
            }
        } else if e.0 == CLUSTER as int {
            let c = cluster_fold(d, prev.scale, prev.cluster_tc, inner);
            SegState {
                scale: prev.scale,
                width: prev.width,
                height: prev.height,
                cluster_tc: c.0,
                frames: prev.frames + c.1,
            }
        } else {
            prev
        }
    }
}

/// Where a stable insertion puts `x` into `s[..j]`: after every element whose
/// key is not greater than the key of `x`, scanning from the right.
pub open spec fn ins_pos<T>(s: Seq<T>, key: spec_fn(T) -> int, x: T, j: int) -> int
    decreases j,
{
    if 0 < j && key(s[j - 1]) > key(x) {
        ins_pos(s, key, x, j - 1)
    } else {
        j
    }
}

pub open spec fn insert_by_key<T>(s: Seq<T>, key: spec_fn(T) -> int, x: T) -> Seq<T> {
    s.insert(ins_pos(s, key, x, s.len() as int), x)
}

/// Stable sort by key (insertion sort).
pub open spec fn sort_by_key<T>(s: Seq<T>, key: spec_fn(T) -> int) -> Seq<T>
    decreases s.len(),
{
    if s.len() == 0 {
        s
    } else {
        insert_by_key(sort_by_key(s.drop_last(), key), key, s.last())
    }
}

pub open spec fn frame_key() -> spec_fn(FrameView) -> int {
    |f: FrameView| f.timecode_ms as int
}

pub open spec fn u64_key() -> spec_fn(u64) -> int {
    |x: u64| x as int
}

/// Positive gaps between consecutive frame timecodes, in order.
pub open spec fn positive_gaps(s: Seq<FrameView>) -> Seq<u64>
    decreases s.len(),
{
    if s.len() < 2 {
        Seq::empty()
    } else {
        let prev = positive_gaps(s.drop_last());
        let g = s.last().timecode_ms - s[s.len() - 2].timecode_ms;
        if g > 0 {
            prev.push(g as u64)
        } else {
            prev
        }
    }
}

/// Median positive gap (the upper median) of time-ordered frames; absent for
/// three frames or fewer or when no gap is positive.
pub open spec fn median_interval(s: Seq<FrameView>) -> Option<u64> {
    let g = positive_gaps(s);
    if s.len() > 2 && g.len() > 0 {
        let m = sort_by_key(g, u64_key())[(g.len() / 2) as int];
        if m > 0 {
            Some(m)
        } else {
            None
        }
    } else {
        None
    }
}

/// What parsing `d` yields: `None` without a Segment or without any frame;
/// otherwise the frame size, the frames sorted by timecode (stable) and the
/// median frame interval.
pub open spec fn spec_parse(d: Seq<u8>) -> Option<WebMView> {
    match first_with_id(spec_children(d, d.len() as int, 0, d.len() as int), SEGMENT as int) {
        None => None,
        Some(seg) => {
            let st = seg_fold(d, spec_children(d, d.len() as int, seg.1, seg.1 + seg.2));
            if st.frames.len() == 0 {
                None
            } else {
                let sorted = sort_by_key(st.frames, frame_key());
                Some(
                    WebMView {
                        width: st.width,
                        height: st.height,
                        frame_interval_ms: median_interval(sorted),
                        frames: sorted,
                    },
                )
            }
        },
    }
}

pub open spec fn spec_frame_ms(w: WebMView) -> u64 {
    match w.frame_interval_ms {
        Some(m) => m,
        None => DEFAULT_FRAME_MS,
    }
}

pub open spec fn spec_duration_ms(w: WebMView) -> u64 {
    if w.frames.len() == 0 {
        0
    } else {
        vstd::wrapping::u64_specs::wrapping_add(w.frames.last().timecode_ms, spec_frame_ms(w))
    }
}


pub open spec fn opt_view(o: Option<Vec<u8>>) -> Option<Seq<u8>> {
    match o {
        Some(v) => Some(v@),
        None => None,
    }
}

// ---------------- parsing ----------------

/// Milliseconds of a timecode in ticks of `scale` nanoseconds (0 when negative).
pub fn timecode_ms(tc: i64, scale: u64) -> (r: u64)
    ensures
        r == timecode_to_ms(tc, scale),
{
    if tc < 0 {
        0
    } else {
        let a = tc as u128;
        let b = scale as u128;
        assert(a * b <= 0x7fff_ffff_ffff_ffff * 0xffff_ffff_ffff_ffff) by (nonlinear_arith)
            requires
                a <= 0x7fff_ffff_ffff_ffff,
                b <= 0xffff_ffff_ffff_ffff,
        ;
        (a * b / 1_000_000) as u64
    }
}

/// Block payload in `data[a..b]`: track number, relative timecode, keyframe flag
/// and the start of the frame data.
pub fn parse_block_payload(data: &[u8], a: usize, b: usize) -> (r: Option<(u64, i64, bool, usize)>)
    requires
        a <= b <= data@.len(),
    ensures
        match r {
            None => spec_block_payload(data@, a as int, b as int) is None,
            Some((t, tc, k, q)) => spec_block_payload(data@, a as int, b as int) == Some(
                (t as int, tc as int, k, q as int),
            ) && q <= b,
        },
{
    let (track, q) = match read_vint(data, b, a) {
        None => return None,
        Some(x) => x,
    };
    if q > b || 3 > b - q {
        return None;
    }
    let v: i64 = data[q] as i64 * 256 + data[q + 1] as i64;
    let tc: i64 = if v >= 0x8000 {
        v - 0x10000
    } else {
        v
    };
    let keyframe = data[q + 2] >= 0x80;
    Some((track, tc, keyframe, q + 3))
}

/// First BlockAdditional payload inside the BlockMore payload `data[a..b]`.
fn more_alpha(data: &[u8], a: usize, b: usize) -> (r: Option<Vec<u8>>)
    requires
        a <= b <= data@.len(),
    ensures
        opt_view(r) == spec_more_alpha(data@, (0, a as int, b - a)),
{
    let kids = walk(data, b, a, b);
    let ghost ks = spec_children(data@, b as int, a as int, b as int);
    proof {
        lemma_children_in_window(data@, b as int, a as int, b as int);
    }
    match find_first(&kids, BLOCK_ADDITIONAL) {
        None => {
            proof {
                assert forall|k: int| 0 <= k < ks.len() implies #[trigger] ks[k].0 != BLOCK_ADDITIONAL as int by {
                    assert(hdr(kids@[k]) == ks[k]);
                }
                lemma_first_with_id_at(ks, BLOCK_ADDITIONAL as int, ks.len() as int);
            }
            None
        },
        Some(j) => {
            let (_, p, l) = kids[j];
            proof {
                assert forall|k: int| 0 <= k < j implies #[trigger] ks[k].0 != BLOCK_ADDITIONAL as int by {
                    assert(hdr(kids@[k]) == ks[k]);
                }
                assert(hdr(kids@[j as int]) == ks[j as int]);
                lemma_first_with_id_at(ks, BLOCK_ADDITIONAL as int, j as int);
            }
            Some(vstd::slice::slice_to_vec(&data[p..p + l]))
        },
    }
}

/// Alpha frame of a BlockAdditions payload `data[a..b]`.
pub fn parse_block_additions(data: &[u8], a: usize, b: usize) -> (r: Option<Vec<u8>>)
    requires
        a <= b <= data@.len(),
    ensures
        opt_view(r) == spec_block_additions(data@, a as int, b as int),
{
    let kids = walk(data, b, a, b);
    let ghost ks = spec_children(data@, b as int, a as int, b as int);
    proof {
        lemma_children_in_window(data@, b as int, a as int, b as int);
    }
    let mut alpha: Option<Vec<u8>> = None;
    let mut i: usize = 0;
    while i < kids.len()
        invariant
            kids_match(kids@, ks),
            i <= kids@.len(),
            a <= b <= data@.len(),
            forall|k: int| 0 <= k < ks.len() ==> (#[trigger] ks[k]).1 + ks[k].2 <= b && 0 <= ks[k].2,
            opt_view(alpha) == additions_alpha(data@, ks.take(i as int)),
        decreases kids.len() - i,
    {
        let (id, p, l) = kids[i];
        proof {
            assert(ks.take(i + 1).drop_last() =~= ks.take(i as int));
            assert(hdr(kids@[i as int]) == ks[i as int]);
        }
        if id == BLOCK_MORE {
            match more_alpha(data, p, p + l) {
                Some(x) => {
                    alpha = Some(x);
                },
                None => {},
            }
        }
        i += 1;
    }
    proof {
        assert(ks.take(ks.len() as int) =~= ks);
    }
    alpha
}

/// Relative timecode, colour data and alpha data of a BlockGroup payload `data[a..b]`.
fn block_group(data: &[u8], a: usize, b: usize) -> (r: (i64, Option<Vec<u8>>, Option<Vec<u8>>))
    requires
        a <= b <= data@.len(),
    ensures
        (r.0, opt_view(r.1), opt_view(r.2)) == group_fold(
            data@,
            spec_children(data@, data@.len() as int, a as int, b as int),
        ),
{
    let kids = walk(data, data.len(), a, b);
    let ghost ks = spec_children(data@, data@.len() as int, a as int, b as int);
    proof {
        lemma_children_in_window(data@, data@.len() as int, a as int, b as int);
    }
    let mut tc: i64 = 0;
    let mut video: Option<Vec<u8>> = None;
    let mut alpha: Option<Vec<u8>> = None;
    let mut i: usize = 0;
    while i < kids.len()
        invariant
            kids_match(kids@, ks),
            i <= kids@.len(),
            forall|k: int|
                0 <= k < ks.len() ==> (#[trigger] ks[k]).1 + ks[k].2 <= data.len() && 0 <= ks[k].2
                    && 0 <= ks[k].1,
            (tc, opt_view(video), opt_view(alpha)) == group_fold(data@, ks.take(i as int)),
        decreases kids.len() - i,
    {
        let (id, p, l) = kids[i];
        proof {
            assert(ks.take(i + 1).drop_last() =~= ks.take(i as int));
            assert(hdr(kids@[i as int]) == ks[i as int]);
        }
        if id == BLOCK {
            match parse_block_payload(data, p, p + l) {
                Some((_, t2, _, q)) => {
                    tc = t2;
                    video = Some(vstd::slice::slice_to_vec(&data[q..p + l]));
                },
                None => {},
            }
        } else if id == BLOCK_ADDITIONS {
            alpha = parse_block_additions(data, p, p + l);
        }
        i += 1;
    }
    proof {
        assert(ks.take(ks.len() as int) =~= ks);
    }
    (tc, video, alpha)
}

/// Cluster timecode after the Cluster payload `data[a..b]` and the frames it holds.
fn cluster_frames(data: &[u8], scale: u64, tc0: i64, a: usize, b: usize) -> (r: (i64, Vec<Frame>))
    requires
        a <= b <= data@.len(),
    ensures
        (r.0, frame_views(r.1@)) == cluster_fold(
            data@,
            scale,
            tc0,
            spec_children(data@, data@.len() as int, a as int, b as int),
        ),
{
    let kids = walk(data, data.len(), a, b);
    let ghost ks = spec_children(data@, data@.len() as int, a as int, b as int);
    proof {
        lemma_children_in_window(data@, data@.len() as int, a as int, b as int);
    }
    let mut tc = tc0;
    let mut out: Vec<Frame> = Vec::new();
    let mut i: usize = 0;
    proof {
        assert(frame_views(out@) =~= Seq::<FrameView>::empty());
    }
    while i < kids.len()
        invariant
            kids_match(kids@, ks),
            i <= kids@.len(),
            forall|k: int|
                0 <= k < ks.len() ==> (#[trigger] ks[k]).1 + ks[k].2 <= data.len() && 0 <= ks[k].2
                    && 0 <= ks[k].1,
            (tc, frame_views(out@)) == cluster_fold(data@, scale, tc0, ks.take(i as int)),
        decreases kids.len() - i,
    {
        let (id, p, l) = kids[i];
        let ghost before = out@;
        proof {
            assert(ks.take(i + 1).drop_last() =~= ks.take(i as int));
            assert(hdr(kids@[i as int]) == ks[i as int]);
        }
        if id == CLUSTER_TIMECODE {
            tc = match parse_i64(data, p, l) {
                Some(v) => v,
                None => 0,
            };
        } else if id == SIMPLE_BLOCK {
            match parse_block_payload(data, p, p + l) {
                Some((_, t2, _, q)) => {
                    let f = Frame {
                        timecode_ms: timecode_ms(tc.wrapping_add(t2), scale),
                        video: vstd::slice::slice_to_vec(&data[q..p + l]),
                        alpha: None,
                    };
                    out.push(f);
                    proof {
                        assert(frame_views(out@) =~= frame_views(before).push(f@));
                    }
                },
                None => {},
            }
        } else if id == BLOCK_GROUP {
            let (gtc, gv, ga) = block_group(data, p, p + l);
            match gv {
                Some(v) => {
                    let f = Frame {
                        timecode_ms: timecode_ms(tc.wrapping_add(gtc), scale),
                        video: v,
                        alpha: ga,
                    };
                    out.push(f);
                    proof {
                        assert(frame_views(out@) =~= frame_views(before).push(f@));
                    }
                },
                None => {},
            }
        }
        i += 1;
    }
    proof {
        assert(ks.take(ks.len() as int) =~= ks);
    }
    (tc, out)
}

/// Timecode scale after the Info payload `data[a..b]`.
fn info_timecode_scale(data: &[u8], scale: u64, a: usize, b: usize) -> (r: u64)
    requires
        a <= b <= data@.len(),
    ensures
        r == info_scale(data@, scale, spec_children(data@, data@.len() as int, a as int, b as int)),
{
    let kids = walk(data, data.len(), a, b);
    let ghost ks = spec_children(data@, data@.len() as int, a as int, b as int);
    let mut s = scale;
    let mut i: usize = 0;
    while i < kids.len()
        invariant
            kids_match(kids@, ks),
            i <= kids@.len(),
            s == info_scale(data@, scale, ks.take(i as int)),
        decreases kids.len() - i,
    {
        let (id, p, l) = kids[i];
        proof {
            assert(ks.take(i + 1).drop_last() =~= ks.take(i as int));
            assert(hdr(kids@[i as int]) == ks[i as int]);
        }
        if id == TIMECODE_SCALE {
            s = match parse_u64(data, p, l) {
                Some(v) => v,
                None => DEFAULT_TIMECODE_SCALE,
            };
        }
        i += 1;
    }
    proof {
        assert(ks.take(ks.len() as int) =~= ks);
    }
    s
}

/// Frame size after the Video payload `data[a..b]`.
fn video_size(data: &[u8], wh: (u32, u32), a: usize, b: usize) -> (r: (u32, u32))
    requires
        a <= b <= data@.len(),
    ensures
        r == video_dims(data@, wh, spec_children(data@, data@.len() as int, a as int, b as int)),
{
    let kids = walk(data, data.len(), a, b);
    let ghost ks = spec_children(data@, data@.len() as int, a as int, b as int);
    let mut cur = wh;
    let mut i: usize = 0;
    while i < kids.len()
        invariant
            kids_match(kids@, ks),
            i <= kids@.len(),
            cur == video_dims(data@, wh, ks.take(i as int)),
        decreases kids.len() - i,
    {
        let (id, p, l) = kids[i];
        proof {
            assert(ks.take(i + 1).drop_last() =~= ks.take(i as int));
            assert(hdr(kids@[i as int]) == ks[i as int]);
        }
        if id == PIXEL_WIDTH {
            cur = (
                match parse_u32(data, p, l) {
                    Some(v) => v,
                    None => DEFAULT_WIDTH,
                },
                cur.1,
            );
        } else if id == PIXEL_HEIGHT {
            cur = (
                cur.0,
                match parse_u32(data, p, l) {
                    Some(v) => v,
                    None => DEFAULT_HEIGHT,
                },
            );
        }
        i += 1;
    }
    proof {
        assert(ks.take(ks.len() as int) =~= ks);
    }
    cur
}

/// Frame size after the TrackEntry payload `data[a..b]`.
fn entry_size(data: &[u8], wh: (u32, u32), a: usize, b: usize) -> (r: (u32, u32))
    requires
        a <= b <= data@.len(),
    ensures
        r == entry_dims(data@, wh, spec_children(data@, data@.len() as int, a as int, b as int)),
{
    let kids = walk(data, data.len(), a, b);
    let ghost ks = spec_children(data@, data@.len() as int, a as int, b as int);
    proof {
        lemma_children_in_window(data@, data@.len() as int, a as int, b as int);
    }
    let mut cur = wh;
    let mut i: usize = 0;
    while i < kids.len()
        invariant
            kids_match(kids@, ks),
            i <= kids@.len(),
            forall|k: int|
                0 <= k < ks.len() ==> (#[trigger] ks[k]).1 + ks[k].2 <= data.len() && 0 <= ks[k].2,
            cur == entry_dims(data@, wh, ks.take(i as int)),
        decreases kids.len() - i,
    {
        let (id, p, l) = kids[i];
        proof {
            assert(ks.take(i + 1).drop_last() =~= ks.take(i as int));
            assert(hdr(kids@[i as int]) == ks[i as int]);
        }
        if id == VIDEO {
            cur = video_size(data, cur, p, p + l);
        }
        i += 1;
    }
    proof {
        assert(ks.take(ks.len() as int) =~= ks);
    }
    cur
}

/// Frame size after the Tracks payload `data[a..b]`.
fn tracks_size(data: &[u8], wh: (u32, u32), a: usize, b: usize) -> (r: (u32, u32))
    requires
        a <= b <= data@.len(),
    ensures
        r == tracks_dims(data@, wh, spec_children(data@, data@.len() as int, a as int, b as int)),
{
    let kids = walk(data, data.len(), a, b);
    let ghost ks = spec_children(data@, data@.len() as int, a as int, b as int);
    proof {
        lemma_children_in_window(data@, data@.len() as int, a as int, b as int);
    }
    let mut cur = wh;
    let mut i: usize = 0;
    while i < kids.len()
        invariant
            kids_match(kids@, ks),
            i <= kids@.len(),
            forall|k: int|
                0 <= k < ks.len() ==> (#[trigger] ks[k]).1 + ks[k].2 <= data.len() && 0 <= ks[k].2,
            cur == tracks_dims(data@, wh, ks.take(i as int)),
        decreases kids.len() - i,
    {
        let (id, p, l) = kids[i];
        proof {
            assert(ks.take(i + 1).drop_last() =~= ks.take(i as int));
            assert(hdr(kids@[i as int]) == ks[i as int]);
        }
        if id == TRACK_ENTRY {
            cur = entry_size(data, cur, p, p + l);
        }
        i += 1;
    }
    proof {
        assert(ks.take(ks.len() as int) =~= ks);
    }
    cur
}


// ---------------- ordering ----------------

pub proof fn lemma_ins_pos_range<T>(s: Seq<T>, key: spec_fn(T) -> int, x: T, j: int)
    requires
        0 <= j <= s.len(),
    ensures
        0 <= ins_pos(s, key, x, j) <= j,
    decreases j,
{
    if 0 < j && key(s[j - 1]) > key(x) {
        lemma_ins_pos_range(s, key, x, j - 1);
    }
}

pub proof fn lemma_sort_len<T>(s: Seq<T>, key: spec_fn(T) -> int)
    ensures
        sort_by_key(s, key).len() == s.len(),
    decreases s.len(),
{
    if s.len() > 0 {
        lemma_sort_len(s.drop_last(), key);
        let p = sort_by_key(s.drop_last(), key);
        lemma_ins_pos_range(p, key, s.last(), p.len() as int);
    }
}

proof fn lemma_sort_one<T>(s: Seq<T>, key: spec_fn(T) -> int)
    requires
        s.len() == 1,
    ensures
        sort_by_key(s, key) == s,
{
    assert(s.drop_last() =~= Seq::<T>::empty());
    assert(sort_by_key(s.drop_last(), key) =~= Seq::<T>::empty());
    assert(Seq::<T>::empty().insert(0, s.last()) =~= s);
}

/// Elements in nondecreasing key order.
pub open spec fn sorted_by<T>(s: Seq<T>, key: spec_fn(T) -> int) -> bool {
    forall|i: int, j: int| 0 <= i <= j < s.len() ==> key(#[trigger] s[i]) <= key(#[trigger] s[j])
}

proof fn lemma_ins_pos_split<T>(s: Seq<T>, key: spec_fn(T) -> int, x: T, j: int)
    requires
        0 <= j <= s.len(),
    ensures
        forall|k: int| ins_pos(s, key, x, j) <= k < j ==> key(#[trigger] s[k]) > key(x),
        ins_pos(s, key, x, j) > 0 ==> key(s[ins_pos(s, key, x, j) - 1]) <= key(x),
    decreases j,
{
    if 0 < j && key(s[j - 1]) > key(x) {
        lemma_ins_pos_split(s, key, x, j - 1);
    }
}

proof fn lemma_insert_sorted<T>(s: Seq<T>, key: spec_fn(T) -> int, x: T)
    requires
        sorted_by(s, key),
    ensures
        sorted_by(insert_by_key(s, key, x), key),
        insert_by_key(s, key, x).to_multiset() == s.to_multiset().insert(x),
{
    let p = ins_pos(s, key, x, s.len() as int);
    lemma_ins_pos_range(s, key, x, s.len() as int);
    lemma_ins_pos_split(s, key, x, s.len() as int);
    let r = insert_by_key(s, key, x);
    assert forall|i: int, j: int| 0 <= i <= j < r.len() implies key(#[trigger] r[i]) <= key(
        #[trigger] r[j],
    ) by {
        if i < p && j < p {
            assert(r[i] == s[i] && r[j] == s[j]);
        } else if i < p && j == p {
            assert(r[i] == s[i] && key(s[i]) <= key(s[p - 1]));
        } else if i < p {
            assert(r[i] == s[i] && r[j] == s[j - 1]);
        } else if i == p && j > p {
            assert(r[j] == s[j - 1]);
        } else if i > p {
            assert(r[i] == s[i - 1] && r[j] == s[j - 1]);
        }
    }
    vstd::seq_lib::to_multiset_insert(s, p, x);
}

/// The stable sort orders by key and keeps every element with its multiplicity.
pub proof fn lemma_sort_by_key<T>(s: Seq<T>, key: spec_fn(T) -> int)
    ensures
        sorted_by(sort_by_key(s, key), key),
        sort_by_key(s, key).to_multiset() == s.to_multiset(),
    decreases s.len(),
{
    broadcast use vstd::seq_lib::to_multiset_build;

    if s.len() == 0 {
    } else {
        lemma_sort_by_key(s.drop_last(), key);
        lemma_insert_sorted(sort_by_key(s.drop_last(), key), key, s.last());
        assert(s.drop_last().push(s.last()) =~= s);
    }
}

/// Stable sort of frames by timecode.
fn sort_frames(v: &mut Vec<Frame>)
    ensures
        frame_views(final(v)@) == sort_by_key(frame_views(old(v)@), frame_key()),
{
    let ghost orig = frame_views(v@);
    let n = v.len();
    if n == 0 {
        proof {
            assert(frame_views(v@) =~= Seq::<FrameView>::empty());
        }
        return;
    }
    let mut i: usize = 1;
    proof {
        lemma_sort_one(orig.take(1), frame_key());
        assert(frame_views(v@) =~= orig.take(1) + orig.skip(1));
    }
    while i < n
        invariant
            1 <= i <= n,
            v@.len() == n,
            orig.len() == n,
            frame_views(v@) == sort_by_key(orig.take(i as int), frame_key()) + orig.skip(i as int),
        decreases n - i,
    {
        let ghost pre = sort_by_key(orig.take(i as int), frame_key());
        let ghost before = v@;
        proof {
            lemma_sort_len(orig.take(i as int), frame_key());
        }
        let x = v.remove(i);
        proof {
            assert(frame_views(v@) =~= pre + orig.skip(i + 1)) by {
                assert(frame_views(before) =~= pre + orig.skip(i as int));
                assert forall|k: int| 0 <= k < frame_views(v@).len() implies frame_views(v@)[k] == (
                pre + orig.skip(i + 1))[k] by {
                    if k < i {
                        assert(frame_views(v@)[k] == frame_views(before)[k]);
                    } else {
                        assert(frame_views(v@)[k] == frame_views(before)[k + 1]);
                    }
                }
            }
            assert(x@ == frame_views(before)[i as int]);
            assert(x@ == orig[i as int]);
        }
        let mut j = i;
        while j > 0 && v[j - 1].timecode_ms > x.timecode_ms
            invariant
                j <= i,
                i < n,
                v@.len() == n - 1,
                pre.len() == i,
                frame_views(v@) == pre + orig.skip(i + 1),
                ins_pos(pre, frame_key(), x@, j as int) == ins_pos(pre, frame_key(), x@, i as int),
            decreases j,
        {
            proof {
                assert(frame_views(v@)[j - 1] == pre[j - 1]);
            }
            j -= 1;
        }
        proof {
            if j > 0 {
                assert(frame_views(v@)[j - 1] == pre[j - 1]);
            }
            assert(ins_pos(pre, frame_key(), x@, j as int) == j);
        }
        let ghost mid = v@;
        v.insert(j, x);
        proof {
            assert(orig.take(i + 1).drop_last() =~= orig.take(i as int));
            assert(orig.take(i + 1).last() == orig[i as int]);
            assert(frame_views(v@) =~= pre.insert(j as int, x@) + orig.skip(i + 1)) by {
                assert forall|k: int| 0 <= k < frame_views(v@).len() implies frame_views(v@)[k] == (
                pre.insert(j as int, x@) + orig.skip(i + 1))[k] by {
                    if k < j {
                        assert(frame_views(v@)[k] == frame_views(mid)[k]);
                    } else if k > j {
                        assert(frame_views(v@)[k] == frame_views(mid)[k - 1]);
                    }
                }
            }
        }
        i += 1;
    }
    proof {
        assert(orig.take(n as int) =~= orig);
        assert(sort_by_key(orig, frame_key()) + orig.skip(n as int) =~= sort_by_key(orig, frame_key()));
    }
}

/// Sort of `u64` values in ascending order.
fn sort_u64s(v: &mut Vec<u64>)
    ensures
        final(v)@ == sort_by_key(old(v)@, u64_key()),
{
    let ghost orig = v@;
    let n = v.len();
    if n == 0 {
        proof {
            assert(orig =~= Seq::<u64>::empty());
        }
        return;
    }
    let mut i: usize = 1;
    proof {
        lemma_sort_one(orig.take(1), u64_key());
        assert(v@ =~= orig.take(1) + orig.skip(1));
    }
    while i < n
        invariant
            1 <= i <= n,
            v@.len() == n,
            orig.len() == n,
            v@ == sort_by_key(orig.take(i as int), u64_key()) + orig.skip(i as int),
        decreases n - i,
    {
        let ghost pre = sort_by_key(orig.take(i as int), u64_key());
        proof {
            lemma_sort_len(orig.take(i as int), u64_key());
        }
        let x = v.remove(i);
        proof {
            assert(v@ =~= pre + orig.skip(i + 1));
        }
        let mut j = i;
        while j > 0 && v[j - 1] > x
            invariant
                j <= i,
                i < n,
                v@.len() == n - 1,
                pre.len() == i,
                v@ == pre + orig.skip(i + 1),
                x == orig[i as int],
                ins_pos(pre, u64_key(), x, j as int) == ins_pos(pre, u64_key(), x, i as int),
            decreases j,
        {
            j -= 1;
        }
        v.insert(j, x);
        proof {
            assert(orig.take(i + 1).drop_last() =~= orig.take(i as int));
            assert(v@ =~= pre.insert(j as int, x) + orig.skip(i + 1));
        }
        i += 1;
    }
    proof {
        assert(orig.take(n as int) =~= orig);
        assert(v@ =~= sort_by_key(orig, u64_key()));
    }
}

/// Positive gaps between consecutive frame timecodes.
fn gaps(frames: &Vec<Frame>) -> (g: Vec<u64>)
    ensures
        g@ == positive_gaps(frame_views(frames@)),
{
    let ghost fv = frame_views(frames@);
    let n = frames.len();
    let mut g: Vec<u64> = Vec::new();
    if n < 2 {
        return g;
    }
    let mut i: usize = 1;
    proof {
        assert(fv.take(1).len() == 1);
    }
    while i < n
        invariant
            1 <= i <= n,
            n == frames@.len(),
            fv == frame_views(frames@),
            g@ == positive_gaps(fv.take(i as int)),
        decreases n - i,
    {
        let cur = frames[i].timecode_ms;
        let prev = frames[i - 1].timecode_ms;
        proof {
            let t = fv.take(i + 1);
            assert(t.drop_last() =~= fv.take(i as int));
            assert(t.last().timecode_ms == cur);
            assert(t[t.len() - 2].timecode_ms == prev);
        }
        if cur > prev {
            g.push(cur - prev);
        }
        i += 1;
    }
    proof {
        assert(fv.take(n as int) =~= fv);
    }
    g
}

/// Median positive gap of time-ordered frames (see [`median_interval`]).
fn frame_interval(frames: &Vec<Frame>) -> (r: Option<u64>)
    ensures
        r == median_interval(frame_views(frames@)),
{
    if frames.len() > 2 {
        let mut g = gaps(frames);
        if g.len() > 0 {
            let ghost g0 = g@;
            sort_u64s(&mut g);
            proof {
                lemma_sort_len(g0, u64_key());
            }
            let m = g[g.len() / 2];
            if m > 0 {
                return Some(m);
            }
        }
    }
    None
}

impl WebM {
    /// Parse a complete WebM file.
    pub fn parse(data: &[u8]) -> (r: Option<WebM>)
        ensures
            match r {
                None => spec_parse(data@) is None,
                Some(w) => spec_parse(data@) == Some(w@),
            },
    {
        let top = walk(data, data.len(), 0, data.len());
        let ghost tks = spec_children(data@, data@.len() as int, 0, data@.len() as int);
        proof {
            lemma_children_in_window(data@, data@.len() as int, 0, data@.len() as int);
        }
        let j = match find_first(&top, SEGMENT) {
            None => {
                proof {
                    assert forall|k: int| 0 <= k < tks.len() implies #[trigger] tks[k].0 != SEGMENT as int by {
                        assert(hdr(top@[k]) == tks[k]);
                    }
                    lemma_first_with_id_at(tks, SEGMENT as int, tks.len() as int);
                }
                return None;
            },
            Some(j) => j,
        };
        let (_, sp, sl) = top[j];
        proof {
            assert forall|k: int| 0 <= k < j implies #[trigger] tks[k].0 != SEGMENT as int by {
                assert(hdr(top@[k]) == tks[k]);
            }
            assert(hdr(top@[j as int]) == tks[j as int]);
            lemma_first_with_id_at(tks, SEGMENT as int, j as int);
        }
        let kids = walk(data, data.len(), sp, sp + sl);
        let ghost ks = spec_children(data@, data@.len() as int, sp as int, sp + sl);
        proof {
            lemma_children_in_window(data@, data@.len() as int, sp as int, sp + sl);
        }
        let mut scale: u64 = DEFAULT_TIMECODE_SCALE;
        let mut width: u32 = DEFAULT_WIDTH;
        let mut height: u32 = DEFAULT_HEIGHT;
        let mut ctc: i64 = 0;
        let mut frames: Vec<Frame> = Vec::new();
        let mut i: usize = 0;
        proof {
            assert(frame_views(frames@) =~= Seq::<FrameView>::empty());
        }
        while i < kids.len()
            invariant
                kids_match(kids@, ks),
                i <= kids@.len(),
                forall|k: int|
                    0 <= k < ks.len() ==> (#[trigger] ks[k]).1 + ks[k].2 <= data.len() && 0 <= ks[k].2
                        && 0 <= ks[k].1,
                scale == seg_fold(data@, ks.take(i as int)).scale,
                width == seg_fold(data@, ks.take(i as int)).width,
                height == seg_fold(data@, ks.take(i as int)).height,
                ctc == seg_fold(data@, ks.take(i as int)).cluster_tc,
                frame_views(frames@) == seg_fold(data@, ks.take(i as int)).frames,
            decreases kids.len() - i,
        {
            let (id, p, l) = kids[i];
            proof {
                assert(ks.take(i + 1).drop_last() =~= ks.take(i as int));
                assert(hdr(kids@[i as int]) == ks[i as int]);
            }
            if id == INFO {
                scale = info_timecode_scale(data, scale, p, p + l);
            } else if id == TRACKS {
                let wh = tracks_size(data, (width, height), p, p + l);
                width = wh.0;
                height = wh.1;
            } else if id == CLUSTER {
                let ghost before = frames@;
                let (t, mut more) = cluster_frames(data, scale, ctc, p, p + l);
                let ghost added = more@;
                ctc = t;
                frames.append(&mut more);
                proof {
                    assert(frame_views(frames@) =~= frame_views(before) + frame_views(added));
                }
            }
            i += 1;
        }
        proof {
            assert(ks.take(ks.len() as int) =~= ks);
        }
        if frames.len() == 0 {
            return None;
        }
        sort_frames(&mut frames);
        let interval = frame_interval(&frames);
        let w = WebM { width, height, frame_interval_ms: interval, frames };
        proof {
            let st = seg_fold(data@, ks);
            assert(st.frames.len() > 0);
            let sorted = sort_by_key(st.frames, frame_key());
            assert(w@.frames == sorted);
            assert(spec_parse(data@) == Some(w@));
        }
        Some(w)
    }

    /// Same as [`WebM::parse`].
    pub fn parse_strict(data: &[u8]) -> (r: Option<WebM>)
        ensures
            match r {
                None => spec_parse(data@) is None,
                Some(w) => spec_parse(data@) == Some(w@),
            },
    {
        WebM::parse(data)
    }

    /// Frame duration: the median frame interval, or 42 ms (24 frames per second).
    pub fn frame_ms(&self) -> (r: u64)
        ensures
            r == spec_frame_ms(self@),
    {
        match self.frame_interval_ms {
            Some(m) => m,
            None => DEFAULT_FRAME_MS,
        }
    }

    /// Total duration: timecode of the last frame plus one frame duration (0 without frames).
    pub fn duration_ms(&self) -> (r: u64)
        ensures
            r == spec_duration_ms(self@),
    {
        if self.frames.len() == 0 {
            0
        } else {
            let last = self.frames[self.frames.len() - 1].timecode_ms;
            last.wrapping_add(self.frame_ms())
        }
    }
}


// ---------------- laws ----------------

/// The frames that the Segment's clusters yield, in file order, before sorting.
pub open spec fn collected_frames(d: Seq<u8>) -> Seq<FrameView> {
    match first_with_id(spec_children(d, d.len() as int, 0, d.len() as int), SEGMENT as int) {
        None => Seq::empty(),
        Some(seg) => seg_fold(d, spec_children(d, d.len() as int, seg.1, seg.1 + seg.2)).frames,
    }
}

/// No child of a Video element gives a pixel width or height.
pub open spec fn no_size_in_video(kids: Seq<(int, int, int)>) -> bool {
    forall|k: int|
        0 <= k < kids.len() ==> (#[trigger] kids[k]).0 != PIXEL_WIDTH as int && kids[k].0 != PIXEL_HEIGHT as int
}

/// No Video child of a TrackEntry element gives a pixel size.
pub open spec fn no_size_in_entry(d: Seq<u8>, kids: Seq<(int, int, int)>) -> bool {
    forall|k: int|
        0 <= k < kids.len() && (#[trigger] kids[k]).0 == VIDEO as int ==> no_size_in_video(
            spec_children(d, d.len() as int, kids[k].1, kids[k].1 + kids[k].2),
        )
}

/// No TrackEntry child of a Tracks element gives a pixel size.
pub open spec fn no_size_in_tracks(d: Seq<u8>, kids: Seq<(int, int, int)>) -> bool {
    forall|k: int|
        0 <= k < kids.len() && (#[trigger] kids[k]).0 == TRACK_ENTRY as int ==> no_size_in_entry(
            d,
            spec_children(d, d.len() as int, kids[k].1, kids[k].1 + kids[k].2),
        )
}

/// No Tracks child of the Segment gives a pixel size.
pub open spec fn no_size_in_segment(d: Seq<u8>, kids: Seq<(int, int, int)>) -> bool {
    forall|k: int|
        0 <= k < kids.len() && (#[trigger] kids[k]).0 == TRACKS as int ==> no_size_in_tracks(
            d,
            spec_children(d, d.len() as int, kids[k].1, kids[k].1 + kids[k].2),
        )
}

proof fn lemma_video_dims_keep(d: Seq<u8>, wh: (u32, u32), kids: Seq<(int, int, int)>)
    requires
        no_size_in_video(kids),
    ensures
        video_dims(d, wh, kids) == wh,
    decreases kids.len(),
{
    if kids.len() > 0 {
        let p = kids.drop_last();
        assert forall|k: int| 0 <= k < p.len() implies (#[trigger] p[k]).0 != PIXEL_WIDTH as int && p[k].0
            != PIXEL_HEIGHT as int by {
            assert(p[k] == kids[k]);
        }
        lemma_video_dims_keep(d, wh, p);
        assert(kids[kids.len() - 1] == kids.last());
    }
}

proof fn lemma_entry_dims_keep(d: Seq<u8>, wh: (u32, u32), kids: Seq<(int, int, int)>)
    requires
        no_size_in_entry(d, kids),
    ensures
        entry_dims(d, wh, kids) == wh,
    decreases kids.len(),
{
    if kids.len() > 0 {
        let p = kids.drop_last();
        assert forall|k: int| 0 <= k < p.len() && (#[trigger] p[k]).0 == VIDEO as int implies no_size_in_video(
            spec_children(d, d.len() as int, p[k].1, p[k].1 + p[k].2),
        ) by {
            assert(p[k] == kids[k]);
        }
        lemma_entry_dims_keep(d, wh, p);
        let e = kids.last();
        assert(kids[kids.len() - 1] == e);
        if e.0 == VIDEO as int {
            lemma_video_dims_keep(d, wh, spec_children(d, d.len() as int, e.1, e.1 + e.2));
        }
    }
}

proof fn lemma_tracks_dims_keep(d: Seq<u8>, wh: (u32, u32), kids: Seq<(int, int, int)>)
    requires
        no_size_in_tracks(d, kids),
    ensures
        tracks_dims(d, wh, kids) == wh,
    decreases kids.len(),
{
    if kids.len() > 0 {
        let p = kids.drop_last();
        assert forall|k: int| 0 <= k < p.len() && (#[trigger] p[k]).0 == TRACK_ENTRY as int implies no_size_in_entry(
            d,
            spec_children(d, d.len() as int, p[k].1, p[k].1 + p[k].2),
        ) by {
            assert(p[k] == kids[k]);
        }
        lemma_tracks_dims_keep(d, wh, p);
        let e = kids.last();
        assert(kids[kids.len() - 1] == e);
        if e.0 == TRACK_ENTRY as int {
            lemma_entry_dims_keep(d, wh, spec_children(d, d.len() as int, e.1, e.1 + e.2));
        }
    }
}

proof fn lemma_seg_fold_default_size(d: Seq<u8>, kids: Seq<(int, int, int)>)
    requires
        no_size_in_segment(d, kids),
    ensures
        seg_fold(d, kids).width == DEFAULT_WIDTH,
        seg_fold(d, kids).height == DEFAULT_HEIGHT,
    decreases kids.len(),
{
    if kids.len() > 0 {
        let p = kids.drop_last();
        assert forall|k: int| 0 <= k < p.len() && (#[trigger] p[k]).0 == TRACKS as int implies no_size_in_tracks(
            d,
            spec_children(d, d.len() as int, p[k].1, p[k].1 + p[k].2),
        ) by {
            assert(p[k] == kids[k]);
        }
        lemma_seg_fold_default_size(d, p);
        let e = kids.last();
        assert(kids[kids.len() - 1] == e);
        if e.0 == TRACKS as int {
            let prev = seg_fold(d, p);
            lemma_tracks_dims_keep(d, (prev.width, prev.height), spec_children(d, d.len() as int, e.1, e.1 + e.2));
        }
    }
}

/// An animation whose Segment gives no pixel width or height anywhere in its
/// tracks is 640 by 360.
pub proof fn size_defaults_to_640_by_360(d: Seq<u8>)
    requires
        spec_parse(d) is Some,
        match first_with_id(spec_children(d, d.len() as int, 0, d.len() as int), SEGMENT as int) {
            Some(seg) => no_size_in_segment(d, spec_children(d, d.len() as int, seg.1, seg.1 + seg.2)),
            None => true,
        },
    ensures
        spec_parse(d)->0.width == 640,
        spec_parse(d)->0.height == 360,
{
    let seg = first_with_id(spec_children(d, d.len() as int, 0, d.len() as int), SEGMENT as int)->0;
    lemma_seg_fold_default_size(d, spec_children(d, d.len() as int, seg.1, seg.1 + seg.2));
}

/// An animation lasts from its start to the end of its last frame: the last
/// frame's timecode plus one frame interval (the median gap, else the default
/// interval), and nothing without frames; stated where that sum fits in 64
/// bits.
pub proof fn duration_is_last_timecode_plus_one_frame(w: WebMView)
    requires
        w.frames.len() > 0 ==> w.frames.last().timecode_ms + spec_frame_ms(w) <= u64::MAX,
    ensures
        w.frames.len() == 0 ==> spec_duration_ms(w) == 0,
        w.frames.len() > 0 ==> spec_duration_ms(w) == w.frames.last().timecode_ms + spec_frame_ms(w),
        spec_frame_ms(w) == match w.frame_interval_ms {
            Some(m) => m,
            None => 42u64,
        },
{
}

/// The children of the file's Segment (none without a Segment).
pub open spec fn segment_children(d: Seq<u8>) -> Seq<(int, int, int)> {
    match first_with_id(spec_children(d, d.len() as int, 0, d.len() as int), SEGMENT as int) {
        Some(seg) => spec_children(d, d.len() as int, seg.1, seg.1 + seg.2),
        None => Seq::empty(),
    }
}

/// The children of element `e` of the file.
pub open spec fn element_children(d: Seq<u8>, e: (int, int, int)) -> Seq<(int, int, int)> {
    spec_children(d, d.len() as int, e.1, e.1 + e.2)
}

/// The cluster time in effect just before child `k` of a Cluster: the value
/// of the last Timecode child before it (0 when unreadable), or `tc0` when
/// there is none.
pub open spec fn cluster_time_before(d: Seq<u8>, tc0: i64, kids: Seq<(int, int, int)>, k: int) -> i64
    decreases k,
{
    if k <= 0 {
        tc0
    } else if kids[k - 1].0 == CLUSTER_TIMECODE as int {
        match spec_parse_i64(d, kids[k - 1].1, kids[k - 1].2) {
            Some(v) => v,
            None => 0,
        }
    } else {
        cluster_time_before(d, tc0, kids, k - 1)
    }
}

/// The relative time and the colour data of block child `e` of a Cluster:
/// a SimpleBlock's own, or those of a BlockGroup's last readable Block.
pub open spec fn block_of(d: Seq<u8>, e: (int, int, int)) -> Option<(i64, Seq<u8>)> {
    if e.0 == SIMPLE_BLOCK as int {
        match spec_block_payload(d, e.1, e.1 + e.2) {
            Some(bp) => Some((bp.1 as i64, d.subrange(bp.3, e.1 + e.2))),
            None => None,
        }
    } else if e.0 == BLOCK_GROUP as int {
        let g = group_fold(d, element_children(d, e));
        match g.1 {
            Some(v) => Some((g.0, v)),
            None => None,
        }
    } else {
        None
    }
}

/// The relative time of a block child (see [`block_of`]).
pub open spec fn block_time(d: Seq<u8>, e: (int, int, int)) -> i64 {
    match block_of(d, e) {
        Some(b) => b.0,
        None => 0,
    }
}

/// The colour data of a block child (see [`block_of`]).
pub open spec fn block_video(d: Seq<u8>, e: (int, int, int)) -> Seq<u8> {
    match block_of(d, e) {
        Some(b) => b.1,
        None => Seq::empty(),
    }
}

/// Milliseconds of block time `t` (cluster time plus relative time, in
/// ticks of `scale` nanoseconds): `t * scale / 1_000_000`, and 0 before the
/// start.
pub open spec fn block_ms(t: int, scale: u64) -> u64 {
    if t < 0 {
        0
    } else {
        (t * scale / 1_000_000) as u64
    }
}

proof fn lemma_cluster_prefix(d: Seq<u8>, scale: u64, tc0: i64, kids: Seq<(int, int, int)>, n: int)
    requires
        0 <= n <= kids.len(),
    ensures
        cluster_fold(d, scale, tc0, kids.subrange(0, n)).0 == cluster_time_before(d, tc0, kids, n),
        cluster_fold(d, scale, tc0, kids.subrange(0, n)).1.len() <= cluster_fold(d, scale, tc0, kids).1.len(),
        forall|j: int|
            0 <= j < cluster_fold(d, scale, tc0, kids.subrange(0, n)).1.len() ==> #[trigger] cluster_fold(
                d,
                scale,
                tc0,
                kids,
            ).1[j] == cluster_fold(d, scale, tc0, kids.subrange(0, n)).1[j],
    decreases kids.len(),
{
    if n == kids.len() {
        assert(kids.subrange(0, n) =~= kids);
        lemma_cluster_time(d, scale, tc0, kids, n);
    } else {
        let p = kids.drop_last();
        assert(kids.subrange(0, n) =~= p.subrange(0, n));
        lemma_cluster_prefix(d, scale, tc0, p, n);
        lemma_cluster_time(d, scale, tc0, kids, n);
    }
}

proof fn lemma_cluster_time(d: Seq<u8>, scale: u64, tc0: i64, kids: Seq<(int, int, int)>, n: int)
    requires
        0 <= n <= kids.len(),
    ensures
        cluster_fold(d, scale, tc0, kids.subrange(0, n)).0 == cluster_time_before(d, tc0, kids, n),
    decreases n,
{
    if n > 0 {
        let sub = kids.subrange(0, n);
        assert(sub.drop_last() =~= kids.subrange(0, n - 1));
        assert(sub.last() == kids[n - 1]);
        lemma_cluster_time(d, scale, tc0, kids, n - 1);
    }
}

/// Every block of a Cluster becomes a frame whose time is the cluster time
/// in effect (the Cluster's Timecode, or the time carried in) plus the
/// block's relative time, in milliseconds; its colour data is the block's.
pub proof fn cluster_block_times_add_cluster_time(d: Seq<u8>, scale: u64, tc0: i64, kids: Seq<(int, int, int)>, k: int)
    requires
        0 <= k < kids.len(),
        block_of(d, kids[k]) is Some,
    ensures
        exists|j: int|
            0 <= j < cluster_fold(d, scale, tc0, kids).1.len() && (#[trigger] cluster_fold(d, scale, tc0, kids).1[j]).video
                == block_video(d, kids[k]) && ({
                let t = cluster_time_before(d, tc0, kids, k) as int + block_time(d, kids[k]) as int;
                i64::MIN <= t <= i64::MAX ==> cluster_fold(d, scale, tc0, kids).1[j].timecode_ms == block_ms(t, scale)
            }),
{
    let sub = kids.subrange(0, k + 1);
    assert(sub.drop_last() =~= kids.subrange(0, k));
    assert(sub.last() == kids[k]);
    lemma_cluster_time(d, scale, tc0, kids, k);
    lemma_cluster_prefix(d, scale, tc0, kids, k + 1);
    let p = cluster_fold(d, scale, tc0, kids.subrange(0, k));
    let j = p.1.len() as int;
    assert(cluster_fold(d, scale, tc0, sub).1 == p.1.push(cluster_fold(d, scale, tc0, sub).1[j]));
    assert(cluster_fold(d, scale, tc0, kids).1[j] == cluster_fold(d, scale, tc0, sub).1[j]);
}

proof fn lemma_seg_prefix(d: Seq<u8>, kids: Seq<(int, int, int)>, n: int)
    requires
        0 <= n <= kids.len(),
    ensures
        seg_fold(d, kids.subrange(0, n)).frames.len() <= seg_fold(d, kids).frames.len(),
        forall|j: int|
            0 <= j < seg_fold(d, kids.subrange(0, n)).frames.len() ==> #[trigger] seg_fold(d, kids).frames[j]
                == seg_fold(d, kids.subrange(0, n)).frames[j],
    decreases kids.len(),
{
    if n == kids.len() {
        assert(kids.subrange(0, n) =~= kids);
    } else {
        let p = kids.drop_last();
        assert(kids.subrange(0, n) =~= p.subrange(0, n));
        lemma_seg_prefix(d, p, n);
    }
}

/// In a parsed animation, every block of every Cluster of the Segment is a
/// frame whose time is the Cluster's time (its Timecode, or the time carried
/// from the earlier Cluster) plus the block's relative time, scaled by the
/// TimecodeScale in effect to milliseconds.
pub proof fn parsed_block_times_add_cluster_time(d: Seq<u8>, i: int, k: int)
    requires
        0 <= i < segment_children(d).len(),
        segment_children(d)[i].0 == CLUSTER as int,
        0 <= k < element_children(d, segment_children(d)[i]).len(),
        block_of(d, element_children(d, segment_children(d)[i])[k]) is Some,
    ensures
        spec_parse(d) is Some,
        exists|j: int|
            0 <= j < spec_parse(d)->0.frames.len() && (#[trigger] spec_parse(d)->0.frames[j]).video == block_video(
                d,
                element_children(d, segment_children(d)[i])[k],
            ) && ({
                let before = seg_fold(d, segment_children(d).subrange(0, i));
                let inner = element_children(d, segment_children(d)[i]);
                let t = cluster_time_before(d, before.cluster_tc, inner, k) as int + block_time(d, inner[k]) as int;
                i64::MIN <= t <= i64::MAX ==> spec_parse(d)->0.frames[j].timecode_ms == block_ms(t, before.scale)
            }),
{
    broadcast use vstd::seq_lib::to_multiset_contains;

    let kids = segment_children(d);
    let inner = element_children(d, kids[i]);
    let before = seg_fold(d, kids.subrange(0, i));
    let sub = kids.subrange(0, i + 1);
    assert(sub.drop_last() =~= kids.subrange(0, i));
    assert(sub.last() == kids[i]);
    cluster_block_times_add_cluster_time(d, before.scale, before.cluster_tc, inner, k);
    let c = cluster_fold(d, before.scale, before.cluster_tc, inner);
    let j0 = choose|j: int|
        0 <= j < c.1.len() && (#[trigger] c.1[j]).video == block_video(d, inner[k]) && ({
            let t = cluster_time_before(d, before.cluster_tc, inner, k) as int + block_time(d, inner[k]) as int;
            i64::MIN <= t <= i64::MAX ==> c.1[j].timecode_ms == block_ms(t, before.scale)
        });
    assert(seg_fold(d, sub).frames == before.frames + c.1);
    let f = seg_fold(d, sub).frames[before.frames.len() + j0];
    assert(f == c.1[j0]);
    lemma_seg_prefix(d, kids, i + 1);
    let all = seg_fold(d, kids).frames;
    assert(all[before.frames.len() + j0] == f);
    assert(collected_frames(d) == all);
    assert(all.contains(f));
    parsed_frames_are_collected_frames(d);
    let w = spec_parse(d)->0;
    assert(all.to_multiset().count(f) > 0);
    assert(w.frames.to_multiset().count(f) > 0);
    assert(w.frames.contains(f));
    let j = choose|j: int| 0 <= j < w.frames.len() && w.frames[j] == f;
    assert(w.frames[j] == f);
}

/// A parsed animation plays its frames in nondecreasing timecode order.
pub proof fn parsed_frames_in_time_order(d: Seq<u8>)
    requires
        spec_parse(d) is Some,
    ensures
        forall|i: int, j: int|
            0 <= i <= j < spec_parse(d)->0.frames.len() ==> (#[trigger] spec_parse(d)->0.frames[i]).timecode_ms
                <= (#[trigger] spec_parse(d)->0.frames[j]).timecode_ms,
{
    lemma_sort_by_key(collected_frames(d), frame_key());
    let f = spec_parse(d)->0.frames;
    assert forall|i: int, j: int| 0 <= i <= j < f.len() implies (#[trigger] f[i]).timecode_ms <= (
    #[trigger] f[j]).timecode_ms by {
        assert(frame_key()(f[i]) <= frame_key()(f[j]));
    }
}

/// Parsing only reorders: the parsed frames are exactly the collected frames,
/// each as often as it occurs in the file, and parsing succeeds exactly when
/// there is at least one.
pub proof fn parsed_frames_are_collected_frames(d: Seq<u8>)
    ensures
        spec_parse(d) is Some <==> collected_frames(d).len() > 0,
        spec_parse(d) is Some ==> spec_parse(d)->0.frames.to_multiset()
            == collected_frames(d).to_multiset(),
{
    lemma_sort_by_key(collected_frames(d), frame_key());
}

/// The frame duration of a parsed animation is positive, and when it comes
/// from the frames it is one of the positive gaps between consecutive timecodes.
pub proof fn parsed_frame_ms_is_a_gap(d: Seq<u8>)
    requires
        spec_parse(d) is Some,
    ensures
        spec_frame_ms(spec_parse(d)->0) > 0,
        spec_parse(d)->0.frame_interval_ms matches Some(m) ==> positive_gaps(spec_parse(d)->0.frames).contains(m),
{
    broadcast use vstd::seq_lib::to_multiset_contains;

    let w = spec_parse(d)->0;
    let g = positive_gaps(w.frames);
    if w.frame_interval_ms is Some {
        let sg = sort_by_key(g, u64_key());
        lemma_sort_by_key(g, u64_key());
        lemma_sort_len(g, u64_key());
        let k = (g.len() / 2) as int;
        assert(sg.contains(sg[k]));
        assert(sg.to_multiset().count(sg[k]) > 0);
    }
}

} // verus!

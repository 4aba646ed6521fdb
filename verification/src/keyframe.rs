//! Whether the animations start on VP9 key frames. When every first frame,
//! colour and alpha, is a key frame, restarting an animation needs no new
//! decoder: decoding that key frame resets the decoder's reference frames.

use vstd::prelude::*;
use crate::webm::{WebM, WebMView};

verus! {

/// The frame-type bit of a VP9 frame header, bit 5 of its first byte:
/// 0 for a key frame, 1 for an inter frame.
pub open spec fn frame_type_bit(b0: u8) -> u8 {
    ((b0 as int / 32) % 2) as u8
}

/// Reads the frame-type bit of a VP9 frame header's first byte.
pub fn frame_type(b0: u8) -> (r: u8)
    ensures
        r == frame_type_bit(b0),
        r <= 1,
{
    let r = (b0 >> 5u8) & 1u8;
    assert(r == (b0 / 32) % 2) by (bit_vector)
        requires
            r == (b0 >> 5u8) & 1u8,
    ;
    r
}

/// What the first frame of an animation shows.
#[derive(Clone, Copy, Debug, PartialEq, Eq, Structural)]
pub enum FirstFrame {
    /// The animation has no frames.
    NoFrames,
    /// Its first colour frame is empty.
    EmptyVideo,
    /// The frame type of the first colour frame and, where the frame has an
    /// alpha frame, the type of that (`None` inside for an empty one).
    Typed { video: u8, alpha: Option<Option<u8>> },
}

/// The first frame of a parsed animation, as [`FirstFrame`] describes it.
pub open spec fn first_frame_spec(w: WebMView) -> FirstFrame {
    if w.frames.len() == 0 {
        FirstFrame::NoFrames
    } else {
        let f = w.frames[0];
        if f.video.len() == 0 {
            FirstFrame::EmptyVideo
        } else {
            FirstFrame::Typed {
                video: frame_type_bit(f.video[0]),
                alpha: match f.alpha {
                    Some(a) => if a.len() == 0 {
                        Some(None)
                    } else {
                        Some(Some(frame_type_bit(a[0])))
                    },
                    None => None,
                },
            }
        }
    }
}

/// Describes the first frame of a parsed animation.
pub fn first_frame(w: &WebM) -> (r: FirstFrame)
    ensures
        r == first_frame_spec(w@),
{
    if w.frames.len() == 0 {
        return FirstFrame::NoFrames;
    }
    let f = &w.frames[0];
    proof {
        assert(w@.frames[0] == f@);
    }
    if f.video.len() == 0 {
        return FirstFrame::EmptyVideo;
    }
    let video = frame_type(f.video[0]);
    let alpha = match &f.alpha {
        Some(a) => if a.len() == 0 {
            Some(None)
        } else {
            Some(Some(frame_type(a[0])))
        },
        None => None,
    };
    FirstFrame::Typed { video, alpha }
}

/// The survey of a set of animations: how many have frames, how many of
/// those start on a colour key frame, which do not (by position), how many
/// first frames carry alpha, and which of those alpha frames are inter
/// frames. An animation whose first colour frame is empty counts as not
/// starting on a key frame and is not looked at further.
pub struct KeyframeSurvey {
    pub total: usize,
    pub key: usize,
    pub not_key: Vec<usize>,
    pub alpha_total: usize,
    pub alpha_not_key: Vec<usize>,
}

/// The survey of the first `n` animations, as plain values.
pub open spec fn survey_upto(s: Seq<FirstFrame>, n: int) -> (nat, nat, Seq<usize>, nat, Seq<usize>)
    decreases n,
{
    if n <= 0 {
        (0, 0, Seq::empty(), 0, Seq::empty())
    } else {
        let p = survey_upto(s, n - 1);
        let i = (n - 1) as usize;
        match s[n - 1] {
            FirstFrame::NoFrames => p,
            FirstFrame::EmptyVideo => (p.0 + 1, p.1, p.2.push(i), p.3, p.4),
            FirstFrame::Typed { video, alpha } => {
                let key = if video == 0 { p.1 + 1 } else { p.1 };
                let not_key = if video == 0 { p.2 } else { p.2.push(i) };
                let alpha_total = if alpha is Some { p.3 + 1 } else { p.3 };
                let alpha_not_key = match alpha {
                    Some(Some(t)) => if t != 0 { p.4.push(i) } else { p.4 },
                    _ => p.4,
                };
                (p.0 + 1, key, not_key, alpha_total, alpha_not_key)
            },
        }
    }
}

/// Whether an animation needs no new decoder on restart: it has no frames,
/// or its first colour frame is a key frame and so is its alpha frame, if
/// that is not empty.
pub open spec fn restarts_on_key_frame(f: FirstFrame) -> bool {
    match f {
        FirstFrame::NoFrames => true,
        FirstFrame::EmptyVideo => false,
        FirstFrame::Typed { video, alpha } => video == 0 && !(alpha matches Some(Some(t)) && t != 0),
    }
}

proof fn lemma_survey_bounds(s: Seq<FirstFrame>, n: int)
    requires
        0 <= n <= s.len(),
    ensures
        survey_upto(s, n).1 <= survey_upto(s, n).0 <= n,
        survey_upto(s, n).3 <= survey_upto(s, n).0,
        survey_upto(s, n).2.len() <= n,
        survey_upto(s, n).4.len() <= n,
        (survey_upto(s, n).2.len() == 0 && survey_upto(s, n).4.len() == 0) <==> (forall|j: int|
            0 <= j < n ==> restarts_on_key_frame(#[trigger] s[j])),
    decreases n,
{
    if n > 0 {
        lemma_survey_bounds(s, n - 1);
        let p = survey_upto(s, n - 1);
        let q = survey_upto(s, n);
        if q.2.len() == 0 && q.4.len() == 0 {
            assert(p.2.len() == 0 && p.4.len() == 0);
            assert(restarts_on_key_frame(s[n - 1]));
        }
        if forall|j: int| 0 <= j < n ==> restarts_on_key_frame(#[trigger] s[j]) {
            assert(restarts_on_key_frame(s[n - 1]));
            assert forall|j: int| 0 <= j < n - 1 implies restarts_on_key_frame(#[trigger] s[j]) by {
                assert(restarts_on_key_frame(s[j]));
            }
        }
    }
}

/// Surveys the first frames of a set of animations (see [`KeyframeSurvey`]).
pub fn survey(frames: &Vec<FirstFrame>) -> (r: KeyframeSurvey)
    ensures
        (r.total as nat, r.key as nat, r.not_key@, r.alpha_total as nat, r.alpha_not_key@) == survey_upto(
            frames@,
            frames@.len() as int,
        ),
{
    let mut r = KeyframeSurvey { total: 0, key: 0, not_key: Vec::new(), alpha_total: 0, alpha_not_key: Vec::new() };
    let mut i: usize = 0;
    while i < frames.len()
        invariant
            i <= frames@.len(),
            (r.total as nat, r.key as nat, r.not_key@, r.alpha_total as nat, r.alpha_not_key@) == survey_upto(
                frames@,
                i as int,
            ),
        decreases frames@.len() - i,
    {
        proof {
            lemma_survey_bounds(frames@, i as int);
        }
        match frames[i] {
            FirstFrame::NoFrames => {},
            FirstFrame::EmptyVideo => {
                r.total += 1;
                r.not_key.push(i);
            },
            FirstFrame::Typed { video, alpha } => {
                r.total += 1;
                if video == 0 {
                    r.key += 1;
                } else {
                    r.not_key.push(i);
                }
                match alpha {
                    Some(a) => {
                        r.alpha_total += 1;
                        match a {
                            Some(t) => if t != 0 {
                                r.alpha_not_key.push(i);
                            },
                            None => {},
                        }
                    },
                    None => {},
                }
            },
        }
        i += 1;
    }
    r
}

impl KeyframeSurvey {
    /// Whether every surveyed animation restarts on key frames.
    pub fn all_key(&self) -> (r: bool)
        ensures
            r == (self.not_key@.len() == 0 && self.alpha_not_key@.len() == 0),
    {
        self.not_key.len() == 0 && self.alpha_not_key.len() == 0
    }
}

/// The survey finds nothing to report exactly when every animation restarts
/// on key frames, and its counts never exceed the number of animations.
pub proof fn survey_clean_iff_all_restart_on_key_frames(s: Seq<FirstFrame>)
    ensures
        (survey_upto(s, s.len() as int).2.len() == 0 && survey_upto(s, s.len() as int).4.len() == 0)
            <==> (forall|j: int| 0 <= j < s.len() ==> restarts_on_key_frame(#[trigger] s[j])),
        survey_upto(s, s.len() as int).1 <= survey_upto(s, s.len() as int).0 <= s.len(),
{
    lemma_survey_bounds(s, s.len() as int);
}

} // verus!

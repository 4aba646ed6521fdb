use deskpet::keyframe::{first_frame, frame_type, survey, FirstFrame};
use deskpet::webm::{Frame, WebM};

fn clip(frames: Vec<(Vec<u8>, Option<Vec<u8>>)>) -> WebM {
    WebM {
        width: 2,
        height: 2,
        frame_interval_ms: None,
        frames: frames
            .into_iter()
            .enumerate()
            .map(|(i, (video, alpha))| Frame { timecode_ms: i as u64 * 40, video, alpha })
            .collect(),
    }
}

#[test]
fn frame_type_is_bit_five() {
    assert_eq!(frame_type(0x82), 0);
    assert_eq!(frame_type(0x86), 0);
    assert_eq!(frame_type(0xA0), 1);
    assert_eq!(frame_type(0x20), 1);
    assert_eq!(frame_type(0xDF), 0);
}

#[test]
fn first_frame_reads_colour_and_alpha() {
    assert_eq!(first_frame(&clip(vec![])), FirstFrame::NoFrames);
    assert_eq!(first_frame(&clip(vec![(vec![], None)])), FirstFrame::EmptyVideo);
    assert_eq!(
        first_frame(&clip(vec![(vec![0x82, 1], Some(vec![0xA2])), (vec![0xA6], None)])),
        FirstFrame::Typed { video: 0, alpha: Some(Some(1)) }
    );
    assert_eq!(
        first_frame(&clip(vec![(vec![0xA6], Some(vec![]))])),
        FirstFrame::Typed { video: 1, alpha: Some(None) }
    );
}

#[test]
fn survey_counts_and_lists_offenders() {
    let frames = vec![
        FirstFrame::Typed { video: 0, alpha: Some(Some(0)) },
        FirstFrame::NoFrames,
        FirstFrame::EmptyVideo,
        FirstFrame::Typed { video: 1, alpha: None },
        FirstFrame::Typed { video: 0, alpha: Some(Some(1)) },
        FirstFrame::Typed { video: 0, alpha: Some(None) },
    ];
    let s = survey(&frames);
    assert_eq!(s.total, 5);
    assert_eq!(s.key, 3);
    assert_eq!(s.not_key, vec![2, 3]);
    assert_eq!(s.alpha_total, 3);
    assert_eq!(s.alpha_not_key, vec![4]);
    assert!(!s.all_key());
    let clean = survey(&vec![FirstFrame::Typed { video: 0, alpha: None }, FirstFrame::NoFrames]);
    assert!(clean.all_key());
    assert_eq!((clean.total, clean.key), (1, 1));
}

use deskpet::convert::{
    canvas_offset, crop_window, grow_bbox, in_watermark, normalize_filter, scaled_size, video_filter,
    watermark_margins, CanvasSpec,
};

#[test]
fn watermark_corners() {
    let (mw, mh) = watermark_margins(640, 360);
    assert_eq!((mw, mh), (153, 54));
    assert!(in_watermark(0, 0, 640, 360, mw, mh));
    assert!(in_watermark(639, 359, 640, 360, mw, mh));
    assert!(in_watermark(500, 10, 640, 360, mw, mh));
    assert!(!in_watermark(300, 10, 640, 360, mw, mh));
    assert!(!in_watermark(10, 180, 640, 360, mw, mh));
    assert!(!in_watermark(300, 180, 640, 360, mw, mh));
}

#[test]
fn bbox_grows_over_frames() {
    // 4x3 plane: character pixels at (1,0) and (2,2); 16 does not count.
    let a = vec![0, 200, 0, 16, 0, 0, 0, 0, 0, 0, 17, 0];
    let b = grow_bbox(None, &a, 4, 3);
    assert_eq!(b, Some((1, 0, 2, 2)));
    let c = vec![0u8; 12];
    assert_eq!(grow_bbox(None, &c, 4, 3), None);
    assert_eq!(grow_bbox(b, &c, 4, 3), Some((1, 0, 2, 2)));
    let d = vec![0, 0, 0, 0, 0, 0, 0, 99, 0, 0, 0, 0];
    assert_eq!(grow_bbox(b, &d, 4, 3), Some((1, 0, 3, 2)));
}

#[test]
fn crop_window_adds_margin_inside_frame() {
    assert_eq!(crop_window((100, 50, 200, 300), 640, 360), (94, 44, 112, 262));
    assert_eq!(crop_window((2, 3, 637, 358), 640, 360), (0, 0, 640, 360));
}

#[test]
fn scaled_size_rounds_width_up_to_even() {
    assert_eq!(scaled_size(121, 295), (122, 295));
    assert_eq!(scaled_size(120, 295), (120, 295));
    assert_eq!(scaled_size(-3, 1), (2, 2));
    assert_eq!(scaled_size(1, 0), (2, 2));
}

#[test]
fn character_is_centred_and_stands_on_foot_margin() {
    let c = CanvasSpec { canvas_w: 640, canvas_h: 360, foot_margin: 30 };
    assert_eq!(canvas_offset(&c, 122, 295), (259, 35));
    assert_eq!(canvas_offset(&c, 640, 350), (0, 0));
    let low = CanvasSpec { canvas_w: 640, canvas_h: 360, foot_margin: -100 };
    assert_eq!(canvas_offset(&low, 121, 295), (259, 65));
}

#[test]
fn filter_text_matches_encoder_syntax() {
    let c = CanvasSpec { canvas_w: 640, canvas_h: 360, foot_margin: 30 };
    let f = normalize_filter((94, 44, 112, 262), 126, 295, &c, 257, 35);
    assert_eq!(f, "crop=112:262:94:44,scale=126:295,pad=640:360:257:35:0x00000000");
    assert_eq!(video_filter(Some(&f)), format!("{},format=yuva420p", f));
    assert_eq!(video_filter(None), "format=yuva420p");
}

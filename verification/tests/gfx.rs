use deskpet::gfx::{
    bubble_font, bubble_line_width, bubble_size,
    bgra_premul_to_rgba_straight, composite_bubble, copy_alpha_plane, hit_test_alpha, place_frame, present_frame,
    round_rect_alpha, scale_bgra, BubbleBitmap,
};

#[test]
fn scaling_copies_and_mirrors_pixels() {
    let src: Vec<u8> = (0u8..8).collect(); // two pixels
    let mut dst = vec![0u8; 16];
    scale_bgra(&src, 2, 1, &mut dst, 4, 1, 16, false);
    assert_eq!(dst, vec![0, 1, 2, 3, 0, 1, 2, 3, 4, 5, 6, 7, 4, 5, 6, 7]);
    let mut m = vec![0u8; 8];
    scale_bgra(&src, 2, 1, &mut m, 2, 1, 8, true);
    assert_eq!(m, vec![4, 5, 6, 7, 0, 1, 2, 3]);
}

#[test]
fn scaling_leaves_row_padding_alone() {
    let src = vec![9u8, 9, 9, 9];
    let mut dst = vec![1u8; 12];
    scale_bgra(&src, 1, 1, &mut dst, 1, 2, 6, false);
    assert_eq!(dst, vec![9, 9, 9, 9, 1, 1, 9, 9, 9, 9, 1, 1]);
}

#[test]
fn bubble_blends_at_top_centre() {
    let (dw, dh) = (3usize, 6usize);
    let mut dst = vec![0u8; dw * dh * 4];
    let b = BubbleBitmap { buf: vec![200, 100, 50, 255], w: 1, h: 1 };
    composite_bubble(&mut dst, dw, dh, &b);
    let i = (4 * dw + 1) * 4;
    assert_eq!(&dst[i..i + 4], &[200, 100, 50, 255]);
    assert_eq!(dst.iter().filter(|x| **x != 0).count(), 4);
}

#[test]
fn bubble_half_coverage_and_transparent_pixels() {
    let (dw, dh) = (3usize, 6usize);
    let mut dst = vec![100u8; dw * dh * 4];
    let b = BubbleBitmap { buf: vec![200, 200, 200, 128, 9, 9, 9, 0], w: 2, h: 1 };
    composite_bubble(&mut dst, dw, dh, &b);
    let i = (4 * dw) * 4;
    assert_eq!(&dst[i..i + 4], &[150, 150, 150, 255]);
    assert_eq!(&dst[i + 4..i + 8], &[100, 100, 100, 100]);
    let wide = BubbleBitmap { buf: vec![1; 12], w: 3, h: 1 };
    let before = dst.clone();
    composite_bubble(&mut dst, dw, dh, &wide);
    assert_eq!(dst, before);
}

#[test]
fn premultiplied_to_straight() {
    let bgra = vec![64u8, 32, 16, 128, 5, 5, 5, 0];
    let out = bgra_premul_to_rgba_straight(&bgra, 3, 1);
    assert_eq!(out.len(), 12);
    assert_eq!(&out[0..4], &[32, 64, 128, 128]);
    assert_eq!(&out[4..12], &[0; 8]);
}

#[test]
fn hit_test_uses_alpha_threshold() {
    let alpha = vec![0u8, 127, 128, 255];
    assert!(!hit_test_alpha(&alpha, 2, 2, 0, 0));
    assert!(!hit_test_alpha(&alpha, 2, 2, 1, 0));
    assert!(hit_test_alpha(&alpha, 2, 2, 0, 1));
    assert!(hit_test_alpha(&alpha, 2, 2, 1, 1));
    assert!(!hit_test_alpha(&alpha, 2, 2, 2, 1));
    assert!(!hit_test_alpha(&alpha, 2, 2, -1, 1));
}

#[test]
fn frame_is_placed_below_padding_and_clipped() {
    // 1-pixel-wide frame of 3 rows, placed 1 row down into a 3-row buffer.
    let frame = vec![1u8, 1, 1, 1, 2, 2, 2, 2, 3, 3, 3, 3];
    let mut buf = vec![7u8; 13];
    place_frame(&mut buf, &frame, 1, 3, 1);
    assert_eq!(buf, vec![0, 0, 0, 0, 1, 1, 1, 1, 2, 2, 2, 2, 0]);
    let mut far = vec![5u8; 8];
    place_frame(&mut far, &frame, 1, 3, 4);
    assert_eq!(far, vec![0u8; 8]);
}

#[test]
fn bubble_corners_are_cut() {
    let (w, h) = (16usize, 16usize);
    let mut buf = vec![9u8; w * h * 4];
    round_rect_alpha(&mut buf, w, h);
    let a = |x: usize, y: usize| buf[(y * w + x) * 4 + 3];
    assert_eq!(a(0, 0), 0);
    assert_eq!(a(1, 1), 0);
    assert_eq!(a(2, 2), 255);
    assert_eq!(a(7, 0), 255);
    assert_eq!(a(8, 0), 255);
    assert_eq!(a(0, 8), 255);
    assert_eq!(a(15, 15), 0);
    assert_eq!(a(8, 8), 255);
    assert!(buf.iter().enumerate().all(|(i, v)| i % 4 == 3 || *v == 9));
    let mut small = vec![0u8; 4 * 2 * 4];
    round_rect_alpha(&mut small, 4, 2);
    assert!(small.iter().enumerate().all(|(i, v)| if i % 4 == 3 { *v == 255 } else { *v == 0 }));
}

#[test]
fn presenting_scales_and_keeps_alpha() {
    let src = vec![1u8, 2, 3, 200, 5, 6, 7, 0];
    let mut dst = vec![9u8; 2 * 2 * 4];
    let mut alpha = vec![0u8; 4];
    present_frame(&src, 2, 1, true, &None, &mut dst, 2, 2, &mut alpha);
    assert_eq!(dst, vec![5, 6, 7, 0, 1, 2, 3, 200, 5, 6, 7, 0, 1, 2, 3, 200]);
    assert_eq!(alpha, vec![0, 200, 0, 200]);
    let before = dst.clone();
    present_frame(&src[..4], 2, 1, false, &None, &mut dst, 2, 2, &mut alpha);
    assert_eq!(dst, before);
    let mut a = vec![0u8; 2];
    copy_alpha_plane(&[0, 0, 0, 7, 0, 0, 0, 8, 1], &mut a);
    assert_eq!(a, vec![7, 8]);
}

#[test]
fn presenting_blends_the_bubble() {
    // 1-pixel window column of 6 rows; an opaque 1x1 bubble lands on row 4 when narrower than the window.
    let src = vec![10u8, 10, 10, 255];
    let bubble = Some(BubbleBitmap { buf: vec![50, 60, 70, 255], w: 1, h: 1 });
    let mut dst = vec![0u8; 3 * 6 * 4];
    let mut alpha = vec![0u8; 18];
    present_frame(&src, 1, 1, false, &bubble, &mut dst, 3, 6, &mut alpha);
    let px = |x: usize, y: usize| dst[(y * 3 + x) * 4..(y * 3 + x) * 4 + 4].to_vec();
    assert_eq!(px(1, 4), vec![50, 60, 70, 255]);
    assert_eq!(px(0, 4), vec![10, 10, 10, 255]);
    assert_eq!(px(1, 3), vec![10, 10, 10, 255]);
    assert!(alpha.iter().all(|a| *a == 255));
}

#[test]
fn same_size_scaling_copies_or_mirrors_rows() {
    let src: Vec<u8> = (0u8..24).collect(); // 3x2 pixels
    let mut copy = vec![0u8; 24];
    scale_bgra(&src, 3, 2, &mut copy, 3, 2, 12, false);
    assert_eq!(copy, src);
    let mut mirrored = vec![0u8; 24];
    scale_bgra(&src, 3, 2, &mut mirrored, 3, 2, 12, true);
    let want: Vec<u8> = [8u8, 9, 10, 11, 4, 5, 6, 7, 0, 1, 2, 3, 20, 21, 22, 23, 16, 17, 18, 19, 12, 13, 14, 15].to_vec();
    assert_eq!(mirrored, want);
}

#[test]
fn bubble_layout_picks_fitting_font_and_size() {
    // Widths of the text at 16, 14 and 12 pixels.
    assert_eq!(bubble_font(&vec![Some(300), Some(200), Some(100)], 250), Some(1));
    assert_eq!(bubble_font(&vec![Some(100), Some(90), Some(80)], 250), Some(0));
    assert_eq!(bubble_font(&vec![Some(400), Some(300), Some(280)], 250), Some(2));
    assert_eq!(bubble_font(&vec![Some(400), Some(300), None], 250), None);
    assert_eq!(bubble_font(&vec![None, Some(10), Some(5)], 10), Some(1));
    assert_eq!(bubble_line_width(250), 222);
    assert_eq!(bubble_line_width(10), 12);
    assert_eq!(bubble_size(100, 20), (128, 34));
    assert_eq!(bubble_size(2, 3), (40, 24));
}

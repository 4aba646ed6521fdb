use deskpet::thumb::{count_opaque, encode_png, extract_png, BestFrame};

#[test]
fn count_opaque_counts_alpha_above_threshold() {
    let rgba: Vec<u8> = [
        1, 2, 3, 255, // valid
        1, 2, 3, 0, // invalid
        1, 2, 3, 9, // valid
        1, 2, 3, 8, // invalid (= threshold)
        1, 2, 3, 129, // valid
        1, 2, 3, 4, // invalid
        1, 2, 3, 255, // valid
        1, 2, 3, 0, // invalid
    ]
    .to_vec();
    assert_eq!(count_opaque(&rgba), 4);
}

#[test]
fn count_opaque_ignores_partial_pixel() {
    assert_eq!(count_opaque(&[0, 0, 0, 200, 0, 0, 0]), 1);
    assert_eq!(count_opaque(&[]), 0);
}

#[test]
fn png_encoding_writes_a_png_file() {
    let rgba = vec![10u8, 20, 30, 255, 40, 50, 60, 128];
    let png = encode_png(&rgba, 2, 1).expect("png");
    assert_eq!(&png[..8], &[137, 80, 78, 71, 13, 10, 26, 10]);
    assert_ne!(png, rgba);
    assert!(encode_png(&rgba, 3, 1).is_none());
    assert!(encode_png(&rgba, 0, 1).is_none());
}

#[test]
fn best_frame_keeps_earliest_fullest_frame() {
    let mut b = BestFrame::new();
    assert!(b.finish().is_none());
    assert!(!b.offer(&vec![0, 0, 0, 0], 1, 1));
    assert!(b.offer(&vec![1, 1, 1, 255], 1, 1));
    assert!(!b.offer(&vec![2, 2, 2, 255], 1, 1));
    assert_eq!(b.rgba, vec![1, 1, 1, 255]);
    assert_eq!(b.opaque, 1);
    assert!(b.offer(&vec![3, 3, 3, 255, 4, 4, 4, 255], 2, 1));
    assert_eq!((b.w, b.h, b.opaque), (2, 1, 2));
    assert!(b.finish().is_some());
}

#[test]
fn extract_png_picks_the_fullest_frame() {
    let thin = vec![9u8, 9, 9, 255, 0, 0, 0, 0];
    let full = vec![1u8, 2, 3, 255, 4, 5, 6, 200];
    let also_full = vec![7u8, 7, 7, 255, 7, 7, 7, 255];
    let frames = vec![Some((thin, 2, 1)), None, Some((full.clone(), 2, 1)), Some((also_full, 2, 1))];
    let png = extract_png(&frames).expect("png");
    assert_eq!(png, encode_png(&full, 2, 1).unwrap());
}

#[test]
fn extract_png_refuses_empty_or_transparent_animations() {
    assert!(extract_png(&vec![]).is_none());
    let clear = vec![0u8, 0, 0, 8, 0, 0, 0, 0];
    assert!(extract_png(&vec![Some((clear, 2, 1)), None]).is_none());
}

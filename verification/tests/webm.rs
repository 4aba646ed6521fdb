use deskpet::ebml::{parse_i64, parse_u32, read_id, read_vint};
use deskpet::webm::{timecode_ms, WebM};

fn elem(id: &[u8], body: &[u8]) -> Vec<u8> {
    assert!(body.len() < 127);
    let mut v = id.to_vec();
    v.push(0x80 | body.len() as u8);
    v.extend_from_slice(body);
    v
}

fn block(tc: i16, data: &[u8]) -> Vec<u8> {
    let mut b = vec![0x81];
    b.extend_from_slice(&tc.to_be_bytes());
    b.push(0x80);
    b.extend_from_slice(data);
    elem(&[0xA3], &b)
}

fn sample_file() -> Vec<u8> {
    let video = elem(&[0xE0], &[elem(&[0xB0], &[0x01, 0x00]), elem(&[0xBA], &[0x40])].concat());
    let tracks = elem(&[0x16, 0x54, 0xAE, 0x6B], &elem(&[0xAE], &video));
    let mut cluster_body = elem(&[0xE7], &[0]);
    cluster_body.extend(block(80, &[3]));
    cluster_body.extend(block(0, &[1]));
    cluster_body.extend(block(40, &[2]));
    let cluster = elem(&[0x1F, 0x43, 0xB6, 0x75], &cluster_body);
    let segment = elem(&[0x18, 0x53, 0x80, 0x67], &[tracks, cluster].concat());
    let mut file = elem(&[0x1A, 0x45, 0xDF, 0xA3], &[]);
    file.extend(segment);
    file
}

#[test]
fn parse_sorts_frames_and_measures_interval() {
    let w = WebM::parse(&sample_file()).expect("webm");
    assert_eq!((w.width, w.height), (256, 64));
    let tcs: Vec<u64> = w.frames.iter().map(|f| f.timecode_ms).collect();
    assert_eq!(tcs, vec![0, 40, 80]);
    let data: Vec<Vec<u8>> = w.frames.iter().map(|f| f.video.clone()).collect();
    assert_eq!(data, vec![vec![1], vec![2], vec![3]]);
    assert_eq!(w.frame_interval_ms, Some(40));
    assert_eq!(w.frame_ms(), 40);
    assert_eq!(w.duration_ms(), 120);
    assert!(WebM::parse_strict(&sample_file()).is_some());
}

#[test]
fn parse_needs_a_segment_with_frames() {
    assert!(WebM::parse(&[]).is_none());
    assert!(WebM::parse(&elem(&[0x1A, 0x45, 0xDF, 0xA3], &[])).is_none());
    assert!(WebM::parse(&elem(&[0x18, 0x53, 0x80, 0x67], &[])).is_none());
}

#[test]
fn few_frames_fall_back_to_default_duration() {
    let cluster = elem(&[0x1F, 0x43, 0xB6, 0x75], &block(5, &[9]));
    let file = elem(&[0x18, 0x53, 0x80, 0x67], &cluster);
    let w = WebM::parse(&file).expect("webm");
    assert_eq!((w.width, w.height), (640, 360));
    assert_eq!(w.frame_interval_ms, None);
    assert_eq!(w.frame_ms(), 42);
    assert_eq!(w.duration_ms(), 5 + 42);
}

#[test]
fn vint_and_id_reading() {
    let d = [0x81u8, 0x40, 0x02, 0x1A, 0x45, 0xDF, 0xA3];
    assert_eq!(read_vint(&d, d.len(), 0), Some((1, 1)));
    assert_eq!(read_vint(&d, d.len(), 1), Some((2, 3)));
    assert_eq!(read_id(&d, d.len(), 3), Some((0x1A45DFA3, 7)));
    assert_eq!(read_vint(&[0u8], 1, 0), None);
    assert_eq!(read_vint(&[0x40u8], 1, 0), None);
}

#[test]
fn integer_fields() {
    let d = [0x01u8, 0x02, 0x03, 0x04, 0x05];
    assert_eq!(parse_u32(&d, 0, 4), Some(0x01020304));
    assert_eq!(parse_u32(&d, 0, 5), None);
    assert_eq!(parse_u32(&d, 0, 0), None);
    assert_eq!(parse_i64(&d, 0, 2), Some(0x0102));
    assert_eq!(timecode_ms(1500, 1_000_000), 1500);
    assert_eq!(timecode_ms(3, 500_000), 1);
    assert_eq!(timecode_ms(-5, 1_000_000), 0);
}

use std::rc::Rc;

use deskpet::assets::{choose_assets_root, choose_character_dir, scan_webm_names, AssetsRoot, CharacterDir};
use deskpet::autostart::{launch_agent_plist, run_command, run_key_path, value_name, PLIST_RELATIVE_PATH};
use deskpet::clip::{compose_into, make_ytab, ClipDecoder, Plane, YuvFrame};
use deskpet::text::wide;
use deskpet::webm::{Frame, WebM};

fn frame(y: &[u8], u: &[u8], v: &[u8], w: usize, h: usize, cw: usize) -> YuvFrame<'static> {
    let y: &'static [u8] = Box::leak(y.to_vec().into_boxed_slice());
    let u: &'static [u8] = Box::leak(u.to_vec().into_boxed_slice());
    let v: &'static [u8] = Box::leak(v.to_vec().into_boxed_slice());
    YuvFrame {
        w,
        h,
        y: Plane { data: y, stride: w },
        u: Plane { data: u, stride: cw },
        v: Plane { data: v, stride: cw },
        x_shift: 1,
        y_shift: 1,
    }
}

#[test]
fn luma_table_matches_bt601() {
    let t = make_ytab();
    assert_eq!(t[0], 0);
    assert_eq!(t[16], 0);
    assert_eq!(t[17], 1);
    assert_eq!(t[235], 254);
    assert_eq!(t[255], 278);
}

#[test]
fn composition_premultiplies_grey() {
    let t = make_ytab();
    let f = frame(&[235], &[128], &[128], 1, 1, 1);
    let mut out = Vec::new();
    compose_into(&f, None, &t, &mut out);
    assert_eq!(out, vec![253, 253, 253, 255]);
    let a = Plane { data: &[128], stride: 1 };
    compose_into(&f, Some(&a), &t, &mut out);
    assert_eq!(out, vec![127, 127, 127, 128]);
}

#[test]
fn composition_uses_shared_chroma_and_clamps() {
    let t = make_ytab();
    // 2x1 frame sharing one chroma sample: strong red.
    let f = frame(&[81, 81], &[90], &[240], 2, 1, 1);
    let mut out = vec![9u8; 3];
    compose_into(&f, None, &t, &mut out);
    assert_eq!(out.len(), 8);
    assert_eq!(&out[0..4], &out[4..8]);
    assert_eq!(out[3], 255);
    // red channel: 75 + (409*112+128)>>8 = 75 + 179 = 254 -> 254*255>>8 = 253
    assert_eq!(out[2], 253);
    // blue clamps at zero: 75 + ((516*-38+128)>>8) = 75 - 76 -> 0
    assert_eq!(out[0], 0);
}

fn webm_with(tcs: &[u64]) -> WebM {
    WebM {
        width: 640,
        height: 360,
        frame_interval_ms: None,
        frames: tcs.iter().map(|t| Frame { timecode_ms: *t, video: vec![0], alpha: None }).collect(),
    }
}

#[test]
fn clip_playback_position() {
    let mut c = ClipDecoder::new(Rc::new(webm_with(&[0, 40, 80]))).unwrap();
    assert_eq!(c.frame_count(), 3);
    assert_eq!(c.duration_ms(), 80 + 42);
    assert_eq!(c.current_time_ms(), 0);
    assert_eq!(c.next_frame_index(), Some(0));
    assert_eq!(c.next_frame_index(), Some(1));
    assert_eq!(c.current_time_ms(), 40);
    assert_eq!(c.next_frame_index(), Some(2));
    assert_eq!(c.next_frame_index(), None);
    assert_eq!(c.current_time_ms(), 80);
    c.seek(0);
    assert_eq!(c.cur, 0);
}

#[test]
fn animation_names_are_unique_and_sorted() {
    let stems: Vec<String> = ["b", "a", "", "b", "A", "待机"].iter().map(|s| s.to_string()).collect();
    assert_eq!(scan_webm_names(&stems), vec!["A", "a", "b", "待机"]);
    assert!(scan_webm_names(&Vec::new()).is_empty());
}

#[test]
fn wide_strings_for_the_registry() {
    assert_eq!(wide("a\u{1F600}"), vec![0x61, 0xD83D, 0xDE00, 0]);
    let mut v: Vec<u16> = "deskpet".encode_utf16().collect();
    v.push(0);
    assert_eq!(value_name(), v);
    assert_eq!(run_key_path().last(), Some(&0));
    assert_eq!(run_key_path().len(), "Software\\Microsoft\\Windows\\CurrentVersion\\Run".len() + 1);
}

#[test]
fn assets_root_follows_documented_order() {
    assert_eq!(choose_assets_root(Some("D:/pets"), Some("E:/x"), true, true, true), AssetsRoot::Configured);
    assert_eq!(choose_assets_root(Some("  "), Some("E:/x"), true, true, true), AssetsRoot::Env);
    assert_eq!(choose_assets_root(None, Some(""), true, true, true), AssetsRoot::ConfigDir);
    assert_eq!(choose_assets_root(None, None, false, true, true), AssetsRoot::ExeDir);
    assert_eq!(choose_assets_root(None, None, false, false, true), AssetsRoot::WorkDir);
    assert_eq!(choose_assets_root(None, None, false, false, false), AssetsRoot::ConfigDirCreated);
}

#[test]
fn character_dir_choice() {
    match choose_character_dir(Some(" pet_1 "), true, &vec![true], true) {
        CharacterDir::Named(n) => assert_eq!(n, "pet_1"),
        other => panic!("unexpected {:?}", other),
    }
    assert!(matches!(choose_character_dir(Some("pet_1"), false, &vec![true], true), CharacterDir::Missing));
    assert!(matches!(choose_character_dir(Some(" "), false, &vec![false, true, true], true), CharacterDir::Subdir(1)));
    assert!(matches!(choose_character_dir(None, false, &vec![false], true), CharacterDir::Root));
    assert!(matches!(choose_character_dir(None, false, &vec![], false), CharacterDir::Missing));
}

#[test]
fn autostart_entries() {
    let cmd = run_command("C:\\Apps\\deskpet.exe");
    let want: Vec<u16> = "\"C:\\Apps\\deskpet.exe\"".encode_utf16().chain(std::iter::once(0)).collect();
    assert_eq!(cmd, want);
    let exe = "/Applications/DeskPet.app/Contents/MacOS/deskpet";
    let expected = format!(
        "<?xml version=\"1.0\" encoding=\"UTF-8\"?>\n\
         <!DOCTYPE plist PUBLIC \"-//Apple//DTD PLIST 1.0//EN\" \"http://www.apple.com/DTDs/PropertyList-1.0.dtd\">\n\
         <plist version=\"1.0\">\n\
         <dict>\n\
           <key>Label</key><string>com.kiry.deskpet</string>\n\
           <key>ProgramArguments</key>\n\
           <array><string>{}</string></array>\n\
           <key>RunAtLoad</key><true/>\n\
         </dict>\n\
         </plist>\n",
        exe
    );
    assert_eq!(launch_agent_plist(exe), expected);
    assert_eq!(PLIST_RELATIVE_PATH, "Library/LaunchAgents/com.kiry.deskpet.plist");
}

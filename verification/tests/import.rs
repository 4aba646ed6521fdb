use std::io::{Cursor, Write};

use deskpet::db::ActionRow;

use deskpet::import::{
    build_from_manifest, check_video_import, converted_action, collect_webm_entries, entry_name, resolve_idle_from, scan_archive,
    new_pet_id, plan_registration, ImportError, PetManifest, PetMeta, RawAction, RawState, SkipReason, VideoImportError,
};

fn s(x: &str) -> String {
    x.to_string()
}

fn text(v: &[char]) -> String {
    v.iter().collect()
}

#[test]
fn manifest_parses_and_builds_actions() {
    let m: PetManifest<f64> = PetManifest {
        pet: Some(PetMeta { name: Some(s("蓝发女仆")) }),
        idle: Some(s("待机呼吸休闲")),
        actions: vec![
            RawAction {
                file: s("待机呼吸休闲"),
                display_name: Some(s("待机呼吸休闲")),
                owner: Some(s("state")),
                states: vec![RawState { state: s("idle"), weight: Some(0.6), enabled: None }],
            },
            RawAction {
                file: s("开心蹦跳"),
                display_name: None,
                owner: Some(s("state")),
                states: vec![RawState { state: s("active"), weight: Some(0.8), enabled: None }],
            },
            RawAction { file: s("挥手打招呼"), display_name: None, owner: Some(s("click")), states: vec![] },
        ],
    };
    assert_eq!(m.pet.as_ref().and_then(|p| p.name.as_deref()), Some("蓝发女仆"));
    assert_eq!(m.idle.as_deref(), Some("待机呼吸休闲"));

    let valid = vec![s("待机呼吸休闲"), s("开心蹦跳"), s("挥手打招呼"), s("未声明")];
    let (actions, states, idle) = build_from_manifest(&m, &valid, 1.0);

    assert_eq!(idle.as_deref(), Some("待机呼吸休闲"));
    let click = actions.iter().find(|a| a.action == "挥手打招呼").unwrap();
    assert_eq!(click.owner_kind, "interactive");
    assert_eq!(click.kind.as_deref(), Some("click"));
    let state_row = actions.iter().find(|a| a.action == "开心蹦跳").unwrap();
    assert_eq!(state_row.owner_kind, "state");
    assert!(states.iter().any(|(a, s, w, _)| a == "开心蹦跳" && s == "active" && *w == 0.8));
    assert!(states.iter().any(|(a, s, _, _)| a == "未声明" && s == "idle"));
    assert!(states.iter().any(|(a, s, _, _)| a == "待机呼吸休闲" && s == "idle"));
}

#[test]
fn manifest_defaults() {
    let m: PetManifest<f64> = PetManifest { pet: None, idle: Some(s("missing")), actions: vec![] };
    let valid = vec![s("a"), s("b")];
    let (actions, states, idle) = build_from_manifest(&m, &valid, 1.0);
    assert_eq!(idle.as_deref(), Some("a"));
    assert_eq!(actions.len(), 2);
    assert_eq!(actions[1].display_name, "b");
    assert_eq!(states, vec![(s("a"), s("idle"), 1.0, true), (s("b"), s("idle"), 1.0, true)]);
}

#[test]
fn idle_fallback_order() {
    let rows = vec![
        ActionRow { action: s("w"), display_name: s("w"), owner_kind: s("interactive"), kind: Some(s("click")), enabled: true },
        ActionRow { action: s("j"), display_name: s("j"), owner_kind: s("state"), kind: None, enabled: true },
    ];
    let st: Vec<(String, String, f64, bool)> = vec![(s("x"), s("active"), 1.0, true), (s("y"), s("idle"), 1.0, true)];
    assert_eq!(resolve_idle_from(&rows, &st, &vec![s("v")]), Some(s("y")));
    assert_eq!(resolve_idle_from::<f64>(&rows, &vec![], &vec![s("v")]), Some(s("j")));
    assert_eq!(resolve_idle_from::<f64>(&vec![], &vec![], &vec![s("v")]), Some(s("v")));
    assert_eq!(resolve_idle_from::<f64>(&vec![], &vec![], &vec![]), None);
}

#[test]
fn entry_names_are_normalised() {
    assert_eq!(text(&entry_name(b"./pets\\a.webm", "ignored")), "pets/a.webm");
    assert_eq!(text(&entry_name(&[0xFF, 0x41], "fallback")), "fallback");
}

fn webm_bytes(tc: u8) -> Vec<u8> {
    let block = [0xA3u8, 0x85, 0x81, 0x00, tc, 0x80, 0x07];
    let mut cluster = vec![0x1F, 0x43, 0xB6, 0x75, 0x80 | block.len() as u8];
    cluster.extend_from_slice(&block);
    let mut seg = vec![0x18, 0x53, 0x80, 0x67, 0x80 | cluster.len() as u8];
    seg.extend(cluster);
    seg
}

fn zip_of(files: &[(&str, Vec<u8>)]) -> Vec<u8> {
    let mut w = zip::ZipWriter::new(Cursor::new(Vec::new()));
    for (name, data) in files {
        w.start_file(*name, zip::write::SimpleFileOptions::default().compression_method(zip::CompressionMethod::Stored))
            .unwrap();
        w.write_all(data).unwrap();
    }
    w.finish().unwrap().into_inner()
}

#[test]
fn archive_scan_keeps_first_valid_animations() {
    let bytes = zip_of(&[
        ("pet/Idle.WEBM", webm_bytes(0)),
        ("other/idle.webm", webm_bytes(1)),
        ("broken.webm", vec![1, 2, 3]),
        ("manifest.yaml", b"idle: Idle".to_vec()),
        ("notes.txt", vec![]),
    ]);
    let mut a = zip::ZipArchive::new(Cursor::new(bytes.clone())).unwrap();
    let entries = collect_webm_entries(&mut a).unwrap();
    let listed: Vec<(usize, String)> = entries.iter().map(|(i, n)| (*i, text(n))).collect();
    assert_eq!(listed, vec![(0, s("Idle")), (1, s("idle")), (2, s("broken"))]);

    let sc = match scan_archive(&bytes) {
        Ok(sc) => sc,
        Err(_) => panic!("scan"),
    };
    let kept: Vec<String> = sc.kept.iter().map(|(_, n)| text(n)).collect();
    assert_eq!(kept, vec![s("Idle"), s("idle")]);
    assert_eq!(sc.skipped.len(), 1);
    assert!(matches!(sc.skipped[0].1, SkipReason::NotWebm));
    assert_eq!(sc.manifest.as_deref(), Some(&b"idle: Idle"[..]));
}

#[test]
fn archive_scan_errors() {
    assert!(matches!(scan_archive(&[1, 2, 3]), Err(ImportError::BadArchive(_))));
    let none = zip_of(&[("a.txt", vec![1])]);
    assert!(matches!(scan_archive(&none), Err(ImportError::NoWebm)));
    let bad = zip_of(&[("a.webm", vec![1]), ("b/a.webm", webm_bytes(3))]);
    assert!(matches!(scan_archive(&bad), Err(ImportError::AllInvalid(2))));
}

#[test]
fn video_import_checks() {
    let v = vec![(s("f1"), s("a1")), (s("f2"), s("a2"))];
    assert_eq!(check_video_import("pet", "f2", &v), Ok(1));
    assert_eq!(check_video_import("pet", "a1", &v), Ok(0));
    assert_eq!(check_video_import("pet", "zz", &v), Err(VideoImportError::UnknownIdle));
    assert_eq!(check_video_import(" ", "f1", &v), Err(VideoImportError::Missing));
    assert_eq!(check_video_import("pet", "f1", &vec![]), Err(VideoImportError::Missing));
}

#[test]
fn new_pet_ids_carry_the_time() {
    assert_eq!(new_pet_id(1700000000123), "pet_1700000000123");
    assert_eq!(new_pet_id(0), "pet_0");
    assert!(deskpet::control::is_safe_component(&new_pet_id(42)));
}

#[test]
fn registration_defaults_without_manifest_actions() {
    let videos = vec![s("walk"), s("sleep")];
    let p = plan_registration::<f64>("pet_1", &videos, Some(""), None, &vec![], &vec![], 1.0);
    assert_eq!(p.display_name, "pet_1");
    assert_eq!(p.actions.len(), 2);
    assert_eq!((p.actions[1].action.as_str(), p.actions[1].owner_kind.as_str()), ("sleep", "state"));
    assert!(p.actions[1].enabled);
    assert_eq!(p.action_states, vec![(s("walk"), s("idle"), 1.0, true), (s("sleep"), s("idle"), 1.0, true)]);
    assert_eq!(p.idle.as_deref(), Some("walk"));
    assert_eq!(p.baseline, "walk");
    let none = plan_registration::<f64>("pet_2", &vec![], None, None, &vec![], &vec![], 1.0);
    assert_eq!(none.idle, None);
    assert_eq!(none.baseline, "");
}

#[test]
fn registration_keeps_manifest_choices() {
    let videos = vec![s("wave"), s("nap")];
    let rows = vec![ActionRow {
        action: s("wave"),
        display_name: s("Wave"),
        owner_kind: s("interactive"),
        kind: Some(s("click")),
        enabled: true,
    }];
    let binds = vec![(s("nap"), s("night"), 2.0, true)];
    let p = plan_registration("pet_3", &videos, Some("Maid"), Some("nap"), &rows, &binds, 1.0);
    assert_eq!(p.display_name, "Maid");
    assert_eq!(p.actions.len(), 1);
    assert_eq!(p.actions[0].display_name, "Wave");
    assert_eq!(p.action_states, binds);
    assert_eq!(p.idle.as_deref(), Some("nap"));
    assert_eq!(p.baseline, "nap");
}

#[test]
fn plain_import_puts_every_animation_in_the_idle_pool() {
    let videos = vec![s("walk"), s("sleep"), s("wave")];
    let p = plan_registration::<f64>("pet_9", &videos, None, None, &vec![], &vec![], 1.0);
    let pools = deskpet::pet::build_pools(&videos, &p.actions, &p.action_states, 1.0);
    let idle = pools.pool("idle");
    let got: Vec<(String, f64)> = idle.iter().map(|(n, w)| (n.clone(), *w)).collect();
    assert_eq!(got, vec![(s("walk"), 1.0), (s("sleep"), 1.0), (s("wave"), 1.0)]);
    assert_eq!(pools.idle.as_deref(), Some("walk"));
    assert!(pools.clicks.is_empty() && pools.drag.is_none());
}

fn find(hay: &[u8], needle: &[u8]) -> usize {
    hay.windows(needle.len()).position(|w| w == needle).expect("pattern")
}

#[test]
fn archive_scan_reports_duplicates_and_unreadable_entries() {
    let mut bytes = zip_of(&[
        ("a/x.webm", webm_bytes(0)),
        ("b/x.webm", webm_bytes(1)),
        ("bad.webm", webm_bytes(2)),
    ]);
    // Damage the stored data of the third entry so that its checksum no longer matches.
    let third = webm_bytes(2);
    let at = find(&bytes, b"bad.webm") + "bad.webm".len();
    let data_at = at + find(&bytes[at..], &third[..4]);
    bytes[data_at + third.len() - 1] ^= 0xFF;
    let sc = match scan_archive(&bytes) {
        Ok(sc) => sc,
        Err(_) => panic!("scan"),
    };
    let kept: Vec<String> = sc.kept.iter().map(|(_, n)| text(n)).collect();
    assert_eq!(kept, vec![s("x")]);
    assert_eq!(sc.skipped.len(), 2);
    assert_eq!(text(&sc.skipped[0].0), "x");
    assert!(matches!(sc.skipped[0].1, SkipReason::Duplicate));
    assert_eq!(text(&sc.skipped[1].0), "bad");
    assert!(matches!(sc.skipped[1].1, SkipReason::ReadFailed(_)));
}

#[test]
fn archive_scan_refuses_entries_it_cannot_open() {
    let mut bytes = zip_of(&[("a.webm", webm_bytes(0))]);
    // Mark the entry as encrypted in the central directory: it then needs a password.
    let cd = find(&bytes, &[0x50, 0x4B, 0x01, 0x02]);
    bytes[cd + 8] |= 1;
    assert!(matches!(scan_archive(&bytes), Err(ImportError::BadEntry(_))));
}

#[test]
fn converted_videos_become_actions() {
    let (row, states) = converted_action("wave", "click", 1.0f64);
    assert_eq!((row.action.as_str(), row.display_name.as_str(), row.owner_kind.as_str()), ("wave", "wave", "interactive"));
    assert_eq!(row.kind.as_deref(), Some("click"));
    assert!(row.enabled && states.is_empty());
    let (row, states) = converted_action("nap", "state", 1.0f64);
    assert_eq!((row.owner_kind.as_str(), row.kind.is_none()), ("state", true));
    assert_eq!(states, vec![("idle".to_string(), 1.0, true)]);
    let (row, _) = converted_action("hop", "jump", 1.0f64);
    assert_eq!(row.owner_kind, "state");
}

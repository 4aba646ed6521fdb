use deskpet::config::{
    bool_setting_text, character_setting, character_setting_text, configured_db_path, parse_bool_setting, SystemConfig,
};
use deskpet::text::decimal;
use deskpet::log::{enabled, log_line, needs_rotation, parse_level, set_level_str, timestamp, Level, LEVEL_OFF, MAX_LOG_BYTES};
use deskpet::menu::MenuEntry;
use deskpet::state::{init_random, next_rand, now_minutes, FRAME_MS};
use deskpet::tray::{Tray, TRAY_AUTOSTART, TRAY_QUIT, TRAY_TOGGLE_VISIBLE};

#[test]
fn log_levels_filter() {
    assert_eq!(Level::Warn.as_str(), "WARN");
    assert!(enabled(Level::Error, 2));
    assert!(!enabled(Level::Debug, 2));
    assert!(enabled(Level::Error, 0));
    assert!(!enabled(Level::Error, LEVEL_OFF));
    assert_eq!(parse_level(" Debug "), Some(3));
    assert_eq!(parse_level("OFF"), Some(LEVEL_OFF));
    assert_eq!(parse_level("verbose"), None);
    let mut cur = 2u8;
    assert!(set_level_str("error", &mut cur));
    assert_eq!(cur, 0);
    assert!(!set_level_str("loud", &mut cur));
    assert_eq!(cur, 0);
    assert_eq!(timestamp(3600 * 25 + 61, 7), "01:01:01.007");
}

#[test]
fn random_sequence_and_clock() {
    let mut seed = 1u64;
    let a = next_rand(&mut seed);
    assert_eq!(a, seed);
    let mut x = 1u64;
    x ^= x << 13;
    x ^= x >> 7;
    x ^= x << 17;
    assert_eq!(a, x);
    assert_ne!(next_rand(&mut seed), 0);
    assert_eq!(init_random(0), 0x9E3779B97F4A7C15);
    assert_eq!(now_minutes(86400 + 3600 + 120, 0), 62);
    assert_eq!(now_minutes(-60, 0), 1439);
    assert_eq!(now_minutes(3600 + 120, 8 * 3600), 9 * 60 + 2);
    assert_eq!(now_minutes(60, -3600), 23 * 60 + 1);
    assert_eq!(FRAME_MS, 40);
}

#[test]
fn menu_entries() {
    let e = MenuEntry::check(5, "x", true);
    assert!(e.checked && !e.is_separator());
    assert!(MenuEntry::separator().is_separator());
    let sub = MenuEntry::submenu("s", vec![MenuEntry::item(1, "a")]);
    assert!(!sub.is_separator());
    assert_eq!(sub.children.as_ref().map(|c| c.len()), Some(1));
}

#[test]
fn tray_starts_without_icon() {
    assert!(!Tray::new().added);
    assert_eq!((TRAY_TOGGLE_VISIBLE, TRAY_AUTOSTART, TRAY_QUIT), (1001, 1002, 1003));
}

#[test]
fn settings_reading() {
    let d = SystemConfig::default();
    assert!(d.database_path.is_none() && d.log_level.is_none());
    assert_eq!(configured_db_path(Some("  data/pet.db ")), Some("data/pet.db".to_string()));
    assert_eq!(configured_db_path(Some("   ")), None);
    assert_eq!(configured_db_path(None), None);
    assert_eq!(parse_bool_setting("true"), Some(true));
    assert_eq!(parse_bool_setting("True"), None);
    assert_eq!(character_setting(" \"pet_1\" "), Some("pet_1".to_string()));
    assert_eq!(character_setting("null"), None);
    assert_eq!(character_setting("\"\""), None);
}

#[test]
fn stored_settings_read_back() {
    assert_eq!(bool_setting_text(true), "true");
    assert_eq!(parse_bool_setting(bool_setting_text(false)), Some(false));
    assert_eq!(parse_bool_setting(bool_setting_text(true)), Some(true));
    let stored = character_setting_text(Some("pet_1700000000000"));
    assert_eq!(stored, "\"pet_1700000000000\"");
    assert_eq!(character_setting(&stored), Some("pet_1700000000000".to_string()));
    assert_eq!(character_setting_text(None), "null");
    assert_eq!(character_setting(&character_setting_text(None)), None);
}

#[test]
fn decimal_text() {
    assert_eq!(decimal(0), "0");
    assert_eq!(decimal(7), "7");
    assert_eq!(decimal(10), "10");
    assert_eq!(decimal(18446744073709551615), "18446744073709551615");
}

#[test]
fn log_lines_and_rotation() {
    assert_eq!(log_line(3600 * 13 + 60 * 5 + 9, 250, Level::Warn, "hello"), "[13:05:09.250] [WARN ] hello\n");
    assert_eq!(log_line(86399, 999, Level::Debug, ""), "[23:59:59.999] [DEBUG] \n");
    assert!(!needs_rotation(MAX_LOG_BYTES));
    assert!(needs_rotation(MAX_LOG_BYTES + 1));
    assert_eq!(MAX_LOG_BYTES, 1024 * 1024);
}

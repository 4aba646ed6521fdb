use deskpet::control::{
    actions_from_items, console_url, content_type_for, hex_val, host_is_loopback, parse_query, percent_decode, route, video_import_params,
    webm_target, ActionItem, Method, RequestError, Route, StateItem,
};

fn get(q: &Vec<(String, String)>, k: &str) -> Option<String> {
    q.iter().find(|(a, _)| a == k).map(|(_, v)| v.clone())
}

#[test]
fn hex_digits() {
    assert_eq!(hex_val(Some(b'7')), Some(7));
    assert_eq!(hex_val(Some(b'b')), Some(11));
    assert_eq!(hex_val(Some(b'F')), Some(15));
    assert_eq!(hex_val(Some(b'g')), None);
    assert_eq!(hex_val(None), None);
}

#[test]
fn percent_decoding() {
    assert_eq!(percent_decode("a%20b"), "a b");
    assert_eq!(percent_decode("%E5%BE%85%E6%9C%BA"), "待机");
    assert_eq!(percent_decode("100%"), "100%");
    assert_eq!(percent_decode("%zz%4"), "%zz%4");
    assert_eq!(percent_decode("%ff"), "\u{FFFD}");
    assert_eq!(percent_decode("plain"), "plain");
}

#[test]
fn query_parsing_keeps_last_value() {
    let q = parse_query("a=1&b=x%20y&&c&a=2");
    assert_eq!(q.len(), 3);
    assert_eq!(get(&q, "a").as_deref(), Some("2"));
    assert_eq!(get(&q, "b").as_deref(), Some("x y"));
    assert_eq!(get(&q, "c").as_deref(), Some(""));
    assert!(parse_query("").is_empty());
}

#[test]
fn routing_of_api_and_agent_paths() {
    assert!(matches!(route(true, Method::Get, "/api/state"), Route::State));
    assert!(matches!(route(true, Method::Get, "//api//state/"), Route::State));
    assert!(matches!(route(true, Method::Patch, "/api/config"), Route::PatchConfig));
    assert!(matches!(route(true, Method::Post, "/api/pet/say"), Route::Say));
    assert!(matches!(route(true, Method::Post, "/agent/move"), Route::Move));
    assert!(matches!(route(true, Method::Post, "/agent/set_state"), Route::NotFound));
    assert!(matches!(route(true, Method::Get, "/index.html?x=1"), Route::Console { path } if path == "/index.html"));
    assert!(matches!(route(false, Method::Get, "/api/state"), Route::Forbidden));
    match route(true, Method::Get, "/api/pets/p1/webm/%E5%BE%85") {
        Route::Webm { id, action } => {
            assert_eq!(id, "p1");
            assert_eq!(action, "%E5%BE%85");
        }
        _ => panic!("webm route"),
    }
    match route(true, Method::Delete, "/api/pets/p2?delete_files=true") {
        Route::DeletePet { id, delete_files } => {
            assert_eq!(id, "p2");
            assert!(delete_files);
        }
        _ => panic!("delete route"),
    }
    match route(true, Method::Delete, "/api/pets/p2?delete_files=yes") {
        Route::DeletePet { delete_files, .. } => assert!(!delete_files),
        _ => panic!("delete route"),
    }
    assert!(matches!(route(true, Method::Post, "/api/pets/p3/import/video?action=a"), Route::ImportVideo { id } if id == "p3"));
    assert!(matches!(route(true, Method::Put, "/api/unknown"), Route::NotFound));
}

#[test]
fn content_types_by_extension() {
    assert_eq!(content_type_for("/"), "text/html; charset=utf-8");
    assert_eq!(content_type_for("/assets/app.JS"), "application/octet-stream");
    assert_eq!(content_type_for("/assets/app.mjs"), "text/javascript; charset=utf-8");
    assert_eq!(content_type_for("/a.b/c.woff2"), "font/woff2");
    assert_eq!(content_type_for("/map"), "application/octet-stream");
    assert_eq!(content_type_for("/x.map"), "application/json");
}

#[test]
fn loopback_host_check() {
    let h = |f: &str, v: &str| vec![(f.to_string(), v.to_string())];
    assert!(host_is_loopback(&h("Host", "127.0.0.1:18686")));
    assert!(host_is_loopback(&h("HOST", "LocalHost")));
    assert!(host_is_loopback(&h("host", "[::1]:80")));
    assert!(!host_is_loopback(&h("host", "evil.example")));
    assert!(!host_is_loopback(&h("Origin", "127.0.0.1")));
    assert!(!host_is_loopback(&Vec::new()));
}

#[test]
fn rebinding_host_names_are_refused() {
    let h = |f: &str, v: &str| vec![(f.to_string(), v.to_string())];
    assert!(!host_is_loopback(&h("Host", "localhost.evil.example")));
    assert!(!host_is_loopback(&h("Host", "127.0.0.1.nip.io")));
    assert!(!host_is_loopback(&h("Host", "localhost:")));
    assert!(!host_is_loopback(&h("Host", "localhost:80x")));
    assert!(host_is_loopback(&h("Host", "127.0.0.1")));
    assert!(host_is_loopback(&h("Host", "LOCALHOST:18686")));
    assert!(matches!(route(host_is_loopback(&h("Host", "localhost.evil.example")), Method::Get, "/api/state"), Route::Forbidden));
}

#[test]
fn webm_request_checks() {
    assert_eq!(webm_target("p1", "%E5%BE%85").ok().as_deref(), Some("待"));
    assert_eq!(webm_target("../p1", "a").err(), Some(RequestError::InvalidPetId));
    assert_eq!(webm_target("p1", "a%2Fb").err(), Some(RequestError::InvalidAction));
    assert_eq!(webm_target("p1", "").err(), Some(RequestError::InvalidAction));
}

#[test]
fn video_import_request_checks() {
    let ok = video_import_params("p1", "action=%20wave%20&owner=drag", 10).unwrap();
    assert_eq!((ok.0.as_str(), ok.1.as_str()), ("wave", "drag"));
    let ok = video_import_params("p1", "action=wave&owner=other", 10).unwrap();
    assert_eq!(ok.1, "state");
    assert_eq!(video_import_params("a\\b", "action=wave", 10).err(), Some(RequestError::InvalidPetId));
    assert_eq!(video_import_params("p1", "owner=click", 10).err(), Some(RequestError::InvalidAction));
    assert_eq!(video_import_params("p1", "action=..", 10).err(), Some(RequestError::InvalidAction));
    assert_eq!(video_import_params("p1", "action=wave", 0).err(), Some(RequestError::EmptyBody));
}

#[test]
fn console_action_settings_get_defaults() {
    let items: Vec<ActionItem<f64>> = vec![
        ActionItem {
            action: Some("wave".to_string()),
            display_name: None,
            owner_kind: Some("interactive".to_string()),
            kind: Some("click".to_string()),
            enabled: None,
            states: None,
        },
        ActionItem { action: None, display_name: Some("x".to_string()), owner_kind: None, kind: None, enabled: None, states: None },
        ActionItem {
            action: Some("nap".to_string()),
            display_name: Some("Nap".to_string()),
            owner_kind: None,
            kind: None,
            enabled: Some(false),
            states: Some(vec![
                StateItem { state_id: Some("night".to_string()), weight: Some(2.5), enabled: None },
                StateItem { state_id: None, weight: Some(9.0), enabled: Some(true) },
                StateItem { state_id: Some("idle".to_string()), weight: None, enabled: Some(false) },
            ]),
        },
    ];
    let (rows, binds) = actions_from_items(&items, 1.0);
    assert_eq!(rows.len(), 2);
    assert_eq!(rows[0].action, "wave");
    assert_eq!(rows[0].display_name, "wave");
    assert_eq!(rows[0].owner_kind, "interactive");
    assert_eq!(rows[0].kind.as_deref(), Some("click"));
    assert!(rows[0].enabled);
    assert_eq!(rows[1].display_name, "Nap");
    assert_eq!(rows[1].owner_kind, "state");
    assert_eq!(rows[1].kind, None);
    assert!(!rows[1].enabled);
    assert_eq!(
        binds,
        vec![
            ("nap".to_string(), "night".to_string(), 2.5, true),
            ("nap".to_string(), "idle".to_string(), 1.0, false),
        ]
    );
}

#[test]
fn console_address() {
    assert_eq!(console_url(18686), "http://127.0.0.1:18686");
    assert_eq!(console_url(0), "http://127.0.0.1:0");
}

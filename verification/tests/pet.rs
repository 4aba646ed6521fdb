use deskpet::db::ActionRow;
use deskpet::pet::{
    anim_end, build_pools, click_response, corner_position, frame_tick, keep_inside, list_pet_actions, pet_menu_items, menu_action, resolve_action, say_duration_ms, AnimEnd,
    ClickResponse, PetMenuAction, StatePools, MID_CORNER, MID_NOMOVE, MID_ONTOP, MID_SCALE_BASE,
};

fn s(x: &str) -> String {
    x.to_string()
}

fn row(action: &str, owner: &str, kind: Option<&str>, enabled: bool) -> ActionRow {
    ActionRow { action: s(action), display_name: s(action), owner_kind: s(owner), kind: kind.map(s), enabled }
}

fn pool_names(p: &StatePools<f64>, state: &str) -> Vec<(String, f64)> {
    p.pool(state)
}

#[test]
fn pools_follow_configuration() {
    let names = vec![s("idle1"), s("jump"), s("wave"), s("drag1"), s("drag2"), s("off"), s("new")];
    let actions = vec![
        row("wave", "interactive", Some("click"), true),
        row("drag1", "interactive", Some("drag"), true),
        row("drag2", "interactive", Some("drag"), true),
        row("off", "state", None, false),
        row("jump", "state", None, true),
    ];
    let states = vec![
        (s("idle1"), s("idle"), 0.6, true),
        (s("jump"), s("active"), 0.8, true),
        (s("jump"), s("lunch"), 0.5, false),
    ];
    let p = build_pools(&names, &actions, &states, 1.0);
    assert_eq!(pool_names(&p, "idle"), vec![(s("idle1"), 0.6), (s("new"), 1.0)]);
    assert_eq!(pool_names(&p, "active"), vec![(s("jump"), 0.8)]);
    assert!(pool_names(&p, "lunch").is_empty());
    assert_eq!(p.clicks, vec![s("wave"), s("drag2")]);
    assert_eq!(p.drag, Some(s("drag1")));
    assert_eq!(p.idle, Some(s("idle1")));
}

#[test]
fn idle_pool_is_ensured() {
    let mut p: StatePools<f64> = StatePools { pools: vec![], clicks: vec![], drag: None, idle: Some(s("rest")) };
    p.ensure_idle_pool(1.0);
    assert_eq!(p.pool("idle"), vec![(s("rest"), 1.0)]);
    p.ensure_idle_pool(2.0);
    assert_eq!(p.pools.len(), 1);
}

#[test]
fn action_names_resolve() {
    let names = vec![s("待机呼吸"), s("开心蹦跳"), s("wave_hi")];
    let p: StatePools<f64> = StatePools { pools: vec![], clicks: vec![s("wave_hi")], drag: None, idle: Some(s("待机呼吸")) };
    assert_eq!(resolve_action(&names, &p, " 开心蹦跳 "), Some(s("开心蹦跳")));
    assert_eq!(resolve_action(&names, &p, "IDLE"), Some(s("待机呼吸")));
    assert_eq!(resolve_action(&names, &p, "clicks"), Some(s("wave_hi")));
    assert_eq!(resolve_action(&names, &p, "drag"), None);
    assert_eq!(resolve_action(&names, &p, "蹦"), Some(s("开心蹦跳")));
    assert_eq!(resolve_action(&names, &p, "wave_hi_there"), Some(s("wave_hi")));
    assert_eq!(resolve_action(&names, &p, "   "), None);
    assert_eq!(resolve_action(&names, &p, "zzz"), None);
}

#[test]
fn menu_commands() {
    assert_eq!(menu_action(MID_CORNER, true, false, 3), PetMenuAction::GoCorner);
    assert_eq!(menu_action(MID_ONTOP, true, false, 3), PetMenuAction::SetTopmost(false));
    assert_eq!(menu_action(MID_NOMOVE, true, false, 3), PetMenuAction::SetNoMove(true));
    assert_eq!(menu_action(MID_SCALE_BASE + 2, true, false, 3), PetMenuAction::Scale(2));
    assert_eq!(menu_action(MID_SCALE_BASE + 3, true, false, 3), PetMenuAction::Nothing);
    assert_eq!(menu_action(193, true, false, 3), PetMenuAction::Nothing);
}

#[test]
fn end_of_animation() {
    let clicks = vec![s("wave")];
    let drag = Some(s("drag"));
    assert_eq!(anim_end(&s("drag"), &drag, true, &clicks), AnimEnd::LoopDrag);
    assert_eq!(anim_end(&s("drag"), &drag, false, &clicks), AnimEnd::ResumeState);
    assert_eq!(anim_end(&s("wave"), &drag, true, &clicks), AnimEnd::ResumeState);
    assert_eq!(anim_end(&s("jump"), &drag, false, &clicks), AnimEnd::StateDone);
    assert_eq!(anim_end(&s(""), &None, true, &clicks), AnimEnd::LoopDrag);
}

#[test]
fn clicks_only_from_idle() {
    let idle = Some(s("idle"));
    assert_eq!(click_response(true, &idle, &s("idle")), ClickResponse::EndOfDrag);
    assert_eq!(click_response(false, &idle, &s("jump")), ClickResponse::Ignore);
    assert_eq!(click_response(false, &idle, &s("idle")), ClickResponse::Answer);
    assert_eq!(click_response(false, &None, &s("idle")), ClickResponse::Ignore);
}

#[test]
fn bubble_and_frame_timing() {
    assert_eq!(say_duration_ms(None), 4000);
    assert_eq!(say_duration_ms(Some(100)), 500);
    assert_eq!(say_duration_ms(Some(3000)), 3000);
    assert_eq!(frame_tick(30, 10, 40), (0, true));
    assert_eq!(frame_tick(20, 10, 40), (30, false));
}

#[test]
fn corner_and_work_area_limits() {
    let work = (0, 0, 1920, 1040);
    assert_eq!(corner_position(work, 461, 281), (1920 - 461 - 24, 1040 - 281));
    assert_eq!(keep_inside(-50, 900, work, 461, 281), (0, 759));
    assert_eq!(keep_inside(100, 100, work, 461, 281), (100, 100));
    assert_eq!(keep_inside(5000, -3, (10, 20, 300, 200), 500, 100), (10, 20));
}

#[test]
fn action_listing_merges_files_and_rows() {
    let names = vec![s("a"), s("b")];
    let rows = vec![ActionRow {
        action: s("b"),
        display_name: s("Bee"),
        owner_kind: s("interactive"),
        kind: Some(s("drag")),
        enabled: false,
    }];
    let binds = vec![(s("a"), s("idle"), 2u32, true), (s("x"), s("idle"), 1, true), (s("a"), s("night"), 3, false)];
    let l = list_pet_actions(&names, &rows, &binds);
    assert_eq!(l.len(), 2);
    assert_eq!((l[0].action.as_str(), l[0].display_name.as_str(), l[0].owner_kind.as_str()), ("a", "a", "state"));
    assert_eq!(l[0].kind, None);
    assert!(l[0].enabled);
    assert_eq!(l[0].states, vec![(s("idle"), 2, true), (s("night"), 3, false)]);
    assert_eq!((l[1].display_name.as_str(), l[1].owner_kind.as_str()), ("Bee", "interactive"));
    assert_eq!(l[1].kind.as_deref(), Some("drag"));
    assert!(!l[1].enabled);
    assert!(l[1].states.is_empty());
}

#[test]
fn context_menu_lists_switches_and_sizes() {
    let items = pet_menu_items(true, false, true, &vec![(50, false), (72, true), (85, false), (100, false)]);
    assert_eq!(items.len(), 6);
    assert_eq!((items[0].id, items[0].text.as_str()), (MID_CORNER, "回到右下角"));
    assert_eq!((items[1].id, items[1].checked), (MID_ONTOP, true));
    assert_eq!((items[2].id, items[2].checked), (MID_NOMOVE, false));
    assert_eq!(items[3].text, "开机自启");
    assert!(items[3].checked);
    assert!(items[4].is_separator());
    let sizes = items[5].children.as_ref().expect("submenu");
    assert_eq!(items[5].text, "大小");
    let labels: Vec<&str> = sizes.iter().map(|e| e.text.as_str()).collect();
    assert_eq!(labels, vec!["50%", "72%", "85%", "100%"]);
    assert_eq!(sizes[1].id, MID_SCALE_BASE + 1);
    assert!(sizes[1].checked && !sizes[0].checked);
}

use deskpet::behavior::{action_candidates, parse_hhmm, EnterMode, Engine, ExitMode, IntervalMs, StateGate, TimeRule};

fn min(from: u32, to: u32) -> u32 {
    from * 60 + to
}

fn rule(start: &str, end: &str) -> TimeRule {
    TimeRule { start: start.into(), end: end.into(), enter: EnterMode::Instant, exit: ExitMode::AtEnd }
}

#[test]
fn time_rule_covers_normal_and_wrap() {
    let r = TimeRule { start: "12:30".into(), end: "14:00".into(), enter: EnterMode::Instant, exit: ExitMode::AtEnd };
    assert!(r.covers(min(12, 45)));
    assert!(!r.covers(min(11, 0)));
    let wrap = TimeRule { start: "22:00".into(), end: "06:00".into(), enter: EnterMode::Instant, exit: ExitMode::AtEnd };
    assert!(wrap.covers(min(23, 0)));
    assert!(wrap.covers(min(3, 0)));
    assert!(!wrap.covers(min(12, 0)));
}

#[test]
fn hhmm_parsing_follows_trim_split_and_parse() {
    assert_eq!(parse_hhmm("12:30"), Some(750));
    assert_eq!(parse_hhmm(" 9 : 05 "), Some(545));
    assert_eq!(parse_hhmm("+1:2"), Some(62));
    assert_eq!(parse_hhmm("1:2:3"), Some(62));
    assert_eq!(parse_hhmm("12"), None);
    assert_eq!(parse_hhmm("ab:cd"), None);
    assert_eq!(parse_hhmm("-1:00"), None);
    assert_eq!(parse_hhmm(":30"), None);
    assert_eq!(parse_hhmm("4294967296:00"), None);
}

#[test]
fn rule_window_ends_are_included() {
    let r = rule("12:30", "14:00");
    assert!(r.covers(min(12, 30)));
    assert!(r.covers(min(14, 0)));
    assert!(!r.covers(min(14, 1)));
    assert!(!rule("bad", "14:00").covers(min(13, 0)));
}

fn default_gates() -> Vec<StateGate> {
    vec![
        StateGate { enabled: true, weighted: true, time_rules: vec![] },
        StateGate { enabled: true, weighted: true, time_rules: vec![] },
        StateGate { enabled: true, weighted: false, time_rules: vec![rule("12:30", "14:00")] },
    ]
}

#[test]
fn lunch_rule_forces_its_state() {
    assert_eq!(Engine::candidates(&default_gates(), min(13, 0)), vec![2]);
}

#[test]
fn free_period_draws_among_weighted_states() {
    assert_eq!(Engine::candidates(&default_gates(), min(10, 0)), vec![0, 1]);
}

#[test]
fn zero_weight_state_only_through_rule() {
    let gates = vec![
        StateGate { enabled: false, weighted: false, time_rules: vec![] },
        StateGate { enabled: true, weighted: false, time_rules: vec![rule("12:30", "14:00")] },
    ];
    assert!(Engine::candidates(&gates, min(10, 0)).is_empty());
    assert_eq!(Engine::candidates(&gates, min(13, 0)), vec![1]);
}

#[test]
fn disabled_state_is_never_a_candidate() {
    let gates = vec![
        StateGate { enabled: false, weighted: true, time_rules: vec![rule("00:00", "23:59")] },
        StateGate { enabled: true, weighted: true, time_rules: vec![] },
    ];
    assert_eq!(Engine::candidates(&gates, min(8, 0)), vec![1]);
}

#[test]
fn next_action_avoids_the_current_one() {
    let names = vec!["a".to_string(), "b".to_string(), "c".to_string()];
    assert_eq!(action_candidates(&names, Some("b")), vec![0, 2]);
    assert_eq!(action_candidates(&names, None), vec![0, 1, 2]);
    let one = vec!["a".to_string()];
    assert_eq!(action_candidates(&one, Some("a")), vec![0]);
    assert!(action_candidates(&Vec::new(), Some("a")).is_empty());
}

#[test]
fn interval_default_is_two_seconds() {
    let d = IntervalMs::default();
    assert_eq!((d.min_ms, d.max_ms), (2000, 2000));
}

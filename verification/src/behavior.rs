//! The behaviour state machine's decisions: which time rules cover a moment,
//! which states are candidates at a given minute, and which actions may be
//! played next. The weighted random choice among the candidates works on
//! floating-point weights and stays with the caller.

use vstd::prelude::*;
use crate::text::{chars_of, find_char, find_in, parse_u32_in, parse_u32_spec, trim_bounds, trim_seq};

verus! {

/// How a time rule is entered.
#[derive(Clone, Copy, Debug, PartialEq, Eq, Structural)]
pub enum EnterMode {
    /// Enter as soon as the window starts (default).
    Instant,
    /// Wait for the next window boundary.
    NextWindow,
}

/// How a time rule is left.
#[derive(Clone, Copy, Debug, PartialEq, Eq, Structural)]
pub enum ExitMode {
    /// Leave as soon as the window ends (default).
    AtEnd,
    /// Wait for the next window boundary.
    NextWindow,
}

/// How a time rule enters its state when the setting leaves it out.
pub fn def_enter() -> (r: EnterMode)
    ensures
        r == EnterMode::Instant,
{
    EnterMode::Instant
}

/// How a time rule leaves its state when the setting leaves it out.
pub fn def_exit() -> (r: ExitMode)
    ensures
        r == ExitMode::AtEnd,
{
    ExitMode::AtEnd
}

/// A state is enabled when the setting leaves it out.
pub fn def_true() -> (r: bool)
    ensures
        r,
{
    true
}

/// A fixed daily window `start ~ end` ("HH:MM"); while it covers the current
/// minute its state is forced.
#[derive(Clone, Debug)]
pub struct TimeRule {
    pub start: String,
    pub end: String,
    pub enter: EnterMode,
    pub exit: ExitMode,
}

/// Minutes since midnight written by "HH:MM": the text is trimmed, split at
/// `:`, and the first two fields are trimmed and read as `u32`; further fields
/// are ignored. The sum `h * 60 + m` wraps at 32 bits.
pub open spec fn spec_parse_hhmm(s: Seq<char>) -> Option<u32> {
    let t = trim_seq(s);
    let k = find_char(t, ':', 0);
    if k >= t.len() {
        None
    } else {
        let k2 = find_char(t, ':', k + 1);
        match (
            parse_u32_spec(trim_seq(t.subrange(0, k))),
            parse_u32_spec(trim_seq(t.subrange(k + 1, k2))),
        ) {
            (Some(h), Some(m)) => Some(
                vstd::wrapping::u32_specs::wrapping_add(vstd::wrapping::u32_specs::wrapping_mul(h, 60), m),
            ),
            _ => None,
        }
    }
}

/// Whether minute `now` lies in the window from `s` to `e`, both ends
/// included; a window with `s > e` runs past midnight.
pub open spec fn window_covers(s: u32, e: u32, now: u32) -> bool {
    if s <= e {
        s <= now <= e
    } else {
        now >= s || now <= e
    }
}

pub open spec fn rule_covers(r: TimeRule, now: u32) -> bool {
    match (spec_parse_hhmm(r.start@), spec_parse_hhmm(r.end@)) {
        (Some(s), Some(e)) => window_covers(s, e, now),
        _ => false,
    }
}

/// Parses "HH:MM" into minutes since midnight (see [`spec_parse_hhmm`]).
pub fn parse_hhmm(s: &str) -> (r: Option<u32>)
    ensures
        r == spec_parse_hhmm(s@),
{
    let v = chars_of(s);
    let (lo, hi) = trim_bounds(&v, 0, v.len());
    let ghost t = v@.subrange(lo as int, hi as int);
    proof {
        assert(v@.subrange(0, v@.len() as int) =~= v@);
    }
    let k = find_in(&v, ':', lo, hi);
    if k >= hi {
        return None;
    }
    let k2 = find_in(&v, ':', k + 1, hi);
    proof {
        assert(t.subrange(0, k - lo) =~= v@.subrange(lo as int, k as int));
        assert(t.subrange(k + 1 - lo, k2 - lo) =~= v@.subrange(k + 1, k2 as int));
        lemma_find_from(v@, ':', lo as int, hi as int, (k + 1 - lo) as int);
    }
    let (a0, a1) = trim_bounds(&v, lo, k);
    let h = match parse_u32_in(&v, a0, a1) {
        Some(h) => h,
        None => return None,
    };
    let (b0, b1) = trim_bounds(&v, k + 1, k2);
    let m = match parse_u32_in(&v, b0, b1) {
        Some(m) => m,
        None => return None,
    };
    Some(h.wrapping_mul(60).wrapping_add(m))
}

/// Searching `s[from..to]` from position `i` finds what searching
/// `s[from + i..to]` from its start finds, shifted by `i`.
proof fn lemma_find_from(s: Seq<char>, c: char, from: int, to: int, i: int)
    requires
        0 <= from <= to <= s.len(),
        0 <= i <= to - from,
    ensures
        find_char(s.subrange(from, to), c, i) == i + find_char(s.subrange(from + i, to), c, 0),
    decreases to - from - i,
{
    let t = s.subrange(from, to);
    let u = s.subrange(from + i, to);
    if i < to - from {
        if t[i] != c {
            lemma_find_from(s, c, from, to, i + 1);
            lemma_find_from(s, c, from + i, to, 1);
            assert(s.subrange(from + i + 1, to) =~= s.subrange(from + i + 1, to));
            assert(u.subrange(1, u.len() as int) =~= s.subrange(from + i + 1, to));
        }
    }
}

impl TimeRule {
    /// Whether minute `now_min` (since midnight) lies in this rule's window.
    /// A rule whose start or end does not parse covers nothing.
    pub fn covers(&self, now_min: u32) -> (r: bool)
        ensures
            r == rule_covers(*self, now_min),
    {
        let s = parse_hhmm(self.start.as_str());
        let e = parse_hhmm(self.end.as_str());
        match (s, e) {
            (Some(s), Some(e)) => {
                if s <= e {
                    now_min >= s && now_min <= e
                } else {
                    now_min >= s || now_min <= e
                }
            },
            _ => false,
        }
    }
}


/// How long to wait between two actions of a state: a number of milliseconds
/// drawn from `min_ms..=max_ms`.
#[derive(Clone, Copy, Debug, PartialEq, Eq, Structural)]
pub struct IntervalMs {
    pub min_ms: u64,
    pub max_ms: u64,
}

impl Default for IntervalMs {
    fn default() -> (r: IntervalMs)
        ensures
            r == (IntervalMs { min_ms: 2000, max_ms: 2000 }),
    {
        IntervalMs { min_ms: 2000, max_ms: 2000 }
    }
}

/// What decides whether a state can be chosen: whether it is enabled, whether
/// its weight takes part in the random draw (weight above zero), and its time
/// rules.
#[derive(Clone, Debug)]
pub struct StateGate {
    pub enabled: bool,
    pub weighted: bool,
    pub time_rules: Vec<TimeRule>,
}

/// Some rule of the state covers minute `now`.
pub open spec fn any_rule_covers(rules: Seq<TimeRule>, now: u32) -> bool {
    exists|k: int| 0 <= k < rules.len() && rule_covers(#[trigger] rules[k], now)
}

/// An enabled state whose time rule covers `now`.
pub open spec fn is_hit(g: StateGate, now: u32) -> bool {
    g.enabled && any_rule_covers(g.time_rules@, now)
}

/// An enabled state that takes part in the free-period draw.
pub open spec fn is_free(g: StateGate) -> bool {
    g.enabled && g.weighted
}

/// Indices `i < n` of `s`, in order, with `p(s[i])`.
pub open spec fn indices_where<T>(s: Seq<T>, p: spec_fn(T) -> bool, n: int) -> Seq<usize>
    decreases n,
{
    if n <= 0 {
        Seq::empty()
    } else if p(s[n - 1]) {
        indices_where(s, p, n - 1).push((n - 1) as usize)
    } else {
        indices_where(s, p, n - 1)
    }
}

/// The states among which the draw happens at minute `now`: those forced by a
/// covering time rule if there are any, otherwise the enabled states with a
/// positive weight.
pub open spec fn state_candidates(s: Seq<StateGate>, now: u32) -> Seq<usize> {
    let hits = indices_where(s, |g: StateGate| is_hit(g, now), s.len() as int);
    if hits.len() > 0 {
        hits
    } else {
        indices_where(s, |g: StateGate| is_free(g), s.len() as int)
    }
}

/// Membership in [`indices_where`].
pub proof fn lemma_indices_where<T>(s: Seq<T>, p: spec_fn(T) -> bool, n: int)
    requires
        0 <= n <= s.len(),
        n <= usize::MAX,
    ensures
        forall|j: int|
            0 <= j < indices_where(s, p, n).len() ==> 0 <= #[trigger] indices_where(s, p, n)[j] < n
                && p(s[indices_where(s, p, n)[j] as int]),
        forall|i: int| 0 <= i < n ==> (indices_where(s, p, n).contains(i as usize) <==> p(#[trigger] s[i])),
        indices_where(s, p, n).len() == 0 <==> forall|i: int| 0 <= i < n ==> !p(#[trigger] s[i]),
    decreases n,
{
    if n > 0 {
        lemma_indices_where(s, p, n - 1);
        let prev = indices_where(s, p, n - 1);
        let cur = indices_where(s, p, n);
        assert forall|j: int| 0 <= j < cur.len() implies 0 <= #[trigger] cur[j] < n && p(s[cur[j] as int]) by {
            if j < prev.len() {
                assert(cur[j] == prev[j]);
            }
        }
        assert forall|i: int| 0 <= i < n implies (cur.contains(i as usize) <==> p(#[trigger] s[i])) by {
            if p(s[i]) {
                if i == n - 1 {
                    assert(cur[cur.len() - 1] == i as usize);
                } else {
                    let j = choose|j: int| 0 <= j < prev.len() && prev[j] == i as usize;
                    assert(cur[j] == i as usize);
                }
            }
            if cur.contains(i as usize) {
                let j = choose|j: int| 0 <= j < cur.len() && cur[j] == i as usize;
                assert(cur[j] as int == i);
            }
        }
        if cur.len() == 0 {
            assert forall|i: int| 0 <= i < n implies !p(#[trigger] s[i]) by {
                if p(s[i]) {
                    assert(cur.contains(i as usize));
                }
            }
        } else {
            assert(p(s[cur[0] as int]));
        }
    }
}

/// The stateless decision engine of the behaviour state machine.
pub struct Engine;

impl Engine {
    /// Indices of the states among which the current state is drawn at
    /// minute `now_min` (see [`state_candidates`]).
    pub fn candidates(states: &Vec<StateGate>, now_min: u32) -> (r: Vec<usize>)
        ensures
            r@ == state_candidates(states@, now_min),
    {
        let n = states.len();
        let mut hits: Vec<usize> = Vec::new();
        let mut free: Vec<usize> = Vec::new();
        let mut i: usize = 0;
        while i < n
            invariant
                n == states@.len(),
                i <= n,
                hits@ == indices_where(states@, |g: StateGate| is_hit(g, now_min), i as int),
                free@ == indices_where(states@, |g: StateGate| is_free(g), i as int),
            decreases n - i,
        {
            let g = &states[i];
            if g.enabled {
                let mut k: usize = 0;
                let mut hit = false;
                while k < g.time_rules.len() && !hit
                    invariant
                        k <= g.time_rules@.len(),
                        hit ==> any_rule_covers(g.time_rules@, now_min),
                        !hit ==> forall|j: int| 0 <= j < k ==> !rule_covers(#[trigger] g.time_rules@[j], now_min),
                    decreases g.time_rules@.len() - k + (if hit { 0int } else { 1int }),
                {
                    if g.time_rules[k].covers(now_min) {
                        hit = true;
                    } else {
                        k += 1;
                    }
                }
                if hit {
                    hits.push(i);
                }
                if g.weighted {
                    free.push(i);
                }
            }
            i += 1;
        }
        if hits.len() > 0 {
            hits
        } else {
            free
        }
    }
}

/// Indices of the actions that may be played next: all names but `exclude`,
/// or all names when only the excluded one is left.
pub open spec fn action_candidates_spec(names: Seq<Seq<char>>, exclude: Option<Seq<char>>) -> Seq<usize> {
    let others = indices_where(names, |n: Seq<char>| exclude != Some(n), names.len() as int);
    if others.len() > 0 {
        others
    } else {
        indices_where(names, |n: Seq<char>| true, names.len() as int)
    }
}

pub open spec fn names_view(v: Seq<String>) -> Seq<Seq<char>> {
    v.map_values(|s: String| s@)
}

/// The candidates for the next action (see [`action_candidates_spec`]).
pub fn action_candidates(names: &Vec<String>, exclude: Option<&str>) -> (r: Vec<usize>)
    ensures
        r@ == action_candidates_spec(
            names_view(names@),
            match exclude {
                Some(e) => Some(e@),
                None => None,
            },
        ),
{
    let ghost nv = names_view(names@);
    let ghost ex = match exclude {
        Some(e) => Some(e@),
        None => None::<Seq<char>>,
    };
    let n = names.len();
    let mut others: Vec<usize> = Vec::new();
    let mut all: Vec<usize> = Vec::new();
    let mut i: usize = 0;
    while i < n
        invariant
            n == names@.len(),
            nv == names_view(names@),
            nv.len() == n,
            ex == (match exclude {
                Some(e) => Some(e@),
                None => None::<Seq<char>>,
            }),
            i <= n,
            others@ == indices_where(nv, |s: Seq<char>| ex != Some(s), i as int),
            all@ == indices_where(nv, |s: Seq<char>| true, i as int),
        decreases n - i,
    {
        let same = match exclude {
            Some(e) => crate::text::str_eq(names[i].as_str(), e),
            None => false,
        };
        proof {
            assert(nv[i as int] == names@[i as int]@);
        }
        if !same {
            others.push(i);
        }
        all.push(i);
        i += 1;
    }
    if others.len() > 0 {
        others
    } else {
        all
    }
}

// ---------------- laws ----------------

/// A disabled state is never a candidate, and a state without a positive
/// weight becomes one only through a time rule covering the moment.
pub proof fn candidates_respect_enable_and_weight(states: Seq<StateGate>, now: u32, j: int)
    requires
        states.len() <= usize::MAX,
        0 <= j < state_candidates(states, now).len(),
    ensures
        states[state_candidates(states, now)[j] as int].enabled,
        !states[state_candidates(states, now)[j] as int].weighted ==> any_rule_covers(
            states[state_candidates(states, now)[j] as int].time_rules@,
            now,
        ),
{
    lemma_indices_where(states, |g: StateGate| is_hit(g, now), states.len() as int);
    lemma_indices_where(states, |g: StateGate| is_free(g), states.len() as int);
}

/// A time rule forces its state: when some enabled state is covered at `now`,
/// the candidates are exactly the covered enabled states, whatever their
/// weights.
pub proof fn time_rule_forces_state(states: Seq<StateGate>, now: u32, i: int)
    requires
        states.len() <= usize::MAX,
        0 <= i < states.len(),
        is_hit(states[i], now),
    ensures
        state_candidates(states, now).contains(i as usize),
        forall|j: int|
            0 <= j < state_candidates(states, now).len() ==> is_hit(
                states[#[trigger] state_candidates(states, now)[j] as int],
                now,
            ),
{
    lemma_indices_where(states, |g: StateGate| is_hit(g, now), states.len() as int);
}

/// Outside every time window the draw is among the enabled states with a
/// positive weight, all of them.
pub proof fn free_period_draws_weighted(states: Seq<StateGate>, now: u32, i: int)
    requires
        states.len() <= usize::MAX,
        forall|k: int| 0 <= k < states.len() ==> !is_hit(#[trigger] states[k], now),
        0 <= i < states.len(),
    ensures
        state_candidates(states, now).contains(i as usize) <==> is_free(states[i]),
{
    lemma_indices_where(states, |g: StateGate| is_hit(g, now), states.len() as int);
    lemma_indices_where(states, |g: StateGate| is_free(g), states.len() as int);
}

} // verus!

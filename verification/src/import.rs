//! Importing a pet: which entries of an asset archive are animations, which
//! of them are kept, and how the optional manifest assigns the animations to
//! interactions and states. Weights are carried through unchanged, whatever
//! their type.

use vstd::prelude::*;
use crate::db::ActionRow;
use crate::text::str_eq;
use crate::pet::{names_view, opt_view, place_all, assoc_get, row_for, binds_for, effective_binds, joins_idle, lemma_joins_idle_upto, lemma_row_for_member, lemma_binds_for_member};
use crate::text::chars_of;
use crate::text::{dec_digits, push_decimal, is_digit, lemma_dec_digits_are_digits};
use crate::control::{safe_component, has_char, has_dotdot};
use vstd::string::StringExecFns;
use crate::control::{codes, lower_seq};
use crate::webm::spec_parse;
use vstd::utf8::{valid_utf8, decode_utf8};
use std::io::Cursor;
use std::io::Read;
use zip::ZipArchive;

verus! {

// ---------------- manifest ----------------

/// The `pet` section of a manifest.
pub struct PetMeta {
    pub name: Option<String>,
}

/// A state binding declared for an action.
pub struct RawState<W> {
    pub state: String,
    pub weight: Option<W>,
    pub enabled: Option<bool>,
}

/// An action declared by the manifest: `owner` is `state`, `click` or `drag`.
pub struct RawAction<W> {
    pub file: String,
    pub display_name: Option<String>,
    pub owner: Option<String>,
    pub states: Vec<RawState<W>>,
}

/// The manifest of an asset archive.
pub struct PetManifest<W> {
    pub pet: Option<PetMeta>,
    pub idle: Option<String>,
    pub actions: Vec<RawAction<W>>,
}

/// An action row as plain values: action, display name, owner kind, kind,
/// enabled.
pub open spec fn row_view(r: ActionRow) -> (Seq<char>, Seq<char>, Seq<char>, Option<Seq<char>>, bool) {
    (r.action@, r.display_name@, r.owner_kind@, opt_view(r.kind), r.enabled)
}

pub open spec fn rows_view(v: Seq<ActionRow>) -> Seq<(Seq<char>, Seq<char>, Seq<char>, Option<Seq<char>>, bool)> {
    v.map_values(|r: ActionRow| row_view(r))
}

pub open spec fn binding_view<W>(b: (String, String, W, bool)) -> (Seq<char>, Seq<char>, W, bool) {
    (b.0@, b.1@, b.2, b.3)
}

pub open spec fn bindings_view<W>(v: Seq<(String, String, W, bool)>) -> Seq<(Seq<char>, Seq<char>, W, bool)> {
    v.map_values(|b: (String, String, W, bool)| binding_view(b))
}

/// The declaration of action `name`: the last one naming its file.
pub open spec fn raw_for<W>(acts: Seq<RawAction<W>>, name: Seq<char>) -> Option<RawAction<W>>
    decreases acts.len(),
{
    if acts.len() == 0 {
        None
    } else if acts.last().file@ == name {
        Some(acts.last())
    } else {
        raw_for(acts.drop_last(), name)
    }
}

/// The bindings declared for `name`, defaults filled in (weight `one`,
/// enabled).
pub open spec fn declared_states<W>(states: Seq<RawState<W>>, name: Seq<char>, one: W) -> Seq<(Seq<char>, Seq<char>, W, bool)> {
    states.map_values(
        |s: RawState<W>|
            (
                name,
                s.state@,
                match s.weight {
                    Some(w) => w,
                    None => one,
                },
                match s.enabled {
                    Some(e) => e,
                    None => true,
                },
            ),
    )
}

/// Whether some binding is for action `name`.
pub open spec fn has_binding<W>(b: Seq<(Seq<char>, Seq<char>, W, bool)>, name: Seq<char>) -> bool {
    exists|i: int| 0 <= i < b.len() && (#[trigger] b[i]).0 == name
}

/// Rows and bindings after placing one valid animation: `click` and `drag`
/// owners become interactive rows; anything else is a state row with its
/// declared bindings, or the idle state (weight `one`) when none names it.
pub open spec fn manifest_step<W>(
    acc: (Seq<(Seq<char>, Seq<char>, Seq<char>, Option<Seq<char>>, bool)>, Seq<(Seq<char>, Seq<char>, W, bool)>),
    acts: Seq<RawAction<W>>,
    name: Seq<char>,
    one: W,
) -> (Seq<(Seq<char>, Seq<char>, Seq<char>, Option<Seq<char>>, bool)>, Seq<(Seq<char>, Seq<char>, W, bool)>) {
    let raw = raw_for(acts, name);
    let owner = match raw {
        Some(r) => match r.owner {
            Some(o) => o@,
            None => "state"@,
        },
        None => "state"@,
    };
    let display = match raw {
        Some(r) => match r.display_name {
            Some(d) => d@,
            None => name,
        },
        None => name,
    };
    if owner == "click"@ || owner == "drag"@ {
        (acc.0.push((name, display, "interactive"@, Some(owner), true)), acc.1)
    } else {
        let with_declared = match raw {
            Some(r) => acc.1 + declared_states(r.states@, name, one),
            None => acc.1,
        };
        let states = if has_binding(with_declared, name) {
            with_declared
        } else {
            with_declared.push((name, "idle"@, one, true))
        };
        (acc.0.push((name, display, "state"@, None, true)), states)
    }
}

/// Rows and bindings after the first `n` valid animations.
pub open spec fn manifest_rows<W>(acts: Seq<RawAction<W>>, valid: Seq<Seq<char>>, n: int, one: W) -> (
    Seq<(Seq<char>, Seq<char>, Seq<char>, Option<Seq<char>>, bool)>,
    Seq<(Seq<char>, Seq<char>, W, bool)>,
)
    decreases n,
{
    if n <= 0 {
        (Seq::empty(), Seq::empty())
    } else {
        manifest_step(manifest_rows(acts, valid, n - 1, one), acts, valid[n - 1], one)
    }
}

/// The idle reference: the manifest's `idle` when it names a valid
/// animation, otherwise the first valid animation.
pub open spec fn manifest_idle(idle: Option<Seq<char>>, valid: Seq<Seq<char>>) -> Option<Seq<char>> {
    match idle {
        Some(i) if valid.contains(i) => Some(i),
        _ => if valid.len() > 0 {
            Some(valid[0])
        } else {
            None
        },
    }
}

fn copy_str(s: &String) -> (r: String)
    ensures
        r@ == s@,
{
    s.as_str().to_owned()
}

/// Index of the declaration of `name` (the last one naming its file).
fn raw_index<W>(acts: &Vec<RawAction<W>>, name: &String) -> (r: Option<usize>)
    ensures
        match r {
            Some(i) => i < acts@.len() && raw_for(acts@, name@) == Some(acts@[i as int]),
            None => raw_for(acts@, name@) is None,
        },
{
    let mut i = acts.len();
    proof {
        assert(acts@.subrange(0, i as int) =~= acts@);
    }
    while i > 0
        invariant
            i <= acts@.len(),
            raw_for(acts@.subrange(0, i as int), name@) == raw_for(acts@, name@),
        decreases i,
    {
        let ghost pre = acts@.subrange(0, i as int);
        if str_eq(acts[i - 1].file.as_str(), name.as_str()) {
            proof {
                assert(pre.last() == acts@[i - 1]);
            }
            return Some(i - 1);
        }
        proof {
            assert(pre.drop_last() =~= acts@.subrange(0, i - 1));
        }
        i -= 1;
    }
    proof {
        assert(acts@.subrange(0, 0) =~= Seq::<RawAction<W>>::empty());
    }
    None
}

/// Whether some binding in `list` is for action `name`.
pub fn action_states_last_is_empty<W: Copy>(list: &Vec<(String, String, W, bool)>, name: &String) -> (r: bool)
    ensures
        r == !has_binding(bindings_view(list@), name@),
{
    let ghost v = bindings_view(list@);
    let mut i: usize = 0;
    while i < list.len()
        invariant
            v == bindings_view(list@),
            i <= list@.len(),
            forall|k: int| 0 <= k < i ==> (#[trigger] v[k]).0 != name@,
        decreases list@.len() - i,
    {
        if str_eq(list[i].0.as_str(), name.as_str()) {
            assert(v[i as int].0 == name@);
            return false;
        }
        i += 1;
    }
    true
}

/// Builds the action rows, the state bindings and the idle reference for the
/// valid animations from a manifest (see [`manifest_step`]); a binding
/// without weight gets `one`.
pub fn build_from_manifest<W: Copy>(m: &PetManifest<W>, valid: &Vec<String>, one: W) -> (r: (
    Vec<ActionRow>,
    Vec<(String, String, W, bool)>,
    Option<String>,
))
    ensures
        rows_view(r.0@) == manifest_rows(m.actions@, names_view(valid@), valid@.len() as int, one).0,
        bindings_view(r.1@) == manifest_rows(m.actions@, names_view(valid@), valid@.len() as int, one).1,
        opt_view(r.2) == manifest_idle(opt_view(m.idle), names_view(valid@)),
{
    let ghost vv = names_view(valid@);
    let mut actions: Vec<ActionRow> = Vec::new();
    let mut states: Vec<(String, String, W, bool)> = Vec::new();
    let mut i: usize = 0;
    proof {
        assert(rows_view(actions@) =~= Seq::<(Seq<char>, Seq<char>, Seq<char>, Option<Seq<char>>, bool)>::empty());
        assert(bindings_view(states@) =~= Seq::<(Seq<char>, Seq<char>, W, bool)>::empty());
    }
    while i < valid.len()
        invariant
            vv == names_view(valid@),
            i <= valid@.len(),
            rows_view(actions@) == manifest_rows(m.actions@, vv, i as int, one).0,
            bindings_view(states@) == manifest_rows(m.actions@, vv, i as int, one).1,
        decreases valid@.len() - i,
    {
        let name = &valid[i];
        proof {
            assert(vv[i as int] == name@);
        }
        let ghost acc = manifest_rows(m.actions@, vv, i as int, one);
        let ri = raw_index(&m.actions, name);
        let owner: String = match ri {
            Some(k) => match &m.actions[k].owner {
                Some(o) => copy_str(o),
                None => "state".to_string(),
            },
            None => "state".to_string(),
        };
        let display: String = match ri {
            Some(k) => match &m.actions[k].display_name {
                Some(d) => copy_str(d),
                None => copy_str(name),
            },
            None => copy_str(name),
        };
        if str_eq(owner.as_str(), "click") || str_eq(owner.as_str(), "drag") {
            let ghost before = actions@;
            actions.push(
                ActionRow {
                    action: copy_str(name),
                    display_name: display,
                    owner_kind: "interactive".to_string(),
                    kind: Some(owner),
                    enabled: true,
                },
            );
            proof {
                assert(rows_view(actions@) =~= rows_view(before).push(row_view(actions@[before.len() as int])));
            }
        } else {
            let ghost before = actions@;
            actions.push(
                ActionRow {
                    action: copy_str(name),
                    display_name: display,
                    owner_kind: "state".to_string(),
                    kind: None,
                    enabled: true,
                },
            );
            proof {
                assert(rows_view(actions@) =~= rows_view(before).push(row_view(actions@[before.len() as int])));
            }
            let ghost base = bindings_view(states@);
            match ri {
                Some(k) => {
                    let raw = &m.actions[k];
                    let mut j: usize = 0;
                    while j < raw.states.len()
                        invariant
                            j <= raw.states@.len(),
                            bindings_view(states@) == base + declared_states(raw.states@, name@, one).subrange(0, j as int),
                        decreases raw.states@.len() - j,
                    {
                        let st = &raw.states[j];
                        let w = match st.weight {
                            Some(w) => w,
                            None => one,
                        };
                        let en = match st.enabled {
                            Some(e) => e,
                            None => true,
                        };
                        let ghost b2 = states@;
                        states.push((copy_str(name), copy_str(&st.state), w, en));
                        proof {
                            assert(bindings_view(states@) =~= bindings_view(b2).push((name@, st.state@, w, en)));
                            assert(declared_states(raw.states@, name@, one).subrange(0, j + 1) =~= declared_states(
                                raw.states@,
                                name@,
                                one,
                            ).subrange(0, j as int).push((name@, st.state@, w, en)));
                        }
                        j += 1;
                    }
                    proof {
                        assert(declared_states(raw.states@, name@, one).subrange(0, raw.states@.len() as int)
                            =~= declared_states(raw.states@, name@, one));
                    }
                },
                None => {
                    proof {
                        assert(base + Seq::<(Seq<char>, Seq<char>, W, bool)>::empty() =~= base);
                    }
                },
            }
            if action_states_last_is_empty(&states, name) {
                let ghost b3 = states@;
                states.push((copy_str(name), "idle".to_string(), one, true));
                proof {
                    assert(bindings_view(states@) =~= bindings_view(b3).push((name@, "idle"@, one, true)));
                }
            }
        }
        proof {
            assert(manifest_rows(m.actions@, vv, i + 1, one) == manifest_step(acc, m.actions@, name@, one));
        }
        i += 1;
    }
    let idle: Option<String> = match &m.idle {
        Some(id) => {
            let mut k: usize = 0;
            let mut found = false;
            while k < valid.len() && !found
                invariant
                    vv == names_view(valid@),
                    k <= valid@.len(),
                    found ==> vv.contains(id@),
                    !found ==> forall|j: int| 0 <= j < k ==> vv[j] != id@,
                decreases valid@.len() - k + (if found { 0int } else { 1int }),
            {
                if str_eq(valid[k].as_str(), id.as_str()) {
                    assert(vv[k as int] == id@);
                    found = true;
                } else {
                    k += 1;
                }
            }
            if found {
                Some(copy_str(id))
            } else if valid.len() > 0 {
                Some(copy_str(&valid[0]))
            } else {
                None
            }
        },
        None => if valid.len() > 0 {
            Some(copy_str(&valid[0]))
        } else {
            None
        },
    };
    (actions, states, idle)
}

/// The idle reference when the manifest does not name one: the first action
/// bound to the idle state, else the first state action, else the first
/// animation.
pub open spec fn idle_fallback<W>(
    actions: Seq<ActionRow>,
    states: Seq<(String, String, W, bool)>,
    videos: Seq<String>,
) -> Option<Seq<char>> {
    let bi = first_index_where(states, |b: (String, String, W, bool)| b.1@ == "idle"@);
    let ai = first_index_where(actions, |a: ActionRow| a.owner_kind@ == "state"@);
    if bi < states.len() {
        Some(states[bi].0@)
    } else if ai < actions.len() {
        Some(actions[ai].action@)
    } else if videos.len() > 0 {
        Some(videos[0]@)
    } else {
        None
    }
}

/// Index of the first element with `p`, or the length.
pub open spec fn first_index_where<T>(s: Seq<T>, p: spec_fn(T) -> bool) -> int
    decreases s.len(),
{
    if s.len() == 0 {
        0
    } else if first_index_where(s.drop_last(), p) < s.len() - 1 {
        first_index_where(s.drop_last(), p)
    } else if p(s.last()) {
        s.len() - 1
    } else {
        s.len() as int
    }
}

proof fn lemma_first_index_where<T>(s: Seq<T>, p: spec_fn(T) -> bool, i: int)
    requires
        0 <= i <= s.len(),
        i < s.len() ==> p(s[i]),
        forall|j: int| 0 <= j < i ==> !p(#[trigger] s[j]),
    ensures
        first_index_where(s, p) == i,
    decreases s.len(),
{
    if s.len() > 0 {
        if i < s.len() - 1 {
            lemma_first_index_where(s.drop_last(), p, i);
        } else {
            lemma_first_index_where(s.drop_last(), p, s.len() - 1);
        }
    }
}

/// Picks the idle reference when the manifest does not (see [`idle_fallback`]).
pub fn resolve_idle_from<W: Copy>(
    actions: &Vec<ActionRow>,
    action_states: &Vec<(String, String, W, bool)>,
    videos: &Vec<String>,
) -> (r: Option<String>)
    ensures
        opt_view(r) == idle_fallback(actions@, action_states@, videos@),
{
    let mut i: usize = 0;
    while i < action_states.len()
        invariant
            i <= action_states@.len(),
            forall|j: int| 0 <= j < i ==> (#[trigger] action_states@[j]).1@ != "idle"@,
        decreases action_states@.len() - i,
    {
        if str_eq(action_states[i].1.as_str(), "idle") {
            proof {
                lemma_first_index_where(action_states@, |b: (String, String, W, bool)| b.1@ == "idle"@, i as int);
            }
            return Some(copy_str(&action_states[i].0));
        }
        i += 1;
    }
    proof {
        lemma_first_index_where(action_states@, |b: (String, String, W, bool)| b.1@ == "idle"@, i as int);
    }
    let mut k: usize = 0;
    while k < actions.len()
        invariant
            k <= actions@.len(),
            first_index_where(action_states@, |b: (String, String, W, bool)| b.1@ == "idle"@)
                == action_states@.len(),
            forall|j: int| 0 <= j < k ==> (#[trigger] actions@[j]).owner_kind@ != "state"@,
        decreases actions@.len() - k,
    {
        if str_eq(actions[k].owner_kind.as_str(), "state") {
            proof {
                lemma_first_index_where(actions@, |a: ActionRow| a.owner_kind@ == "state"@, k as int);
            }
            return Some(copy_str(&actions[k].action));
        }
        k += 1;
    }
    proof {
        lemma_first_index_where(actions@, |a: ActionRow| a.owner_kind@ == "state"@, k as int);
    }
    if videos.len() > 0 {
        Some(copy_str(&videos[0]))
    } else {
        None
    }
}



// ---------------- registering an imported pet ----------------

/// What is recorded about a newly imported pet.
pub struct Registration<W> {
    /// The manifest's pet name, or the id when it gives none.
    pub display_name: String,
    pub actions: Vec<ActionRow>,
    pub action_states: Vec<(String, String, W, bool)>,
    /// The idle reference, when there is one; the full-body picture is taken
    /// from it.
    pub idle: Option<String>,
    /// The action recorded as the size reference: the idle reference, else
    /// the first animation, else empty.
    pub baseline: String,
}

/// Whether a video's owner makes an interactive action: `click` or `drag`.
pub open spec fn is_interactive_owner(o: Seq<char>) -> bool {
    o == "click"@ || o == "drag"@
}

/// The row and state bindings of an action converted from a single video:
/// owner `click` or `drag` makes an enabled interactive action of that kind
/// with no bindings; any other owner an enabled state action bound to the
/// idle pool with weight `one`. The display name is the action's name.
pub fn converted_action<W: Copy>(action: &str, owner: &str, one: W) -> (r: (ActionRow, Vec<(String, W, bool)>))
    ensures
        r.0.action@ == action@,
        r.0.display_name@ == action@,
        r.0.enabled,
        is_interactive_owner(owner@) ==> {
            &&& r.0.owner_kind@ == "interactive"@
            &&& r.0.kind matches Some(k) && k@ == owner@
            &&& r.1@.len() == 0
        },
        !is_interactive_owner(owner@) ==> {
            &&& r.0.owner_kind@ == "state"@
            &&& r.0.kind is None
            &&& r.1@.len() == 1
            &&& r.1@[0].0@ == "idle"@
            &&& r.1@[0].1 == one
            &&& r.1@[0].2
        },
{
    let interactive = str_eq(owner, "click") || str_eq(owner, "drag");
    if interactive {
        let row = ActionRow {
            action: action.to_owned(),
            display_name: action.to_owned(),
            owner_kind: "interactive".to_owned(),
            kind: Some(owner.to_owned()),
            enabled: true,
        };
        (row, Vec::new())
    } else {
        let row = ActionRow {
            action: action.to_owned(),
            display_name: action.to_owned(),
            owner_kind: "state".to_owned(),
            kind: None,
            enabled: true,
        };
        let mut states: Vec<(String, W, bool)> = Vec::new();
        states.push(("idle".to_owned(), one, true));
        (row, states)
    }
}

/// The default row of an animation: a state action named after it, enabled.
pub open spec fn default_row(v: String) -> (Seq<char>, Seq<char>, Seq<char>, Option<Seq<char>>, bool) {
    (v@, v@, "state"@, None, true)
}

/// The default binding of an animation: the idle pool with weight `one`.
pub open spec fn default_binding<W>(v: String, one: W) -> (Seq<char>, Seq<char>, W, bool) {
    (v@, "idle"@, one, true)
}

fn copy_row(r: &ActionRow) -> (c: ActionRow)
    ensures
        row_view(c) == row_view(*r),
{
    ActionRow {
        action: copy_str(&r.action),
        display_name: copy_str(&r.display_name),
        owner_kind: copy_str(&r.owner_kind),
        kind: match &r.kind {
            Some(k) => Some(copy_str(k)),
            None => None,
        },
        enabled: r.enabled,
    }
}

/// Plans what is recorded for pet `id` imported with the animations `videos`
/// and the manifest's name, idle reference, actions and bindings: the
/// manifest's actions and bindings when it gives any actions, otherwise
/// every animation as an enabled state action in the idle pool with weight
/// `one`; the idle reference named by the manifest, else the one found from
/// its actions (see [`idle_fallback`]).
pub fn plan_registration<W: Copy>(
    id: &str,
    videos: &Vec<String>,
    pet_name: Option<&str>,
    idle: Option<&str>,
    actions: &Vec<ActionRow>,
    action_states: &Vec<(String, String, W, bool)>,
    one: W,
) -> (r: Registration<W>)
    ensures
        r.display_name@ == (match pet_name {
            Some(n) => if n@.len() > 0 {
                n@
            } else {
                id@
            },
            None => id@,
        }),
        actions@.len() > 0 ==> rows_view(r.actions@) == rows_view(actions@) && bindings_view(r.action_states@)
            == bindings_view(action_states@),
        actions@.len() == 0 ==> rows_view(r.actions@) == videos@.map_values(|v: String| default_row(v))
            && bindings_view(r.action_states@) == videos@.map_values(|v: String| default_binding(v, one)),
        opt_view(r.idle) == (match idle {
            Some(i) => Some(i@),
            None => idle_fallback(actions@, action_states@, videos@),
        }),
        r.baseline@ == (match opt_view(r.idle) {
            Some(a) => a,
            None => if videos@.len() > 0 {
                videos@[0]@
            } else {
                Seq::<char>::empty()
            },
        }),
{
    let display_name = match pet_name {
        Some(n) => if n.unicode_len() > 0 {
            n.to_owned()
        } else {
            id.to_owned()
        },
        None => id.to_owned(),
    };
    let mut rows: Vec<ActionRow> = Vec::new();
    let mut binds: Vec<(String, String, W, bool)> = Vec::new();
    if actions.len() > 0 {
        let mut i: usize = 0;
        while i < actions.len()
            invariant
                i <= actions@.len(),
                rows_view(rows@) == rows_view(actions@.subrange(0, i as int)),
            decreases actions@.len() - i,
        {
            let ghost before = rows_view(rows@);
            rows.push(copy_row(&actions[i]));
            proof {
                assert(rows_view(rows@) =~= before.push(row_view(actions@[i as int])));
                assert(rows_view(actions@.subrange(0, i + 1)) =~= rows_view(actions@.subrange(0, i as int)).push(
                    row_view(actions@[i as int]),
                ));
            }
            i += 1;
        }
        let mut j: usize = 0;
        while j < action_states.len()
            invariant
                j <= action_states@.len(),
                bindings_view(binds@) == bindings_view(action_states@.subrange(0, j as int)),
            decreases action_states@.len() - j,
        {
            let b = &action_states[j];
            let ghost before = bindings_view(binds@);
            binds.push((copy_str(&b.0), copy_str(&b.1), b.2, b.3));
            proof {
                assert(bindings_view(binds@) =~= before.push(binding_view(action_states@[j as int])));
                assert(bindings_view(action_states@.subrange(0, j + 1)) =~= bindings_view(
                    action_states@.subrange(0, j as int),
                ).push(binding_view(action_states@[j as int])));
            }
            j += 1;
        }
        proof {
            assert(actions@.subrange(0, actions@.len() as int) =~= actions@);
            assert(action_states@.subrange(0, action_states@.len() as int) =~= action_states@);
        }
    } else {
        let mut i: usize = 0;
        while i < videos.len()
            invariant
                i <= videos@.len(),
                rows_view(rows@) == videos@.subrange(0, i as int).map_values(|v: String| default_row(v)),
                bindings_view(binds@) == videos@.subrange(0, i as int).map_values(
                    |v: String| default_binding(v, one),
                ),
            decreases videos@.len() - i,
        {
            let v = &videos[i];
            let ghost rb = rows_view(rows@);
            let ghost bb = bindings_view(binds@);
            rows.push(ActionRow {
                action: copy_str(v),
                display_name: copy_str(v),
                owner_kind: "state".to_string(),
                kind: None,
                enabled: true,
            });
            binds.push((copy_str(v), "idle".to_string(), one, true));
            proof {
                assert(rows_view(rows@) =~= rb.push(default_row(*v)));
                assert(bindings_view(binds@) =~= bb.push(default_binding(*v, one)));
                assert(videos@.subrange(0, i + 1).map_values(|v: String| default_row(v)) =~= videos@.subrange(
                    0,
                    i as int,
                ).map_values(|v: String| default_row(v)).push(default_row(*v)));
                assert(videos@.subrange(0, i + 1).map_values(|v: String| default_binding(v, one))
                    =~= videos@.subrange(0, i as int).map_values(|v: String| default_binding(v, one)).push(
                    default_binding(*v, one),
                ));
            }
            i += 1;
        }
        proof {
            assert(videos@.subrange(0, videos@.len() as int) =~= videos@);
        }
    }
    let idle_action = match idle {
        Some(i) => Some(i.to_owned()),
        None => resolve_idle_from(actions, action_states, videos),
    };
    let baseline = match &idle_action {
        Some(a) => copy_str(a),
        None => if videos.len() > 0 {
            copy_str(&videos[0])
        } else {
            String::new()
        },
    };
    Registration { display_name, actions: rows, action_states: binds, idle: idle_action, baseline }
}


/// A pet imported without action settings moves: once its pools are built
/// from the recorded rows and bindings, every animation is in the idle pool
/// with weight `one`.
pub proof fn plain_import_fills_idle_pool<W>(
    videos: Seq<String>,
    rows: Seq<ActionRow>,
    st: Seq<(String, String, W, bool)>,
    one: W,
    i: int,
)
    requires
        rows_view(rows) == videos.map_values(|v: String| default_row(v)),
        bindings_view(st) == videos.map_values(|v: String| default_binding(v, one)),
        0 <= i < videos.len(),
    ensures
        assoc_get(place_all(names_view(videos), videos.len() as int, rows, st, one).pools, "idle"@).contains(
            (videos[i]@, one),
        ),
{
    let names = names_view(videos);
    let n = videos[i]@;
    assert(names[i] == n);
    assert(rows_view(rows).len() == videos.len());
    assert(bindings_view(st).len() == videos.len());
    assert(row_view(rows[i]) == rows_view(rows)[i]);
    assert(rows[i].action@ == n);
    lemma_row_for_member(rows, n, i);
    let r = row_for(rows, n)->0;
    let k = choose|k: int| 0 <= k < rows.len() && rows[k] == r;
    assert(row_view(rows[k]) == rows_view(rows)[k]);
    reveal_strlit("state");
    reveal_strlit("interactive");
    assert("state"@.len() == 5 && "interactive"@.len() == 11);
    assert(r.enabled && r.owner_kind@ != "interactive"@);
    assert(binding_view(st[i]) == bindings_view(st)[i]);
    assert(st[i].0@ == n && st[i].1@ == "idle"@ && st[i].2 == one && st[i].3);
    lemma_binds_for_member(st, n, i);
    assert(binds_for(st, n).len() > 0);
    assert(effective_binds(st, n, one) == binds_for(st, n));
    assert(joins_idle(rows, st, names[i], one));
    lemma_joins_idle_upto(names, videos.len() as int, rows, st, one, i);
}

// ---------------- laws ----------------

proof fn lemma_manifest_bindings_grow<W>(acts: Seq<RawAction<W>>, valid: Seq<Seq<char>>, n: int, m: int, one: W)
    requires
        0 <= n <= m,
    ensures
        manifest_rows(acts, valid, n, one).1.len() <= manifest_rows(acts, valid, m, one).1.len(),
        forall|k: int|
            0 <= k < manifest_rows(acts, valid, n, one).1.len() ==> #[trigger] manifest_rows(acts, valid, m, one).1[k]
                == manifest_rows(acts, valid, n, one).1[k],
    decreases m,
{
    if n < m {
        lemma_manifest_bindings_grow(acts, valid, n, m - 1, one);
        let acc = manifest_rows(acts, valid, m - 1, one);
        let raw = raw_for(acts, valid[m - 1]);
        let with_declared = match raw {
            Some(r) => acc.1 + declared_states(r.states@, valid[m - 1], one),
            None => acc.1,
        };
        assert forall|k: int| 0 <= k < acc.1.len() implies #[trigger] with_declared[k] == acc.1[k] by {}
    }
}

/// A state binding that the manifest declares for a valid animation (owned
/// by the state machine, not by a click or a drag) is kept as declared: the
/// animation, the state, the weight given (else `one`), and the enabled flag
/// given (else enabled).
pub proof fn manifest_bindings_keep_declared_values<W>(acts: Seq<RawAction<W>>, valid: Seq<Seq<char>>, one: W, i: int, j: int)
    requires
        0 <= i < valid.len(),
        raw_for(acts, valid[i]) is Some,
        match raw_for(acts, valid[i])->0.owner {
            Some(o) => o@ != "click"@ && o@ != "drag"@,
            None => true,
        },
        0 <= j < raw_for(acts, valid[i])->0.states@.len(),
    ensures
        exists|k: int|
            0 <= k < manifest_rows(acts, valid, valid.len() as int, one).1.len() && #[trigger] manifest_rows(
                acts,
                valid,
                valid.len() as int,
                one,
            ).1[k] == (
                valid[i],
                raw_for(acts, valid[i])->0.states@[j].state@,
                match raw_for(acts, valid[i])->0.states@[j].weight {
                    Some(w) => w,
                    None => one,
                },
                match raw_for(acts, valid[i])->0.states@[j].enabled {
                    Some(e) => e,
                    None => true,
                },
            ),
{
    let acc = manifest_rows(acts, valid, i, one);
    let r = raw_for(acts, valid[i])->0;
    let with_declared = acc.1 + declared_states(r.states@, valid[i], one);
    let k = acc.1.len() + j;
    assert(with_declared[k] == declared_states(r.states@, valid[i], one)[j]);
    let after = manifest_rows(acts, valid, i + 1, one);
    assert(after == manifest_step(acc, acts, valid[i], one));
    assert(with_declared.len() == acc.1.len() + r.states@.len());
    reveal_strlit("state");
    reveal_strlit("click");
    reveal_strlit("drag");
    let owner = match r.owner {
        Some(o) => o@,
        None => "state"@,
    };
    if r.owner is None {
        assert("state"@[0] != "click"@[0]);
        assert("state"@.len() != "drag"@.len());
    }
    assert(!(owner == "click"@ || owner == "drag"@));
    if has_binding(with_declared, valid[i]) {
        assert(after.1 == with_declared);
    } else {
        assert(after.1 == with_declared.push((valid[i], "idle"@, one, true)));
    }
    assert(after.1[k] == with_declared[k]);
    lemma_manifest_bindings_grow(acts, valid, i + 1, valid.len() as int, one);
    assert(manifest_rows(acts, valid, valid.len() as int, one).1[k] == after.1[k]);
}

/// Importing with a manifest gives every valid animation exactly one action
/// row, in order, and every state action at least one state binding (the
/// idle pool when the manifest names none).
pub proof fn manifest_covers_every_animation<W>(acts: Seq<RawAction<W>>, valid: Seq<Seq<char>>, n: int, one: W)
    requires
        0 <= n <= valid.len(),
    ensures
        manifest_rows(acts, valid, n, one).0.len() == n,
        forall|i: int| 0 <= i < n ==> (#[trigger] manifest_rows(acts, valid, n, one).0[i]).0 == valid[i],
        forall|i: int|
            0 <= i < n && (#[trigger] manifest_rows(acts, valid, n, one).0[i]).2 == "state"@ ==> has_binding(
                manifest_rows(acts, valid, n, one).1,
                valid[i],
            ),
    decreases n,
{
    if n > 0 {
        manifest_covers_every_animation(acts, valid, n - 1, one);
        let acc = manifest_rows(acts, valid, n - 1, one);
        let r = manifest_rows(acts, valid, n, one);
        let name = valid[n - 1];
        assert(r == manifest_step(acc, acts, name, one));
        assert forall|i: int| 0 <= i < n implies (#[trigger] r.0[i]).0 == valid[i] by {
            if i < n - 1 {
                assert(r.0[i] == acc.0[i]);
            }
        }
        reveal_strlit("state");
        reveal_strlit("interactive");
        assert("state"@.len() == 5 && "interactive"@.len() == 11);
        let raw = raw_for(acts, name);
        let with_declared = match raw {
            Some(rr) => acc.1 + declared_states(rr.states@, name, one),
            None => acc.1,
        };
        assert(with_declared.subrange(0, acc.1.len() as int) =~= acc.1);
        assert(r.1.len() >= acc.1.len() && r.1.subrange(0, acc.1.len() as int) =~= acc.1) by {
            if r.1 != acc.1 {
                if has_binding(with_declared, name) {
                    assert(r.1 == with_declared);
                } else {
                    assert(r.1 == with_declared.push((name, "idle"@, one, true)));
                    assert(with_declared.push((name, "idle"@, one, true)).subrange(0, acc.1.len() as int) =~= acc.1);
                }
            }
        }
        assert forall|i: int| 0 <= i < n && (#[trigger] r.0[i]).2 == "state"@ implies has_binding(r.1, valid[i]) by {
            if i < n - 1 {
                assert(r.0[i] == acc.0[i]);
                let k = choose|k: int| 0 <= k < acc.1.len() && (#[trigger] acc.1[k]).0 == valid[i];
                assert(r.1.subrange(0, acc.1.len() as int)[k] == acc.1[k]);
                assert(r.1[k] == acc.1[k]);
            } else {
                assert(r.0[i].2 == "state"@);
                if has_binding(with_declared, name) {
                    assert(r.1 == with_declared);
                } else {
                    let st = with_declared.push((name, "idle"@, one, true));
                    assert(r.1 == st);
                    assert(st[with_declared.len() as int].0 == name);
                }
            }
        }
    }
}

// ---------------- archive ----------------

#[verifier::external_type_specification]
#[verifier::external_body]
#[verifier::reject_recursive_types(R)]
pub struct ExZipArchive<R>(ZipArchive<R>);

#[verifier::external_type_specification]
#[verifier::external_body]
#[verifier::reject_recursive_types(T)]
pub struct ExCursor<T>(Cursor<T>);

/// An archive read from memory.
pub type Archive = ZipArchive<Cursor<Vec<u8>>>;

/// The entries of an archive, in index order: raw name bytes, the name as
/// the `zip` crate decodes it, the bytes the entry reads back to (absent
/// when it cannot be read), and whether `ZipArchive::by_index` opens it (it
/// does not for an encrypted entry, an unsupported compression method or a
/// damaged local header; an entry that does not open cannot be read).
pub uninterp spec fn zip_entries(a: ZipArchive<Cursor<Vec<u8>>>) -> Seq<(Seq<u8>, Seq<char>, Option<Seq<u8>>, bool)>;

/// The entries that `zip::ZipArchive::new` finds in the bytes `b`, if it can
/// read them as an archive.
pub uninterp spec fn zip_listing(b: Seq<u8>) -> Option<Seq<(Seq<u8>, Seq<char>, Option<Seq<u8>>, bool)>>;

/// Whether a `zip` entry name denotes a directory: it ends with `/` or `\`.
pub open spec fn dir_name(n: Seq<char>) -> bool {
    n.len() > 0 && (n.last() == '/' || n.last() == '\\')
}

/// Reads the central directory of the archive in `bytes` with
/// `zip::ZipArchive::new`; the error is the crate's message.
#[verifier::external_body]
fn zip_open(bytes: &[u8]) -> (r: Result<Archive, String>)
    ensures
        r is Ok <==> zip_listing(bytes@) is Some,
        r matches Ok(a) ==> zip_listing(bytes@) == Some(zip_entries(a)),
{
    ZipArchive::new(Cursor::new(bytes.to_vec())).map_err(|e| format!("{}", e))
}

/// The number of entries (`ZipArchive::len`).
#[verifier::external_body]
fn zip_len(a: &Archive) -> (r: usize)
    ensures
        r == zip_entries(*a).len(),
{
    a.len()
}

/// Opens entry `i` with `ZipArchive::by_index` and reports its raw name,
/// name and whether it is a directory (`ZipFile::is_dir`, which looks at the
/// name's last character). Opening fails past the last entry and on an entry
/// that does not open.
#[verifier::external_body]
fn zip_entry_meta(a: &mut Archive, i: usize) -> (r: Result<(Vec<u8>, String, bool), String>)
    ensures
        zip_entries(*final(a)) == zip_entries(*old(a)),
        r is Ok <==> (i < zip_entries(*old(a)).len() && zip_entries(*old(a))[i as int].3),
        r matches Ok(m) ==> i < zip_entries(*old(a)).len() && m.0@ == zip_entries(*old(a))[i as int].0 && m.1@
            == zip_entries(*old(a))[i as int].1 && m.2 == dir_name(m.1@),
{
    let e = a.by_index(i).map_err(|e| format!("{}", e))?;
    Ok((e.name_raw().to_vec(), e.name().to_string(), e.is_dir()))
}

/// Reads the bytes of entry `i` (`ZipArchive::by_index`, then
/// `read_to_end`).
#[verifier::external_body]
fn zip_entry_data(a: &mut Archive, i: usize) -> (r: Result<Vec<u8>, String>)
    ensures
        zip_entries(*final(a)) == zip_entries(*old(a)),
        r is Ok <==> (i < zip_entries(*old(a)).len() && zip_entries(*old(a))[i as int].2 is Some),
        r matches Ok(d) ==> zip_entries(*old(a))[i as int].2 == Some(d@),
{
    let mut e = a.by_index(i).map_err(|e| format!("{}", e))?;
    let mut buf = Vec::new();
    e.read_to_end(&mut buf).map_err(|e| format!("{}", e))?;
    Ok(buf)
}

/// Calls `std::str::from_utf8`, which accepts exactly valid UTF-8.
#[verifier::external_body]
fn utf8_text(b: &[u8]) -> (r: Option<String>)
    ensures
        r is Some <==> valid_utf8(b@),
        r matches Some(s) ==> s@ == decode_utf8(b@),
{
    std::str::from_utf8(b).ok().map(|s| s.to_string())
}

/// `s` with every `\` turned into `/`.
pub open spec fn slashes(s: Seq<char>) -> Seq<char> {
    s.map_values(|c: char| if c == '\\' { '/' } else { c })
}

/// `s` without any leading `./` pieces.
pub open spec fn strip_dot_slash(s: Seq<char>) -> Seq<char>
    decreases s.len(),
{
    if s.len() >= 2 && s[0] == '.' && s[1] == '/' {
        strip_dot_slash(s.subrange(2, s.len() as int))
    } else {
        s
    }
}

/// The normalised name of an entry: its raw bytes read as UTF-8 when they
/// are, the crate's decoding otherwise; `/` as separator; no leading `./`.
pub open spec fn entry_name_spec(raw: Seq<u8>, name: Seq<char>) -> Seq<char> {
    let s = if valid_utf8(raw) {
        decode_utf8(raw)
    } else {
        name
    };
    strip_dot_slash(slashes(s))
}

/// Normalises an entry name (see [`entry_name_spec`]).
#[verifier::spinoff_prover]
pub fn entry_name(raw: &[u8], name: &str) -> (r: Vec<char>)
    ensures
        r@ == entry_name_spec(raw@, name@),
{
    let s = match utf8_text(raw) {
        Some(t) => chars_of(t.as_str()),
        None => chars_of(name),
    };
    let ghost src = s@;
    let mut v: Vec<char> = Vec::new();
    let mut i: usize = 0;
    while i < s.len()
        invariant
            src == s@,
            i <= s@.len(),
            v@ == slashes(s@).subrange(0, i as int),
        decreases s@.len() - i,
    {
        let c = if s[i] == '\\' {
            '/'
        } else {
            s[i]
        };
        v.push(c);
        proof {
            assert(v@ =~= slashes(s@).subrange(0, i + 1));
        }
        i += 1;
    }
    proof {
        assert(slashes(s@).subrange(0, s@.len() as int) =~= slashes(s@));
    }
    let mut k: usize = 0;
    while k < v.len() && v.len() - k > 1 && v[k] == '.' && v[k + 1] == '/'
        invariant
            k <= v@.len(),
            strip_dot_slash(v@.subrange(k as int, v@.len() as int)) == strip_dot_slash(v@),
        decreases v@.len() - k,
    {
        proof {
            let t = v@.subrange(k as int, v@.len() as int);
            assert(t.subrange(2, t.len() as int) =~= v@.subrange(k + 2, v@.len() as int));
        }
        k += 2;
    }
    let mut out: Vec<char> = Vec::new();
    let mut j = k;
    proof {
        let t = v@.subrange(k as int, v@.len() as int);
        assert(strip_dot_slash(t) == t);
    }
    while j < v.len()
        invariant
            k <= j <= v@.len(),
            out@ == v@.subrange(k as int, j as int),
        decreases v@.len() - j,
    {
        out.push(v[j]);
        proof {
            assert(out@ =~= v@.subrange(k as int, j + 1));
        }
        j += 1;
    }
    out
}

/// The animation name an entry stands for: for a name ending in `.webm` (any
/// ASCII case), its last `/`-separated piece without that ending (the whole
/// piece when nothing precedes the ending).
pub open spec fn webm_stem(n: Seq<char>) -> Option<Seq<char>> {
    let l = lower_seq(n);
    if n.len() >= 5 && l.subrange(n.len() - 5, n.len() as int) == codes(".webm"@) {
        let start = match crate::control::last_index_of(n, '/') {
            Some(k) => k + 1,
            None => 0,
        };
        let piece = n.subrange(start, n.len() as int);
        if piece.len() > 5 {
            Some(piece.subrange(0, piece.len() - 5))
        } else {
            Some(piece)
        }
    } else {
        None
    }
}

/// Whether the lower-cased `v` ends with `lit`.
fn lower_ends_with(v: &Vec<char>, lit: &str) -> (r: bool)
    ensures
        r == (lit@.len() <= v@.len() && lower_seq(v@).subrange(v@.len() - lit@.len(), v@.len() as int) == codes(lit@)),
{
    let l = chars_of(lit);
    if l.len() > v.len() {
        return false;
    }
    let off = v.len() - l.len();
    let mut i: usize = 0;
    while i < l.len()
        invariant
            l@ == lit@,
            v@.len() == v.len(),
            l@.len() <= v@.len(),
            off == v@.len() - l@.len(),
            i <= l@.len(),
            forall|k: int| 0 <= k < i ==> crate::control::ascii_lower(v@[off + k]) == l@[k] as u32,
        decreases l@.len() - i,
    {
        let c = v[off + i];
        let lc: u32 = if 'A' <= c && c <= 'Z' {
            c as u32 + 32
        } else {
            c as u32
        };
        if lc != l[i] as u32 {
            assert(lower_seq(v@).subrange(off as int, v@.len() as int)[i as int] != codes(lit@)[i as int]);
            return false;
        }
        i += 1;
    }
    assert(lower_seq(v@).subrange(off as int, v@.len() as int) =~= codes(lit@));
    true
}

/// The animation name of an entry name (see [`webm_stem`]).
pub fn stem_of(n: &Vec<char>) -> (r: Option<Vec<char>>)
    ensures
        match webm_stem(n@) {
            Some(s) => r matches Some(x) && x@ == s,
            None => r is None,
        },
{
    if !lower_ends_with(n, ".webm") {
        proof {
            reveal_strlit(".webm");
            assert(".webm"@.len() == 5);
        }
        return None;
    }
    proof {
        reveal_strlit(".webm");
        assert(".webm"@.len() == 5);
    }
    let mut k = n.len();
    proof {
        assert(n@.subrange(0, k as int) =~= n@);
    }
    while k > 0 && n[k - 1] != '/'
        invariant
            k <= n@.len(),
            crate::control::last_index_of(n@.subrange(0, k as int), '/') == crate::control::last_index_of(n@, '/'),
        decreases k,
    {
        proof {
            assert(n@.subrange(0, k as int).drop_last() =~= n@.subrange(0, k - 1));
        }
        k -= 1;
    }
    proof {
        if k > 0 {
            assert(n@.subrange(0, k as int).last() == '/');
        }
    }
    let end = if n.len() - k > 5 {
        n.len() - 5
    } else {
        n.len()
    };
    let mut out: Vec<char> = Vec::new();
    let mut j = k;
    while j < end
        invariant
            k <= j <= end <= n@.len(),
            out@ == n@.subrange(k as int, j as int),
        decreases end - j,
    {
        out.push(n[j]);
        proof {
            assert(out@ =~= n@.subrange(k as int, j + 1));
        }
        j += 1;
    }
    proof {
        let piece = n@.subrange(k as int, n@.len() as int);
        if piece.len() > 5 {
            assert(out@ =~= piece.subrange(0, piece.len() - 5));
        } else {
            assert(out@ =~= piece);
        }
    }
    Some(out)
}

/// The animation entries of an archive, in order: index and animation name
/// of every entry that is not a directory, whose normalised name ends in
/// `.webm` and whose animation name is not empty.
pub open spec fn webm_entries_upto(e: Seq<(Seq<u8>, Seq<char>, Option<Seq<u8>>, bool)>, n: int) -> Seq<(usize, Seq<char>)>
    decreases n,
{
    if n <= 0 {
        Seq::empty()
    } else {
        let prev = webm_entries_upto(e, n - 1);
        let x = e[n - 1];
        if dir_name(x.1) {
            prev
        } else {
            match webm_stem(entry_name_spec(x.0, x.1)) {
                Some(st) => if st.len() > 0 {
                    prev.push(((n - 1) as usize, st))
                } else {
                    prev
                },
                None => prev,
            }
        }
    }
}

pub open spec fn stems_view(v: Seq<(usize, Vec<char>)>) -> Seq<(usize, Seq<char>)> {
    v.map_values(|p: (usize, Vec<char>)| (p.0, p.1@))
}

/// Lists the animation entries of an archive (see [`webm_entries_upto`]);
/// fails exactly when an entry cannot be opened.
pub fn collect_webm_entries(a: &mut Archive) -> (r: Result<Vec<(usize, Vec<char>)>, String>)
    ensures
        zip_entries(*final(a)) == zip_entries(*old(a)),
        r is Ok <==> forall|k: int| 0 <= k < zip_entries(*old(a)).len() ==> (#[trigger] zip_entries(*old(a))[k]).3,
        r matches Ok(v) ==> stems_view(v@) == webm_entries_upto(zip_entries(*old(a)), zip_entries(*old(a)).len() as int),
{
    let ghost e = zip_entries(*a);
    let n = zip_len(a);
    let mut out: Vec<(usize, Vec<char>)> = Vec::new();
    let mut i: usize = 0;
    proof {
        assert(stems_view(out@) =~= Seq::<(usize, Seq<char>)>::empty());
    }
    while i < n
        invariant
            e == zip_entries(*a),
            e == zip_entries(*old(a)),
            n == e.len(),
            i <= n,
            stems_view(out@) == webm_entries_upto(e, i as int),
            forall|k: int| 0 <= k < i ==> (#[trigger] e[k]).3,
        decreases n - i,
    {
        let (raw, name, is_dir) = match zip_entry_meta(a, i) {
            Ok(m) => m,
            Err(msg) => {
                assert(!e[i as int].3);
                return Err(msg);
            },
        };
        if !is_dir {
            let full = entry_name(raw.as_slice(), name.as_str());
            match stem_of(&full) {
                Some(st) => {
                    if st.len() > 0 {
                        let ghost before = out@;
                        out.push((i, st));
                        proof {
                            assert(stems_view(out@) =~= stems_view(before).push((i, out@[before.len() as int].1@)));
                        }
                    }
                },
                None => {},
            }
        }
        i += 1;
    }
    Ok(out)
}

/// Why an animation entry was left out.
pub enum SkipReason {
    /// Another entry earlier in the archive has the same animation name.
    Duplicate,
    /// The entry is not a WebM animation this player can read.
    NotWebm,
    /// The entry could not be read; the message says why.
    ReadFailed(String),
}

/// The kept animations and the skipped ones after the first `n` entries:
/// the first entry of each name is read, and kept when it parses as WebM.
pub open spec fn kept_upto(
    z: Seq<(Seq<u8>, Seq<char>, Option<Seq<u8>>, bool)>,
    c: Seq<(usize, Seq<char>)>,
    n: int,
) -> (Seq<(usize, Seq<char>)>, Seq<(Seq<char>, int)>)
    decreases n,
{
    if n <= 0 {
        (Seq::empty(), Seq::empty())
    } else {
        let prev = kept_upto(z, c, n - 1);
        let x = c[n - 1];
        if exists|j: int| 0 <= j < n - 1 && (#[trigger] c[j]).1 == x.1 {
            (prev.0, prev.1.push((x.1, 0)))
        } else if (x.0 as int) < z.len() && z[x.0 as int].2 is Some {
            if spec_parse(z[x.0 as int].2->0) is Some {
                (prev.0.push(x), prev.1)
            } else {
                (prev.0, prev.1.push((x.1, 1)))
            }
        } else {
            (prev.0, prev.1.push((x.1, 2)))
        }
    }
}

/// Kind number of a skip reason: 0 duplicate, 1 not WebM, 2 unreadable.
pub open spec fn skip_kind(r: SkipReason) -> int {
    match r {
        SkipReason::Duplicate => 0,
        SkipReason::NotWebm => 1,
        SkipReason::ReadFailed(_) => 2,
    }
}

pub open spec fn skips_view(v: Seq<(Vec<char>, SkipReason)>) -> Seq<(Seq<char>, int)> {
    v.map_values(|p: (Vec<char>, SkipReason)| (p.0@, skip_kind(p.1)))
}

fn copy_chars(v: &Vec<char>) -> (r: Vec<char>)
    ensures
        r@ == v@,
{
    let mut r: Vec<char> = Vec::new();
    let mut i: usize = 0;
    while i < v.len()
        invariant
            i <= v@.len(),
            r@ == v@.subrange(0, i as int),
        decreases v@.len() - i,
    {
        r.push(v[i]);
        proof {
            assert(r@ =~= v@.subrange(0, i + 1));
        }
        i += 1;
    }
    assert(r@ =~= v@);
    r
}

/// Keeps the first entry of each animation name when it parses as WebM, and
/// reports the others (see [`kept_upto`]).
pub fn select_entries(a: &mut Archive, c: &Vec<(usize, Vec<char>)>) -> (r: (Vec<(usize, Vec<char>)>, Vec<(Vec<char>, SkipReason)>))
    ensures
        zip_entries(*final(a)) == zip_entries(*old(a)),
        stems_view(r.0@) == kept_upto(zip_entries(*old(a)), stems_view(c@), c@.len() as int).0,
        skips_view(r.1@) == kept_upto(zip_entries(*old(a)), stems_view(c@), c@.len() as int).1,
{
    let ghost z = zip_entries(*a);
    let ghost cv = stems_view(c@);
    let mut kept: Vec<(usize, Vec<char>)> = Vec::new();
    let mut skipped: Vec<(Vec<char>, SkipReason)> = Vec::new();
    let mut i: usize = 0;
    proof {
        assert(stems_view(kept@) =~= Seq::<(usize, Seq<char>)>::empty());
        assert(skips_view(skipped@) =~= Seq::<(Seq<char>, int)>::empty());
    }
    while i < c.len()
        invariant
            z == zip_entries(*a),
            z == zip_entries(*old(a)),
            cv == stems_view(c@),
            i <= c@.len(),
            stems_view(kept@) == kept_upto(z, cv, i as int).0,
            skips_view(skipped@) == kept_upto(z, cv, i as int).1,
        decreases c@.len() - i,
    {
        let x = &c[i];
        let mut dup = false;
        let mut j: usize = 0;
        while j < i && !dup
            invariant
                cv == stems_view(c@),
                i < c@.len(),
                j <= i,
                dup ==> exists|k: int| 0 <= k < i && (#[trigger] cv[k]).1 == cv[i as int].1,
                !dup ==> forall|k: int| 0 <= k < j ==> (#[trigger] cv[k]).1 != cv[i as int].1,
            decreases i - j + (if dup { 0int } else { 1int }),
        {
            proof {
                assert(cv[j as int] == (c@[j as int].0, c@[j as int].1@));
                assert(cv[i as int] == (c@[i as int].0, c@[i as int].1@));
            }
            if vec_chars_eq(&c[j].1, &c[i].1) {
                assert(cv[j as int].1 == cv[i as int].1);
                dup = true;
            } else {
                j += 1;
            }
        }
        proof {
            assert(cv[i as int] == (x.0, x.1@));
        }
        if dup {
            let ghost before = skipped@;
            skipped.push((copy_chars(&x.1), SkipReason::Duplicate));
            proof {
                assert(skips_view(skipped@) =~= skips_view(before).push((x.1@, 0)));
            }
        } else {
            match zip_entry_data(a, x.0) {
                Ok(data) => {
                    if crate::webm::WebM::parse(data.as_slice()).is_some() {
                        let ghost before = kept@;
                        kept.push((x.0, copy_chars(&x.1)));
                        proof {
                            assert(stems_view(kept@) =~= stems_view(before).push(cv[i as int]));
                        }
                    } else {
                        let ghost before = skipped@;
                        skipped.push((copy_chars(&x.1), SkipReason::NotWebm));
                        proof {
                            assert(skips_view(skipped@) =~= skips_view(before).push((x.1@, 1)));
                        }
                    }
                },
                Err(msg) => {
                    let ghost before = skipped@;
                    skipped.push((copy_chars(&x.1), SkipReason::ReadFailed(msg)));
                    proof {
                        assert(skips_view(skipped@) =~= skips_view(before).push((x.1@, 2)));
                    }
                },
            }
        }
        i += 1;
    }
    (kept, skipped)
}

/// Whether two character vectors are equal.
fn vec_chars_eq(a: &Vec<char>, b: &Vec<char>) -> (r: bool)
    ensures
        r == (a@ == b@),
{
    if a.len() != b.len() {
        return false;
    }
    let mut i: usize = 0;
    while i < a.len()
        invariant
            a@.len() == b@.len(),
            i <= a@.len(),
            forall|k: int| 0 <= k < i ==> a@[k] == b@[k],
        decreases a@.len() - i,
    {
        if a[i] != b[i] {
            assert(a@[i as int] != b@[i as int]);
            return false;
        }
        i += 1;
    }
    assert(a@ =~= b@);
    true
}

/// Whether an entry name is a manifest: it ends with `manifest.yaml` or
/// `manifest.yml` (any ASCII case).
pub open spec fn is_manifest_name(n: Seq<char>) -> bool {
    let l = lower_seq(n);
    ||| ("manifest.yaml"@.len() <= n.len() && l.subrange(n.len() - "manifest.yaml"@.len(), n.len() as int)
        == codes("manifest.yaml"@))
    ||| ("manifest.yml"@.len() <= n.len() && l.subrange(n.len() - "manifest.yml"@.len(), n.len() as int)
        == codes("manifest.yml"@))
}

/// Whether entry `i` is where the manifest search ends with a manifest:
/// every earlier entry opens and is a directory or no manifest, and entry
/// `i` opens, is no directory, is named as a manifest and can be read.
pub open spec fn manifest_at(e: Seq<(Seq<u8>, Seq<char>, Option<Seq<u8>>, bool)>, i: int) -> bool {
    &&& 0 <= i < e.len()
    &&& e[i].3
    &&& !dir_name(e[i].1)
    &&& is_manifest_name(entry_name_spec(e[i].0, e[i].1))
    &&& e[i].2 is Some
    &&& forall|k: int|
        0 <= k < i ==> (#[trigger] e[k]).3 && (dir_name(e[k].1) || !is_manifest_name(entry_name_spec(e[k].0, e[k].1)))
}

/// Finds the manifest: entries are opened in order and directories skipped;
/// the first manifest's bytes are returned; nothing is returned when an entry
/// before it cannot be opened, when it cannot be read, or when there is none.
pub fn find_manifest(a: &mut Archive) -> (r: Option<Vec<u8>>)
    ensures
        zip_entries(*final(a)) == zip_entries(*old(a)),
        r is Some <==> exists|i: int| #[trigger] manifest_at(zip_entries(*old(a)), i),
        r matches Some(d) ==> exists|i: int|
            #[trigger] manifest_at(zip_entries(*old(a)), i) && zip_entries(*old(a))[i].2 == Some(d@),
{
    let ghost e = zip_entries(*a);
    let n = zip_len(a);
    let mut i: usize = 0;
    while i < n
        invariant
            e == zip_entries(*a),
            e == zip_entries(*old(a)),
            n == e.len(),
            i <= n,
            forall|k: int|
                0 <= k < i ==> (#[trigger] e[k]).3 && (dir_name(e[k].1) || !is_manifest_name(
                    entry_name_spec(e[k].0, e[k].1),
                )),
        decreases n - i,
    {
        let (raw, name, is_dir) = match zip_entry_meta(a, i) {
            Ok(m) => m,
            Err(_) => {
                proof {
                    assert(!e[i as int].3);
                    assert forall|j: int| !#[trigger] manifest_at(e, j) by {
                        if 0 <= j < e.len() && j > i {
                            assert(!e[i as int].3);
                        }
                    }
                }
                return None;
            },
        };
        if !is_dir {
            let full = entry_name(raw.as_slice(), name.as_str());
            if lower_ends_with(&full, "manifest.yaml") || lower_ends_with(&full, "manifest.yml") {
                proof {
                    assert(is_manifest_name(entry_name_spec(e[i as int].0, e[i as int].1)));
                }
                return match zip_entry_data(a, i) {
                    Ok(d) => {
                        proof {
                            assert(manifest_at(e, i as int));
                        }
                        Some(d)
                    },
                    Err(_) => {
                        proof {
                            assert forall|j: int| !#[trigger] manifest_at(e, j) by {
                                if 0 <= j < e.len() && j > i {
                                    let x = e[i as int];
                                    assert(!(dir_name(x.1) || !is_manifest_name(entry_name_spec(x.0, x.1))));
                                }
                            }
                        }
                        None
                    },
                };
            }
        }
        i += 1;
    }
    proof {
        assert forall|j: int| !#[trigger] manifest_at(e, j) by {
            if 0 <= j < e.len() {
                assert(dir_name(e[j].1) || !is_manifest_name(entry_name_spec(e[j].0, e[j].1)));
            }
        }
    }
    None
}


/// Reads the bytes of entry `idx`.
pub fn read_entry(a: &mut Archive, idx: usize) -> (r: Result<Vec<u8>, String>)
    ensures
        zip_entries(*final(a)) == zip_entries(*old(a)),
        r is Ok <==> (idx < zip_entries(*old(a)).len() && zip_entries(*old(a))[idx as int].2 is Some),
        r matches Ok(d) ==> zip_entries(*old(a))[idx as int].2 == Some(d@),
{
    zip_entry_data(a, idx)
}

/// Why an archive cannot be imported.
pub enum ImportError {
    /// The bytes are not a readable archive; the message says why.
    BadArchive(String),
    /// An entry could not be opened; the message says why.
    BadEntry(String),
    /// No entry is an animation.
    NoWebm,
    /// None of the animation entries (this many) could be kept.
    AllInvalid(usize),
}

/// What an archive offers for import: the animations kept (entry index and
/// name), the ones skipped and why, the manifest's bytes if there is one, and
/// the archive itself for extraction.
pub struct ArchiveScan {
    pub archive: Archive,
    pub kept: Vec<(usize, Vec<char>)>,
    pub skipped: Vec<(Vec<char>, SkipReason)>,
    pub manifest: Option<Vec<u8>>,
}

/// Whether some entry of the archive does not open.
pub open spec fn some_entry_fails(z: Seq<(Seq<u8>, Seq<char>, Option<Seq<u8>>, bool)>) -> bool {
    exists|k: int| 0 <= k < z.len() && !(#[trigger] z[k]).3
}

/// Reads an archive for import: it must be readable, every entry must open,
/// some entry must be an animation and some animation must be kept.
pub fn scan_archive(bytes: &[u8]) -> (r: Result<ArchiveScan, ImportError>)
    ensures
        zip_listing(bytes@) is None <==> (r matches Err(ImportError::BadArchive(_))),
        (r matches Err(ImportError::BadEntry(_))) <==> (zip_listing(bytes@) matches Some(z) && some_entry_fails(z)),
        r matches Err(ImportError::NoWebm) ==> zip_listing(bytes@) matches Some(z) && webm_entries_upto(z, z.len() as int).len() == 0,
        r matches Err(ImportError::AllInvalid(n)) ==> zip_listing(bytes@) matches Some(z) && n == webm_entries_upto(z, z.len() as int).len()
            && n > 0 && kept_upto(z, webm_entries_upto(z, z.len() as int), n as int).0.len() == 0,
        r matches Ok(sc) ==> zip_listing(bytes@) == Some(zip_entries(sc.archive)) && ({
            let z = zip_entries(sc.archive);
            let c = webm_entries_upto(z, z.len() as int);
            &&& stems_view(sc.kept@) == kept_upto(z, c, c.len() as int).0
            &&& skips_view(sc.skipped@) == kept_upto(z, c, c.len() as int).1
            &&& sc.kept@.len() > 0
        }),
{
    let mut a = match zip_open(bytes) {
        Ok(a) => a,
        Err(msg) => return Err(ImportError::BadArchive(msg)),
    };
    let ghost z0 = zip_entries(a);
    let entries = match collect_webm_entries(&mut a) {
        Ok(e) => e,
        Err(msg) => {
            proof {
                assert(!forall|k: int| 0 <= k < z0.len() ==> (#[trigger] z0[k]).3);
                let k = choose|k: int| 0 <= k < z0.len() && !(#[trigger] z0[k]).3;
                assert(0 <= k < z0.len() && !z0[k].3);
                assert(zip_listing(bytes@) == Some(z0));
                assert(some_entry_fails(z0));
            }
            return Err(ImportError::BadEntry(msg));
        },
    };
    if entries.len() == 0 {
        return Err(ImportError::NoWebm);
    }
    let (kept, skipped) = select_entries(&mut a, &entries);
    if kept.len() == 0 {
        return Err(ImportError::AllInvalid(entries.len()));
    }
    let manifest = find_manifest(&mut a);
    Ok(ArchiveScan { archive: a, kept, skipped, manifest })
}

// ---------------- building a pet from videos ----------------

/// Why a batch of videos cannot become a pet.
#[derive(Clone, Copy, Debug, PartialEq, Eq, Structural)]
pub enum VideoImportError {
    /// The name, the idle action or the list of videos is missing.
    Missing,
    /// The idle action names none of the videos.
    UnknownIdle,
}

/// Checks a request to build a pet named `name` from `videos` (file, action)
/// with idle action `idle`; on success returns the index of the idle video:
/// the first whose file is `idle`, else the first.
pub fn check_video_import(name: &str, idle: &str, videos: &Vec<(String, String)>) -> (r: Result<usize, VideoImportError>)
    ensures
        (crate::text::trim_seq(name@).len() == 0 || crate::text::trim_seq(idle@).len() == 0 || videos@.len() == 0)
            ==> r == Err::<usize, VideoImportError>(VideoImportError::Missing),
        !(crate::text::trim_seq(name@).len() == 0 || crate::text::trim_seq(idle@).len() == 0 || videos@.len() == 0)
            ==> {
            if !(exists|i: int| 0 <= i < videos@.len() && ((#[trigger] videos@[i]).1@ == idle@ || videos@[i].0@ == idle@)) {
                r == Err::<usize, VideoImportError>(VideoImportError::UnknownIdle)
            } else {
                r matches Ok(k) && k < videos@.len() && (if exists|i: int| 0 <= i < videos@.len() && (#[trigger] videos@[i]).0@ == idle@ {
                    videos@[k as int].0@ == idle@ && forall|j: int| 0 <= j < k ==> (#[trigger] videos@[j]).0@ != idle@
                } else {
                    k == 0
                })
            }
        },
{
    let nv = chars_of(name);
    let iv = chars_of(idle);
    let (a, b) = crate::text::trim_bounds(&nv, 0, nv.len());
    let (c, d) = crate::text::trim_bounds(&iv, 0, iv.len());
    proof {
        assert(nv@.subrange(0, nv@.len() as int) =~= name@);
        assert(iv@.subrange(0, iv@.len() as int) =~= idle@);
    }
    if a == b || c == d || videos.len() == 0 {
        return Err(VideoImportError::Missing);
    }
    let mut found = false;
    let mut i: usize = 0;
    while i < videos.len() && !found
        invariant
            i <= videos@.len(),
            found ==> exists|k: int| 0 <= k < videos@.len() && ((#[trigger] videos@[k]).1@ == idle@ || videos@[k].0@ == idle@),
            !found ==> forall|k: int| 0 <= k < i ==> !((#[trigger] videos@[k]).1@ == idle@ || videos@[k].0@ == idle@),
        decreases videos@.len() - i + (if found { 0int } else { 1int }),
    {
        if str_eq(videos[i].1.as_str(), idle) || str_eq(videos[i].0.as_str(), idle) {
            assert(videos@[i as int].1@ == idle@ || videos@[i as int].0@ == idle@);
            found = true;
        } else {
            i += 1;
        }
    }
    if !found {
        return Err(VideoImportError::UnknownIdle);
    }
    let mut k: usize = 0;
    while k < videos.len() && !str_eq(videos[k].0.as_str(), idle)
        invariant
            k <= videos@.len(),
            forall|j: int| 0 <= j < k ==> (#[trigger] videos@[j]).0@ != idle@,
        decreases videos@.len() - k,
    {
        k += 1;
    }
    if k < videos.len() {
        Ok(k)
    } else {
        Ok(0)
    }
}

// ---------------- pet ids ----------------

/// The id of a pet imported at `ms` milliseconds after the Unix epoch:
/// `pet_` and that number in decimal.
pub open spec fn pet_id_text(ms: nat) -> Seq<char> {
    "pet_"@ + dec_digits(ms)
}

/// The id for a pet imported at `ms` milliseconds after the Unix epoch.
pub fn new_pet_id(ms: u64) -> (r: String)
    ensures
        r@ == pet_id_text(ms as nat),
{
    let mut s = String::from_str("pet_");
    push_decimal(&mut s, ms);
    s
}

/// The id of a newly imported pet is a safe path component, so the control
/// API's id check accepts it.
pub proof fn new_pet_ids_are_safe_components(ms: nat)
    ensures
        safe_component(pet_id_text(ms)),
{
    reveal_strlit("pet_");
    let p = "pet_"@;
    let t = pet_id_text(ms);
    let d = dec_digits(ms);
    lemma_dec_digits_are_digits(ms);
    assert(p =~= seq!['p', 'e', 't', '_']);
    assert forall|i: int| 0 <= i < t.len() implies #[trigger] t[i] != '/' && t[i] != '\\' && t[i] != '.' by {
        if i >= 4 {
            assert(t[i] == d[i - 4]);
            assert(is_digit(d[i - 4]));
        }
    }
    assert(!has_char(t, '/'));
    assert(!has_char(t, '\\'));
    assert(!has_dotdot(t));
}

/// Every candidate entry is either kept or reported as skipped; the kept
/// ones are candidates, in order, each read back to a WebM this player can
/// parse, and no two of them share an animation name.
pub proof fn imported_animations_are_distinct_and_valid(
    z: Seq<(Seq<u8>, Seq<char>, Option<Seq<u8>>, bool)>,
    c: Seq<(usize, Seq<char>)>,
    n: int,
)
    requires
        0 <= n <= c.len(),
    ensures
        ({
            let k = kept_upto(z, c, n);
            &&& k.0.len() + k.1.len() == n
            &&& forall|i: int| 0 <= i < k.0.len() ==> exists|j: int| 0 <= j < n && c[j] == #[trigger] k.0[i]
            &&& forall|i: int|
                0 <= i < k.0.len() ==> (#[trigger] k.0[i]).0 < z.len() && z[k.0[i].0 as int].2 is Some && spec_parse(
                    z[k.0[i].0 as int].2->0,
                ) is Some
            &&& forall|i: int, j: int| 0 <= i < j < k.0.len() ==> (#[trigger] k.0[i]).1 != (#[trigger] k.0[j]).1
        }),
    decreases n,
{
    if n > 0 {
        imported_animations_are_distinct_and_valid(z, c, n - 1);
        let p = kept_upto(z, c, n - 1);
        let k = kept_upto(z, c, n);
        let x = c[n - 1];
        if exists|j: int| 0 <= j < n - 1 && (#[trigger] c[j]).1 == x.1 {
            assert forall|i: int| 0 <= i < k.0.len() implies exists|j: int| 0 <= j < n && c[j] == #[trigger] k.0[i] by {
                let j = choose|j: int| 0 <= j < n - 1 && c[j] == p.0[i];
                assert(c[j] == k.0[i]);
            }
        } else if (x.0 as int) < z.len() && z[x.0 as int].2 is Some && spec_parse(z[x.0 as int].2->0) is Some {
            assert(k.0 == p.0.push(x));
            assert forall|i: int| 0 <= i < k.0.len() implies exists|j: int| 0 <= j < n && c[j] == #[trigger] k.0[i] by {
                if i < p.0.len() {
                    let j = choose|j: int| 0 <= j < n - 1 && c[j] == p.0[i];
                    assert(c[j] == k.0[i]);
                } else {
                    assert(c[n - 1] == k.0[i]);
                }
            }
            assert forall|i: int, j: int| 0 <= i < j < k.0.len() implies (#[trigger] k.0[i]).1 != (#[trigger] k.0[j]).1 by {
                if j == k.0.len() - 1 {
                    let jj = choose|jj: int| 0 <= jj < n - 1 && c[jj] == p.0[i];
                    assert(k.0[i] == p.0[i]);
                    assert(c[jj].1 != x.1);
                } else {
                    assert(k.0[i] == p.0[i] && k.0[j] == p.0[j]);
                }
            }
        } else {
            assert forall|i: int| 0 <= i < k.0.len() implies exists|j: int| 0 <= j < n && c[j] == #[trigger] k.0[i] by {
                let j = choose|j: int| 0 <= j < n - 1 && c[j] == p.0[i];
                assert(c[j] == k.0[i]);
            }
        }
    }
}

} // verus!

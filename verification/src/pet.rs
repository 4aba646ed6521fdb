//! The pet's action pools and the decisions taken on them: which actions
//! belong to which state, which answer a click or a drag, which one is the
//! idle reference, and how a requested action name is resolved. Weights are
//! carried through unchanged, whatever their type.

use vstd::prelude::*;
use crate::db::ActionRow;
use crate::text::{chars_of, trim_bounds, trim_seq, str_eq};
use crate::control::{codes, lower_seq};
use crate::menu::MenuEntry;
use vstd::string::StringExecFns;

verus! {

// ---------------- model ----------------

/// An action name with its weight.
pub open spec fn entry_view<W>(e: (String, W)) -> (Seq<char>, W) {
    (e.0@, e.1)
}

pub open spec fn entries_view<W>(v: Seq<(String, W)>) -> Seq<(Seq<char>, W)> {
    v.map_values(|e: (String, W)| entry_view(e))
}

/// The pools as a list of states, each with its actions in order.
pub open spec fn pools_view<W>(v: Seq<(String, Vec<(String, W)>)>) -> Seq<(Seq<char>, Seq<(Seq<char>, W)>)> {
    v.map_values(|p: (String, Vec<(String, W)>)| (p.0@, entries_view(p.1@)))
}

pub open spec fn names_view(v: Seq<String>) -> Seq<Seq<char>> {
    v.map_values(|s: String| s@)
}

/// Index of the first entry with key `k`, or the length.
pub open spec fn find_key<V>(m: Seq<(Seq<char>, V)>, k: Seq<char>) -> int
    decreases m.len(),
{
    if m.len() == 0 {
        0
    } else if find_key(m.drop_last(), k) < m.len() - 1 {
        find_key(m.drop_last(), k)
    } else if m.last().0 == k {
        m.len() - 1
    } else {
        m.len() as int
    }
}

/// Appends `x` to the list of key `k`, adding the key at the end if new.
pub open spec fn assoc_push<W>(m: Seq<(Seq<char>, Seq<(Seq<char>, W)>)>, k: Seq<char>, x: (Seq<char>, W)) -> Seq<(Seq<char>, Seq<(Seq<char>, W)>)> {
    let i = find_key(m, k);
    if i < m.len() {
        m.update(i, (k, m[i].1.push(x)))
    } else {
        m.push((k, seq![x]))
    }
}

/// The list of key `k` (empty if absent).
pub open spec fn assoc_get<V>(m: Seq<(Seq<char>, Seq<V>)>, k: Seq<char>) -> Seq<V> {
    let i = find_key(m, k);
    if i < m.len() {
        m[i].1
    } else {
        Seq::empty()
    }
}

/// Keys occur once.
pub open spec fn distinct_keys<V>(m: Seq<(Seq<char>, V)>) -> bool {
    forall|i: int, j: int| 0 <= i < j < m.len() ==> (#[trigger] m[i]).0 != (#[trigger] m[j]).0
}

/// The row configured for action `name`: the last one naming it.
pub open spec fn row_for(actions: Seq<ActionRow>, name: Seq<char>) -> Option<ActionRow>
    decreases actions.len(),
{
    if actions.len() == 0 {
        None
    } else if actions.last().action@ == name {
        Some(actions.last())
    } else {
        row_for(actions.drop_last(), name)
    }
}

/// The state bindings `(state, weight, enabled)` of action `name`, in order.
pub open spec fn binds_for<W>(st: Seq<(String, String, W, bool)>, name: Seq<char>) -> Seq<(Seq<char>, W, bool)>
    decreases st.len(),
{
    if st.len() == 0 {
        Seq::empty()
    } else {
        let prev = binds_for(st.drop_last(), name);
        let b = st.last();
        if b.0@ == name {
            prev.push((b.1@, b.2, b.3))
        } else {
            prev
        }
    }
}

/// Adds action `name` to the pool of each enabled binding, in order.
pub open spec fn add_binds<W>(
    m: Seq<(Seq<char>, Seq<(Seq<char>, W)>)>,
    name: Seq<char>,
    b: Seq<(Seq<char>, W, bool)>,
) -> Seq<(Seq<char>, Seq<(Seq<char>, W)>)>
    decreases b.len(),
{
    if b.len() == 0 {
        m
    } else {
        let p = add_binds(m, name, b.drop_last());
        let x = b.last();
        if x.2 {
            assoc_push(p, x.0, (name, x.1))
        } else {
            p
        }
    }
}

/// The pools while they are being built.
pub struct PoolsModel<W> {
    pub pools: Seq<(Seq<char>, Seq<(Seq<char>, W)>)>,
    pub clicks: Seq<Seq<char>>,
    pub drag: Option<Seq<char>>,
}

/// The bindings of a state action: its own, or the idle pool with weight
/// `one` when it has none.
pub open spec fn effective_binds<W>(st: Seq<(String, String, W, bool)>, name: Seq<char>, one: W) -> Seq<(Seq<char>, W, bool)> {
    let b = binds_for(st, name);
    if b.len() == 0 {
        seq![("idle"@, one, true)]
    } else {
        b
    }
}

/// Places one action: disabled actions are skipped; interactive ones answer
/// a drag (the first `drag` only) or a click (everything else); other actions
/// join the pools of their bindings.
pub open spec fn place_action<W>(
    acc: PoolsModel<W>,
    name: Seq<char>,
    actions: Seq<ActionRow>,
    st: Seq<(String, String, W, bool)>,
    one: W,
) -> PoolsModel<W> {
    let row = row_for(actions, name);
    let owner = match row {
        Some(r) => r.owner_kind@,
        None => "state"@,
    };
    let enabled = match row {
        Some(r) => r.enabled,
        None => true,
    };
    if !enabled {
        acc
    } else if owner == "interactive"@ {
        let kind = match row {
            Some(r) => match r.kind {
                Some(k) => k@,
                None => Seq::empty(),
            },
            None => Seq::empty(),
        };
        if kind == "drag"@ && acc.drag is None {
            PoolsModel { drag: Some(name), ..acc }
        } else {
            PoolsModel { clicks: acc.clicks.push(name), ..acc }
        }
    } else {
        PoolsModel { pools: add_binds(acc.pools, name, effective_binds(st, name, one)), ..acc }
    }
}

/// The pools after placing the first `n` names.
pub open spec fn place_all<W>(
    names: Seq<Seq<char>>,
    n: int,
    actions: Seq<ActionRow>,
    st: Seq<(String, String, W, bool)>,
    one: W,
) -> PoolsModel<W>
    decreases n,
{
    if n <= 0 {
        PoolsModel { pools: Seq::empty(), clicks: Seq::empty(), drag: None }
    } else {
        place_action(place_all(names, n - 1, actions, st, one), names[n - 1], actions, st, one)
    }
}

/// The first action of the idle pool, if any.
pub open spec fn first_idle<W>(pools: Seq<(Seq<char>, Seq<(Seq<char>, W)>)>) -> Option<Seq<char>> {
    let p = assoc_get(pools, "idle"@);
    if p.len() > 0 {
        Some(p[0].0)
    } else {
        None
    }
}

// ---------------- pools ----------------

/// The pet's actions sorted by use: a weighted pool per state, the click
/// answers, the drag answer, and the idle reference action.
pub struct StatePools<W> {
    /// State id → actions with their weight in that state.
    pub pools: Vec<(String, Vec<(String, W)>)>,
    pub clicks: Vec<String>,
    pub drag: Option<String>,
    pub idle: Option<String>,
}

pub open spec fn opt_view(o: Option<String>) -> Option<Seq<char>> {
    match o {
        Some(s) => Some(s@),
        None => None,
    }
}

impl<W: Copy> StatePools<W> {
    /// Each state occurs once.
    pub open spec fn wf(&self) -> bool {
        distinct_keys(pools_view(self.pools@))
    }

    /// Index of state `id` in `self.pools`.
    fn find_state(&self, id: &str) -> (r: usize)
        ensures
            r == find_key(pools_view(self.pools@), id@),
    {
        let ghost m = pools_view(self.pools@);
        let mut i: usize = 0;
        while i < self.pools.len()
            invariant
                m == pools_view(self.pools@),
                i <= self.pools@.len(),
                forall|k: int| 0 <= k < i ==> (#[trigger] m[k]).0 != id@,
            decreases self.pools@.len() - i,
        {
            if str_eq(self.pools[i].0.as_str(), id) {
                proof {
                    lemma_find_key_first(m, id@, i as int);
                }
                return i;
            }
            i += 1;
        }
        proof {
            lemma_find_key_absent(m, id@);
        }
        i
    }

    /// The actions of state `state_id` with their weights (empty if absent).
    pub fn pool(&self, state_id: &str) -> (r: Vec<(String, W)>)
        ensures
            entries_view(r@) == assoc_get(pools_view(self.pools@), state_id@),
    {
        let i = self.find_state(state_id);
        let mut r: Vec<(String, W)> = Vec::new();
        if i < self.pools.len() {
            let src = &self.pools[i].1;
            let mut k: usize = 0;
            while k < src.len()
                invariant
                    k <= src@.len(),
                    r@.len() == k,
                    entries_view(r@) == entries_view(src@).subrange(0, k as int),
                decreases src@.len() - k,
            {
                let name = src[k].0.as_str().to_owned();
                let w = src[k].1;
                let ghost before = r@;
                r.push((name, w));
                proof {
                    assert(r@ == before.push((name, w)));
                    assert(entries_view(r@)[k as int] == (src@[k as int].0@, src@[k as int].1));
                    assert(entries_view(r@) =~= entries_view(src@).subrange(0, k + 1)) by {
                        assert forall|j: int| 0 <= j < k implies entries_view(r@)[j] == entries_view(before)[j] by {
                            assert(r@[j] == before[j]);
                        }
                    }
                }
                k += 1;
            }
            proof {
                assert(entries_view(src@).subrange(0, src@.len() as int) =~= entries_view(src@));
            }
        } else {
            proof {
                assert(entries_view(r@) =~= Seq::<(Seq<char>, W)>::empty());
            }
        }
        r
    }

    /// Makes sure an idle pool exists: without one, the idle reference action
    /// (if any) becomes an idle pool of its own with weight `one`, so the pet
    /// always has something to play.
    pub fn ensure_idle_pool(&mut self, one: W)
        requires
            old(self).wf(),
        ensures
            final(self).wf(),
            final(self).clicks@ == old(self).clicks@,
            final(self).drag == old(self).drag,
            final(self).idle == old(self).idle,
            find_key(pools_view(old(self).pools@), "idle"@) < old(self).pools@.len() ==> pools_view(
                final(self).pools@,
            ) == pools_view(old(self).pools@),
            find_key(pools_view(old(self).pools@), "idle"@) >= old(self).pools@.len() ==> pools_view(
                final(self).pools@,
            ) == match opt_view(old(self).idle) {
                Some(n) => pools_view(old(self).pools@).push(("idle"@, seq![(n, one)])),
                None => pools_view(old(self).pools@),
            },
    {
        let i = self.find_state("idle");
        if i >= self.pools.len() {
            match &self.idle {
                Some(n) => {
                    let name = n.as_str().to_owned();
                    let ghost before = pools_view(self.pools@);
                    let mut v: Vec<(String, W)> = Vec::new();
                    v.push((name, one));
                    self.pools.push(("idle".to_string(), v));
                    proof {
                        assert(entries_view(v@) =~= seq![(n@, one)]);
                        assert(pools_view(self.pools@) =~= before.push(("idle"@, seq![(n@, one)])));
                        lemma_find_key_absent_distinct(before, "idle"@);
                    }
                },
                None => {},
            }
        }
    }
}

proof fn lemma_find_key_range<V>(m: Seq<(Seq<char>, V)>, k: Seq<char>)
    ensures
        0 <= find_key(m, k) <= m.len(),
        find_key(m, k) < m.len() ==> m[find_key(m, k)].0 == k,
        forall|j: int| 0 <= j < find_key(m, k) ==> (#[trigger] m[j]).0 != k,
    decreases m.len(),
{
    if m.len() > 0 {
        lemma_find_key_range(m.drop_last(), k);
        assert forall|j: int| 0 <= j < find_key(m, k) implies (#[trigger] m[j]).0 != k by {
            if j < m.len() - 1 {
                assert(m.drop_last()[j] == m[j]);
            }
        }
    }
}

proof fn lemma_find_key_first<V>(m: Seq<(Seq<char>, V)>, k: Seq<char>, i: int)
    requires
        0 <= i < m.len(),
        m[i].0 == k,
        forall|j: int| 0 <= j < i ==> (#[trigger] m[j]).0 != k,
    ensures
        find_key(m, k) == i,
    decreases m.len(),
{
    lemma_find_key_range(m, k);
    if i < m.len() - 1 {
        lemma_find_key_first(m.drop_last(), k, i);
    } else {
        lemma_find_key_range(m.drop_last(), k);
    }
}

proof fn lemma_find_key_absent<V>(m: Seq<(Seq<char>, V)>, k: Seq<char>)
    requires
        forall|j: int| 0 <= j < m.len() ==> (#[trigger] m[j]).0 != k,
    ensures
        find_key(m, k) == m.len(),
{
    lemma_find_key_range(m, k);
}

proof fn lemma_find_key_absent_distinct<V>(m: Seq<(Seq<char>, V)>, k: Seq<char>)
    requires
        distinct_keys(m),
        find_key(m, k) >= m.len(),
    ensures
        forall|v: V| distinct_keys(#[trigger] m.push((k, v))),
{
    lemma_find_key_range(m, k);
    assert forall|v: V| distinct_keys(#[trigger] m.push((k, v))) by {
        let n = m.push((k, v));
        assert forall|i: int, j: int| 0 <= i < j < n.len() implies (#[trigger] n[i]).0 != (#[trigger] n[j]).0 by {
            if j == m.len() {
                assert(n[i] == m[i]);
            } else {
                assert(n[i] == m[i] && n[j] == m[j]);
            }
        }
    }
}


// ---------------- building ----------------

/// A copy of a string.
fn copy_str(s: &String) -> (r: String)
    ensures
        r@ == s@,
{
    s.as_str().to_owned()
}

/// Index of the row configured for `name`: the last one naming it.
fn row_index(actions: &Vec<ActionRow>, name: &String) -> (r: Option<usize>)
    ensures
        match r {
            Some(i) => i < actions@.len() && row_for(actions@, name@) == Some(actions@[i as int]),
            None => row_for(actions@, name@) is None,
        },
{
    let mut i = actions.len();
    proof {
        assert(actions@.subrange(0, i as int) =~= actions@);
    }
    while i > 0
        invariant
            i <= actions@.len(),
            row_for(actions@.subrange(0, i as int), name@) == row_for(actions@, name@),
        decreases i,
    {
        let ghost pre = actions@.subrange(0, i as int);
        if str_eq(actions[i - 1].action.as_str(), name.as_str()) {
            proof {
                assert(pre.last() == actions@[i - 1]);
            }
            return Some(i - 1);
        }
        proof {
            assert(pre.drop_last() =~= actions@.subrange(0, i - 1));
        }
        i -= 1;
    }
    proof {
        assert(actions@.subrange(0, 0) =~= Seq::<ActionRow>::empty());
    }
    None
}

pub open spec fn bind_view<W>(b: (String, W, bool)) -> (Seq<char>, W, bool) {
    (b.0@, b.1, b.2)
}

pub open spec fn binds_view<W>(v: Seq<(String, W, bool)>) -> Seq<(Seq<char>, W, bool)> {
    v.map_values(|b: (String, W, bool)| bind_view(b))
}

/// The bindings of `name`, in order.
fn bindings<W: Copy>(st: &Vec<(String, String, W, bool)>, name: &String) -> (r: Vec<(String, W, bool)>)
    ensures
        binds_view(r@) == binds_for(st@, name@),
{
    let mut r: Vec<(String, W, bool)> = Vec::new();
    let mut i: usize = 0;
    while i < st.len()
        invariant
            i <= st@.len(),
            binds_view(r@) == binds_for(st@.subrange(0, i as int), name@),
        decreases st@.len() - i,
    {
        let ghost pre = st@.subrange(0, i + 1);
        proof {
            assert(pre.drop_last() =~= st@.subrange(0, i as int));
            assert(pre.last() == st@[i as int]);
        }
        if str_eq(st[i].0.as_str(), name.as_str()) {
            let ghost before = r@;
            r.push((copy_str(&st[i].1), st[i].2, st[i].3));
            proof {
                assert(binds_view(r@) =~= binds_view(before).push((st@[i as int].1@, st@[i as int].2, st@[i as int].3)));
            }
        }
        i += 1;
    }
    proof {
        assert(st@.subrange(0, st@.len() as int) =~= st@);
    }
    r
}

/// Appends `(name, w)` to the pool of `state`, creating it at the end if new.
fn push_to_pool<W: Copy>(pools: &mut Vec<(String, Vec<(String, W)>)>, state: &String, name: &String, w: W)
    requires
        distinct_keys(pools_view(old(pools)@)),
    ensures
        pools_view(final(pools)@) == assoc_push(pools_view(old(pools)@), state@, (name@, w)),
        distinct_keys(pools_view(final(pools)@)),
{
    let ghost m = pools_view(pools@);
    let mut i: usize = 0;
    while i < pools.len() && !str_eq(pools[i].0.as_str(), state.as_str())
        invariant
            m == pools_view(pools@),
            i <= pools@.len(),
            forall|k: int| 0 <= k < i ==> (#[trigger] m[k]).0 != state@,
        decreases pools@.len() - i,
    {
        i += 1;
    }
    proof {
        lemma_find_key_range(m, state@);
        if i < pools@.len() {
            lemma_find_key_first(m, state@, i as int);
        } else {
            lemma_find_key_absent(m, state@);
        }
    }
    if i < pools.len() {
        let mut e = pools.remove(i);
        let ghost old_e = e;
        e.1.push((copy_str(name), w));
        proof {
            assert(entries_view(e.1@) =~= entries_view(old_e.1@).push((name@, w)));
        }
        pools.insert(i, e);
        proof {
            assert(pools_view(pools@) =~= m.update(i as int, (state@, m[i as int].1.push((name@, w))))) by {
                assert forall|k: int| 0 <= k < pools@.len() implies #[trigger] pools_view(pools@)[k] == m.update(
                    i as int,
                    (state@, m[i as int].1.push((name@, w))),
                )[k] by {
                    if k != i {
                        assert(pools@[k] == old(pools)@[k]);
                    }
                }
            }
            let n = pools_view(pools@);
            assert forall|a: int, b: int| 0 <= a < b < n.len() implies (#[trigger] n[a]).0 != (#[trigger] n[b]).0 by {
                assert(n[a].0 == m[a].0 && n[b].0 == m[b].0);
            }
        }
    } else {
        let mut v: Vec<(String, W)> = Vec::new();
        v.push((copy_str(name), w));
        let ghost before = pools@;
        pools.push((copy_str(state), v));
        proof {
            assert(entries_view(v@) =~= seq![(name@, w)]);
            assert(pools_view(pools@) =~= m.push((state@, seq![(name@, w)])));
            lemma_find_key_absent_distinct(m, state@);
        }
    }
}

/// Builds the pools from the pet's animations `names`, the configured
/// `actions` and the state bindings `action_states` (action, state, weight,
/// enabled). An action without a row is an enabled state action; a state
/// action without bindings joins the idle pool with weight `one`. The idle
/// reference is the first action of the idle pool.
pub fn build_pools<W: Copy>(
    names: &Vec<String>,
    actions: &Vec<ActionRow>,
    action_states: &Vec<(String, String, W, bool)>,
    one: W,
) -> (r: StatePools<W>)
    ensures
        r.wf(),
        pools_view(r.pools@) == place_all(names_view(names@), names@.len() as int, actions@, action_states@, one).pools,
        names_view(r.clicks@) == place_all(names_view(names@), names@.len() as int, actions@, action_states@, one).clicks,
        opt_view(r.drag) == place_all(names_view(names@), names@.len() as int, actions@, action_states@, one).drag,
        opt_view(r.idle) == first_idle(pools_view(r.pools@)),
{
    let ghost nv = names_view(names@);
    let mut pools: Vec<(String, Vec<(String, W)>)> = Vec::new();
    let mut clicks: Vec<String> = Vec::new();
    let mut drag: Option<String> = None;
    let mut i: usize = 0;
    proof {
        assert(pools_view(pools@) =~= Seq::<(Seq<char>, Seq<(Seq<char>, W)>)>::empty());
        assert(names_view(clicks@) =~= Seq::<Seq<char>>::empty());
    }
    while i < names.len()
        invariant
            nv == names_view(names@),
            i <= names@.len(),
            distinct_keys(pools_view(pools@)),
            pools_view(pools@) == place_all(nv, i as int, actions@, action_states@, one).pools,
            names_view(clicks@) == place_all(nv, i as int, actions@, action_states@, one).clicks,
            opt_view(drag) == place_all(nv, i as int, actions@, action_states@, one).drag,
        decreases names@.len() - i,
    {
        let name = &names[i];
        proof {
            assert(nv[i as int] == name@);
        }
        let row = row_index(actions, name);
        let (owner_interactive, enabled, kind_drag) = match row {
            Some(k) => {
                let a = &actions[k];
                let kd = match &a.kind {
                    Some(kind) => str_eq(kind.as_str(), "drag"),
                    None => {
                        proof {
                            reveal_strlit("drag");
                            assert("drag"@.len() == 4);
                            assert(Seq::<char>::empty() != "drag"@);
                        }
                        false
                    },
                };
                (str_eq(a.owner_kind.as_str(), "interactive"), a.enabled, kd)
            },
            None => {
                proof {
                    reveal_strlit("state");
                    reveal_strlit("interactive");
                    assert("state"@.len() == 5 && "interactive"@.len() == 11);
                    assert("state"@ != "interactive"@);
                }
                (false, true, false)
            },
        };
        if enabled {
            if owner_interactive {
                if kind_drag && drag.is_none() {
                    drag = Some(copy_str(name));
                } else {
                    let ghost before = clicks@;
                    clicks.push(copy_str(name));
                    proof {
                        assert(names_view(clicks@) =~= names_view(before).push(name@));
                    }
                }
            } else {
                let b = bindings(action_states, name);
                let ghost eff = effective_binds(action_states@, name@, one);
                let ghost base = pools_view(pools@);
                if b.len() == 0 {
                    push_to_pool(&mut pools, &"idle".to_string(), name, one);
                    proof {
                        assert(eff == seq![("idle"@, one, true)]);
                        assert(eff.drop_last() =~= Seq::<(Seq<char>, W, bool)>::empty());
                        assert(add_binds(base, name@, eff.drop_last()) == base);
                    }
                } else {
                    let mut k: usize = 0;
                    while k < b.len()
                        invariant
                            k <= b@.len(),
                            eff == binds_view(b@),
                            distinct_keys(pools_view(pools@)),
                            pools_view(pools@) == add_binds(base, name@, eff.subrange(0, k as int)),
                        decreases b@.len() - k,
                    {
                        let ghost pre = eff.subrange(0, k + 1);
                        proof {
                            assert(pre.drop_last() =~= eff.subrange(0, k as int));
                            assert(pre.last() == bind_view(b@[k as int]));
                        }
                        if b[k].2 {
                            push_to_pool(&mut pools, &b[k].0, name, b[k].1);
                        }
                        k += 1;
                    }
                    proof {
                        assert(eff.subrange(0, b@.len() as int) =~= eff);
                    }
                }
            }
        }
        proof {
            assert(place_all(nv, i + 1, actions@, action_states@, one) == place_action(
                place_all(nv, i as int, actions@, action_states@, one),
                name@,
                actions@,
                action_states@,
                one,
            ));
        }
        i += 1;
    }
    let ip = find_idle_first(&pools);
    StatePools { pools, clicks, drag, idle: ip }
}

/// The first action of the idle pool, if any.
fn find_idle_first<W: Copy>(pools: &Vec<(String, Vec<(String, W)>)>) -> (r: Option<String>)
    ensures
        opt_view(r) == first_idle(pools_view(pools@)),
{
    let ghost m = pools_view(pools@);
    let mut i: usize = 0;
    while i < pools.len()
        invariant
            m == pools_view(pools@),
            i <= pools@.len(),
            forall|k: int| 0 <= k < i ==> (#[trigger] m[k]).0 != "idle"@,
        decreases pools@.len() - i,
    {
        if str_eq(pools[i].0.as_str(), "idle") {
            proof {
                lemma_find_key_first(m, "idle"@, i as int);
            }
            if pools[i].1.len() > 0 {
                return Some(copy_str(&pools[i].1[0].0));
            }
            return None;
        }
        i += 1;
    }
    proof {
        lemma_find_key_absent(m, "idle"@);
    }
    None
}


// ---------------- resolving names ----------------

/// The first name, in the order given, that contains `q` or is contained in it.
pub open spec fn first_related(names: Seq<Seq<char>>, q: Seq<char>) -> Option<Seq<char>>
    decreases names.len(),
{
    if names.len() == 0 {
        None
    } else if crate::text::is_infix(names[0], q) || crate::text::is_infix(q, names[0]) {
        Some(names[0])
    } else {
        first_related(names.drop_first(), q)
    }
}

/// How a requested action name resolves against the pet's animations
/// `names`: the trimmed request itself when it names one; otherwise `idle`,
/// `click`/`clicks` and `drag` (any ASCII case) stand for the idle reference,
/// the first click answer and the drag answer; otherwise the first animation
/// whose name contains the request or is contained in it.
pub open spec fn resolve_spec(
    names: Seq<Seq<char>>,
    clicks: Seq<Seq<char>>,
    drag: Option<Seq<char>>,
    idle: Option<Seq<char>>,
    query: Seq<char>,
) -> Option<Seq<char>> {
    let q = trim_seq(query);
    let l = lower_seq(q);
    let sem = if l == codes("idle"@) {
        idle
    } else if l == codes("click"@) || l == codes("clicks"@) {
        if clicks.len() > 0 {
            Some(clicks[0])
        } else {
            None
        }
    } else if l == codes("drag"@) {
        drag
    } else {
        None
    };
    if q.len() == 0 {
        None
    } else if names.contains(q) {
        Some(q)
    } else if sem is Some {
        sem
    } else {
        first_related(names, q)
    }
}

/// Resolves a requested action name (see [`resolve_spec`]); `names` are the
/// pet's animations in the order to search.
pub fn resolve_action<W: Copy>(names: &Vec<String>, pools: &StatePools<W>, query: &str) -> (r: Option<String>)
    ensures
        opt_view(r) == resolve_spec(
            names_view(names@),
            names_view(pools.clicks@),
            opt_view(pools.drag),
            opt_view(pools.idle),
            query@,
        ),
{
    let ghost nv = names_view(names@);
    let qs = chars_of(query);
    let (a, b) = trim_bounds(&qs, 0, qs.len());
    proof {
        assert(qs@.subrange(0, qs@.len() as int) =~= query@);
    }
    let q = query.substring_char(a, b).to_owned();
    let qv = chars_of(q.as_str());
    if a == b {
        return None;
    }
    assert(q@ == trim_seq(query@));
    let mut i: usize = 0;
    while i < names.len()
        invariant
            nv == names_view(names@),
            q@ == trim_seq(query@),
            q@.len() > 0,
            i <= names@.len(),
            forall|k: int| 0 <= k < i ==> nv[k] != q@,
        decreases names@.len() - i,
    {
        if str_eq(names[i].as_str(), q.as_str()) {
            proof {
                assert(nv[i as int] == q@);
                assert(nv.contains(q@));
            }
            return Some(q);
        }
        i += 1;
    }
    proof {
        assert(!nv.contains(q@));
    }
    let sem: Option<String> = if lower_is(&qv, "idle") {
        match &pools.idle {
            Some(s) => Some(copy_str(s)),
            None => None,
        }
    } else if lower_is(&qv, "click") || lower_is(&qv, "clicks") {
        if pools.clicks.len() > 0 {
            Some(copy_str(&pools.clicks[0]))
        } else {
            None
        }
    } else if lower_is(&qv, "drag") {
        match &pools.drag {
            Some(s) => Some(copy_str(s)),
            None => None,
        }
    } else {
        None
    };
    if sem.is_some() {
        return sem;
    }
    proof {
        reveal_strlit("idle");
        reveal_strlit("click");
        reveal_strlit("clicks");
        reveal_strlit("drag");
        assert("idle"@.len() == 4 && "click"@.len() == 5 && "clicks"@.len() == 6 && "drag"@.len() == 4);
        assert("idle"@[0] == 'i' && "drag"@[0] == 'd');
        assert(codes("idle"@)[0] != codes("drag"@)[0]);
        assert(codes("idle"@) != codes("click"@));
        assert(codes("idle"@) != codes("clicks"@));
        assert(codes("idle"@) != codes("drag"@));
        assert(codes("click"@) != codes("drag"@));
        assert(codes("clicks"@) != codes("drag"@));
    }
    let mut j: usize = 0;
    proof {
        assert(nv.subrange(0, nv.len() as int) =~= nv);
    }
    while j < names.len()
        invariant
            nv == names_view(names@),
            qv@ == q@,
            q@ == trim_seq(query@),
            q@.len() > 0,
            !nv.contains(q@),
            sem is None,
            lower_seq(q@) == codes("idle"@) ==> opt_view(pools.idle) is None,
            lower_seq(q@) == codes("click"@) || lower_seq(q@) == codes("clicks"@) ==> pools.clicks@.len() == 0,
            lower_seq(q@) == codes("drag"@) ==> opt_view(pools.drag) is None,
            j <= names@.len(),
            first_related(nv.subrange(j as int, nv.len() as int), q@) == first_related(nv, q@),
        decreases names@.len() - j,
    {
        let nc = chars_of(names[j].as_str());
        let ghost rest = nv.subrange(j as int, nv.len() as int);
        proof {
            assert(rest[0] == names@[j as int]@);
            assert(rest.drop_first() =~= nv.subrange(j + 1, nv.len() as int));
        }
        if crate::text::contains_chars(&nc, &qv) || crate::text::contains_chars(&qv, &nc) {
            proof {
                assert(first_related(rest, q@) == Some(rest[0]));
            }
            return Some(copy_str(&names[j]));
        }
        j += 1;
    }
    proof {
        assert(nv.subrange(j as int, nv.len() as int) =~= Seq::<Seq<char>>::empty());
    }
    None
}

/// Whether the ASCII lower case of `v` spells `lit`.
fn lower_is(v: &Vec<char>, lit: &str) -> (r: bool)
    ensures
        r == (lower_seq(v@) == codes(lit@)),
{
    let l = chars_of(lit);
    if v.len() != l.len() {
        assert(lower_seq(v@).len() != codes(lit@).len());
        return false;
    }
    let mut i: usize = 0;
    while i < l.len()
        invariant
            l@ == lit@,
            v@.len() == l@.len(),
            i <= l@.len(),
            forall|k: int| 0 <= k < i ==> crate::control::ascii_lower(v@[k]) == l@[k] as u32,
        decreases l@.len() - i,
    {
        let c = v[i];
        let lc: u32 = if 'A' <= c && c <= 'Z' {
            c as u32 + 32
        } else {
            c as u32
        };
        if lc != l[i] as u32 {
            assert(lower_seq(v@)[i as int] != codes(lit@)[i as int]);
            return false;
        }
        i += 1;
    }
    assert(lower_seq(v@) =~= codes(lit@));
    true
}


// ---------------- decisions ----------------

/// Context-menu command: back to the bottom-right corner.
pub const MID_CORNER: usize = 190;
/// Context-menu command: toggle always-on-top.
pub const MID_ONTOP: usize = 191;
/// Context-menu command: toggle "do not move".
pub const MID_NOMOVE: usize = 192;
/// Context-menu command: toggle start with the system (handled by the application).
pub const MID_AUTOSTART: usize = 193;
/// Context-menu commands `MID_SCALE_BASE + i` pick the `i`-th size step.
pub const MID_SCALE_BASE: usize = 200;

/// A speech bubble shown until `until_ms` on the caller's monotonic clock.
pub struct Bubble {
    pub text: String,
    pub until_ms: u64,
}

/// How long a bubble stays: the requested duration, 4 s by default, never
/// less than 0.5 s.
pub fn say_duration_ms(requested: Option<u64>) -> (r: u64)
    ensures
        r == match requested {
            Some(d) => if d < 500 {
                500
            } else {
                d
            },
            None => 4000,
        },
{
    let d = match requested {
        Some(d) => d,
        None => 4000,
    };
    if d < 500 {
        500
    } else {
        d
    }
}

/// What a context-menu command does to the pet.
#[derive(Clone, Copy, Debug, PartialEq, Eq, Structural)]
pub enum PetMenuAction {
    GoCorner,
    SetTopmost(bool),
    SetNoMove(bool),
    /// Switch to size step `i`.
    Scale(usize),
    Nothing,
}

/// The effect of menu command `id` given the current always-on-top and
/// no-move flags and the number of size steps.
pub fn menu_action(id: usize, topmost: bool, no_move: bool, n_steps: usize) -> (r: PetMenuAction)
    ensures
        r == if id == MID_CORNER {
            PetMenuAction::GoCorner
        } else if id == MID_ONTOP {
            PetMenuAction::SetTopmost(!topmost)
        } else if id == MID_NOMOVE {
            PetMenuAction::SetNoMove(!no_move)
        } else if MID_SCALE_BASE <= id < MID_SCALE_BASE + n_steps {
            PetMenuAction::Scale((id - MID_SCALE_BASE) as usize)
        } else {
            PetMenuAction::Nothing
        },
{
    if id == MID_CORNER {
        PetMenuAction::GoCorner
    } else if id == MID_ONTOP {
        PetMenuAction::SetTopmost(!topmost)
    } else if id == MID_NOMOVE {
        PetMenuAction::SetNoMove(!no_move)
    } else if id >= MID_SCALE_BASE && id - MID_SCALE_BASE < n_steps {
        PetMenuAction::Scale(id - MID_SCALE_BASE)
    } else {
        PetMenuAction::Nothing
    }
}

/// What happens when an animation has played to its end.
#[derive(Clone, Copy, Debug, PartialEq, Eq, Structural)]
pub enum AnimEnd {
    /// The drag answer ends while still dragging: play it again.
    LoopDrag,
    /// An interactive answer ended: go back to the current state's actions.
    ResumeState,
    /// A state action ended: wait the state's interval, then choose anew.
    StateDone,
}

/// Decides what follows the end of animation `cur` (`drag` is the drag
/// answer, an absent one counting as the empty name).
pub fn anim_end(cur: &String, drag: &Option<String>, dragging: bool, clicks: &Vec<String>) -> (r: AnimEnd)
    ensures
        ({
            let d = match drag {
                Some(x) => x@,
                None => Seq::<char>::empty(),
            };
            r == if cur@ == d && dragging {
                AnimEnd::LoopDrag
            } else if cur@ == d || names_view(clicks@).contains(cur@) {
                AnimEnd::ResumeState
            } else {
                AnimEnd::StateDone
            }
        }),
{
    let is_drag = match drag {
        Some(x) => str_eq(cur.as_str(), x.as_str()),
        None => cur.as_str().unicode_len() == 0,
    };
    proof {
        if drag is None {
            assert(cur@.len() == 0 ==> cur@ =~= Seq::<char>::empty());
        }
    }
    if is_drag && dragging {
        return AnimEnd::LoopDrag;
    }
    let ghost cv = names_view(clicks@);
    let mut in_clicks = false;
    let mut i: usize = 0;
    while i < clicks.len() && !in_clicks
        invariant
            cv == names_view(clicks@),
            i <= clicks@.len(),
            in_clicks ==> cv.contains(cur@),
            !in_clicks ==> forall|k: int| 0 <= k < i ==> cv[k] != cur@,
        decreases clicks@.len() - i + (if in_clicks { 0int } else { 1int }),
    {
        if str_eq(clicks[i].as_str(), cur.as_str()) {
            assert(cv[i as int] == cur@);
            in_clicks = true;
        } else {
            i += 1;
        }
    }
    if is_drag || in_clicks {
        AnimEnd::ResumeState
    } else {
        AnimEnd::StateDone
    }
}

/// How the pet answers a click.
#[derive(Clone, Copy, Debug, PartialEq, Eq, Structural)]
pub enum ClickResponse {
    /// The click ends a drag: nothing is played, and the next click counts.
    EndOfDrag,
    /// Not showing the idle reference animation: clicks are ignored.
    Ignore,
    /// Play one of the click answers.
    Answer,
}

/// Decides how to answer a click while `cur` plays.
pub fn click_response(just_dragged: bool, idle: &Option<String>, cur: &String) -> (r: ClickResponse)
    ensures
        r == if just_dragged {
            ClickResponse::EndOfDrag
        } else if opt_view(*idle) != Some(cur@) {
            ClickResponse::Ignore
        } else {
            ClickResponse::Answer
        },
{
    if just_dragged {
        return ClickResponse::EndOfDrag;
    }
    match idle {
        Some(n) => if str_eq(n.as_str(), cur.as_str()) {
            ClickResponse::Answer
        } else {
            ClickResponse::Ignore
        },
        None => ClickResponse::Ignore,
    }
}

/// Advances the frame clock by `dt` ms: returns the new accumulated time and
/// whether the next frame is due (the clock then restarts at zero).
pub fn frame_tick(accum: u64, dt: u64, frame_ms: u64) -> (r: (u64, bool))
    requires
        accum + dt <= u64::MAX,
    ensures
        r == if accum + dt >= frame_ms {
            (0u64, true)
        } else {
            ((accum + dt) as u64, false)
        },
{
    let a = accum + dt;
    if a >= frame_ms {
        (0, true)
    } else {
        (a, false)
    }
}

/// How one animation of a pet is configured, as the console lists it.
pub struct ActionListing<W> {
    pub action: String,
    pub display_name: String,
    pub owner_kind: String,
    pub kind: Option<String>,
    pub enabled: bool,
    /// `(state, weight, enabled)` bindings, in order.
    pub states: Vec<(String, W, bool)>,
}

/// An [`ActionListing`] as plain values.
pub open spec fn listing_view<W>(l: ActionListing<W>) -> (Seq<char>, Seq<char>, Seq<char>, Option<Seq<char>>, bool, Seq<(Seq<char>, W, bool)>) {
    (l.action@, l.display_name@, l.owner_kind@, opt_view(l.kind), l.enabled, binds_view(l.states@))
}

/// The listing of animation `name`: its configured row (the last one naming
/// it), or else its own name as display name, a state action, enabled; and
/// its state bindings.
pub open spec fn listing_spec<W>(name: Seq<char>, actions: Seq<ActionRow>, st: Seq<(String, String, W, bool)>) -> (Seq<char>, Seq<char>, Seq<char>, Option<Seq<char>>, bool, Seq<(Seq<char>, W, bool)>) {
    match row_for(actions, name) {
        Some(r) => (name, r.display_name@, r.owner_kind@, opt_view(r.kind), r.enabled, binds_for(st, name)),
        None => (name, name, "state"@, None, true, binds_for(st, name)),
    }
}

/// Lists the configuration of each of the pet's animations `names` (the
/// files decide which animations there are; the rows and bindings add to
/// them, see [`listing_spec`]).
pub fn list_pet_actions<W: Copy>(
    names: &Vec<String>,
    actions: &Vec<ActionRow>,
    action_states: &Vec<(String, String, W, bool)>,
) -> (r: Vec<ActionListing<W>>)
    ensures
        r@.len() == names@.len(),
        forall|i: int|
            0 <= i < names@.len() ==> #[trigger] listing_view(r@[i]) == listing_spec(names@[i]@, actions@, action_states@),
{
    let mut out: Vec<ActionListing<W>> = Vec::new();
    let mut i: usize = 0;
    while i < names.len()
        invariant
            i <= names@.len(),
            out@.len() == i,
            forall|k: int|
                0 <= k < i ==> #[trigger] listing_view(out@[k]) == listing_spec(names@[k]@, actions@, action_states@),
        decreases names@.len() - i,
    {
        let name = &names[i];
        let states = bindings(action_states, name);
        let item = match row_index(actions, name) {
            Some(j) => {
                let r = &actions[j];
                ActionListing {
                    action: copy_str(name),
                    display_name: copy_str(&r.display_name),
                    owner_kind: copy_str(&r.owner_kind),
                    kind: match &r.kind {
                        Some(k) => Some(copy_str(k)),
                        None => None,
                    },
                    enabled: r.enabled,
                    states,
                }
            },
            None => ActionListing {
                action: copy_str(name),
                display_name: copy_str(name),
                owner_kind: "state".to_string(),
                kind: None,
                enabled: true,
                states,
            },
        };
        out.push(item);
        i += 1;
    }
    out
}

/// The label of size step `pct` percent: the number and `%`.
pub open spec fn size_label(pct: nat) -> Seq<char> {
    crate::text::dec_digits(pct) + "%"@
}

/// The pet's context menu: back to the corner, the always-on-top, no-move
/// and start-with-the-system switches, a separator, and the size submenu
/// with one checkable entry per step `(percent, current)`.
pub fn pet_menu_items(topmost: bool, no_move: bool, autostart: bool, sizes: &Vec<(u64, bool)>) -> (r: Vec<MenuEntry>)
    requires
        MID_SCALE_BASE + sizes@.len() <= usize::MAX,
    ensures
        r@.len() == 6,
        r@[0].id == MID_CORNER && r@[0].text@ == "回到右下角"@ && !r@[0].checked && r@[0].children is None,
        r@[1].id == MID_ONTOP && r@[1].text@ == "窗口置顶"@ && r@[1].checked == topmost && r@[1].children is None,
        r@[2].id == MID_NOMOVE && r@[2].text@ == "不移动"@ && r@[2].checked == no_move && r@[2].children is None,
        r@[3].id == MID_AUTOSTART && r@[3].text@ == "开机自启"@ && r@[3].checked == autostart && r@[3].children
            is None,
        r@[4].id == 0 && r@[4].text@ == Seq::<char>::empty() && r@[4].children is None,
        r@[5].id == 0 && r@[5].text@ == "大小"@ && (r@[5].children matches Some(c) && c@.len() == sizes@.len() && forall|i: int|
            0 <= i < sizes@.len() ==> {
                &&& (#[trigger] c@[i]).id == MID_SCALE_BASE + i
                &&& c@[i].text@ == size_label(sizes@[i].0 as nat)
                &&& c@[i].checked == sizes@[i].1
                &&& c@[i].children is None
            }),
{
    let mut steps: Vec<MenuEntry> = Vec::new();
    let mut i: usize = 0;
    while i < sizes.len()
        invariant
            i <= sizes@.len(),
            MID_SCALE_BASE + sizes@.len() <= usize::MAX,
            steps@.len() == i,
            forall|k: int|
                0 <= k < i ==> {
                    &&& (#[trigger] steps@[k]).id == MID_SCALE_BASE + k
                    &&& steps@[k].text@ == size_label(sizes@[k].0 as nat)
                    &&& steps@[k].checked == sizes@[k].1
                    &&& steps@[k].children is None
                },
        decreases sizes@.len() - i,
    {
        let mut label = String::new();
        crate::text::push_decimal(&mut label, sizes[i].0);
        label.append("%");
        proof {
            assert(label@ == Seq::<char>::empty() + crate::text::dec_digits(sizes@[i as int].0 as nat) + "%"@);
            assert(Seq::<char>::empty() + crate::text::dec_digits(sizes@[i as int].0 as nat) =~= crate::text::dec_digits(
                sizes@[i as int].0 as nat,
            ));
        }
        steps.push(MenuEntry::check(MID_SCALE_BASE + i, label.as_str(), sizes[i].1));
        i += 1;
    }
    let mut items: Vec<MenuEntry> = Vec::new();
    items.push(MenuEntry::item(MID_CORNER, "回到右下角"));
    items.push(MenuEntry::check(MID_ONTOP, "窗口置顶", topmost));
    items.push(MenuEntry::check(MID_NOMOVE, "不移动", no_move));
    items.push(MenuEntry::check(MID_AUTOSTART, "开机自启", autostart));
    items.push(MenuEntry::separator());
    items.push(MenuEntry::submenu("大小", steps));
    items
}

/// Gap kept between the pet and the right edge of the work area in the corner.
pub const CORNER_MARGIN: i32 = 24;

/// Where the window goes to sit in the bottom-right corner of the work area
/// `(left, top, right, bottom)`: its bottom on the work area's bottom, its
/// right edge [`CORNER_MARGIN`] pixels in from the right.
pub fn corner_position(work: (i32, i32, i32, i32), win_w: i32, win_h: i32) -> (r: (i32, i32))
    requires
        i32::MIN <= work.2 - win_w <= i32::MAX,
        i32::MIN <= work.2 - win_w - CORNER_MARGIN <= i32::MAX,
        i32::MIN <= work.3 - win_h <= i32::MAX,
    ensures
        r.0 == work.2 - win_w - CORNER_MARGIN,
        r.1 == work.3 - win_h,
{
    (work.2 - win_w - CORNER_MARGIN, work.3 - win_h)
}

/// `v` kept within `lo..=hi`, where `hi` is raised to `lo` when below it.
pub open spec fn clamp_low_first(v: int, lo: int, hi: int) -> int {
    let top = if hi < lo {
        lo
    } else {
        hi
    };
    if v < lo {
        lo
    } else if v > top {
        top
    } else {
        v
    }
}

/// Keeps a window of `win_w`×`win_h` whose top-left corner is aimed at
/// `(x, y)` inside the work area `(left, top, right, bottom)`; a window
/// larger than the work area keeps its top-left corner on the work area's.
pub fn keep_inside(x: i32, y: i32, work: (i32, i32, i32, i32), win_w: i32, win_h: i32) -> (r: (i32, i32))
    requires
        i32::MIN <= work.2 - win_w <= i32::MAX,
        i32::MIN <= work.3 - win_h <= i32::MAX,
    ensures
        r.0 == clamp_low_first(x as int, work.0 as int, work.2 - win_w),
        r.1 == clamp_low_first(y as int, work.1 as int, work.3 - win_h),
{
    let hx = if work.2 - win_w < work.0 {
        work.0
    } else {
        work.2 - win_w
    };
    let hy = if work.3 - win_h < work.1 {
        work.1
    } else {
        work.3 - win_h
    };
    let nx = if x < work.0 {
        work.0
    } else if x > hx {
        hx
    } else {
        x
    };
    let ny = if y < work.1 {
        work.1
    } else if y > hy {
        hy
    } else {
        y
    };
    (nx, ny)
}

// ---------------- laws ----------------

proof fn lemma_find_key_push<V>(m: Seq<(Seq<char>, V)>, e: (Seq<char>, V), kk: Seq<char>)
    ensures
        find_key(m.push(e), kk) == if find_key(m, kk) < m.len() {
            find_key(m, kk)
        } else if e.0 == kk {
            m.len() as int
        } else {
            m.len() + 1int
        },
{
    assert(m.push(e).drop_last() =~= m);
    lemma_find_key_range(m, kk);
}

proof fn lemma_find_key_update<V>(m: Seq<(Seq<char>, V)>, i: int, e: (Seq<char>, V), kk: Seq<char>)
    requires
        0 <= i < m.len(),
        m[i].0 == e.0,
    ensures
        find_key(m.update(i, e), kk) == find_key(m, kk),
    decreases m.len(),
{
    let u = m.update(i, e);
    if i < m.len() - 1 {
        assert(u.drop_last() =~= m.drop_last().update(i, e));
        lemma_find_key_update(m.drop_last(), i, e, kk);
    } else {
        assert(u.drop_last() =~= m.drop_last());
    }
}

/// Pushing onto one pool changes that pool only.
proof fn lemma_assoc_push_get<W>(m: Seq<(Seq<char>, Seq<(Seq<char>, W)>)>, k: Seq<char>, x: (Seq<char>, W), kk: Seq<char>)
    ensures
        assoc_get(assoc_push(m, k, x), kk) == if k == kk {
            assoc_get(m, kk).push(x)
        } else {
            assoc_get(m, kk)
        },
{
    lemma_find_key_range(m, k);
    lemma_find_key_range(m, kk);
    let i = find_key(m, k);
    if i < m.len() {
        lemma_find_key_update(m, i, (k, m[i].1.push(x)), kk);
        if k == kk {
        } else {
            let j = find_key(m, kk);
            if j < m.len() {
                assert(j != i);
            }
        }
    } else {
        lemma_find_key_push(m, (k, seq![x]), kk);
        if k == kk {
            assert(seq![x] =~= Seq::<(Seq<char>, W)>::empty().push(x));
        }
    }
}

/// Adding bindings only appends to pools.
proof fn lemma_add_binds_prefix<W>(
    m: Seq<(Seq<char>, Seq<(Seq<char>, W)>)>,
    name: Seq<char>,
    b: Seq<(Seq<char>, W, bool)>,
    kk: Seq<char>,
)
    ensures
        assoc_get(m, kk).len() <= assoc_get(add_binds(m, name, b), kk).len(),
        assoc_get(add_binds(m, name, b), kk).subrange(0, assoc_get(m, kk).len() as int) == assoc_get(m, kk),
        forall|j: int|
            assoc_get(m, kk).len() <= j < assoc_get(add_binds(m, name, b), kk).len() ==> (#[trigger] assoc_get(
                add_binds(m, name, b),
                kk,
            )[j]).0 == name,
    decreases b.len(),
{
    if b.len() > 0 {
        lemma_add_binds_prefix(m, name, b.drop_last(), kk);
        let p = add_binds(m, name, b.drop_last());
        let x = b.last();
        if x.2 {
            lemma_assoc_push_get(p, x.0, (name, x.1), kk);
            let q = assoc_get(add_binds(m, name, b), kk);
            let pp = assoc_get(p, kk);
            if x.0 == kk {
                assert(q.subrange(0, assoc_get(m, kk).len() as int) =~= pp.subrange(0, assoc_get(m, kk).len() as int));
                assert forall|j: int| assoc_get(m, kk).len() <= j < q.len() implies (#[trigger] q[j]).0 == name by {
                    if j < pp.len() {
                        assert(q[j] == pp[j]);
                    }
                }
            }
        }
    } else {
        assert(assoc_get(m, kk).subrange(0, assoc_get(m, kk).len() as int) =~= assoc_get(m, kk));
    }
}

/// Where a placement puts action `name` in pool `kk`, and what it keeps.
proof fn lemma_place_keeps<W>(
    acc: PoolsModel<W>,
    name: Seq<char>,
    actions: Seq<ActionRow>,
    st: Seq<(String, String, W, bool)>,
    one: W,
    kk: Seq<char>,
)
    ensures
        ({
            let r = place_action(acc, name, actions, st, one);
            &&& assoc_get(acc.pools, kk).len() <= assoc_get(r.pools, kk).len()
            &&& assoc_get(r.pools, kk).subrange(0, assoc_get(acc.pools, kk).len() as int) == assoc_get(acc.pools, kk)
            &&& forall|j: int|
                assoc_get(acc.pools, kk).len() <= j < assoc_get(r.pools, kk).len() ==> (#[trigger] assoc_get(
                    r.pools,
                    kk,
                )[j]).0 == name
            &&& r.clicks.len() >= acc.clicks.len()
            &&& r.clicks.subrange(0, acc.clicks.len() as int) == acc.clicks
            &&& forall|j: int| acc.clicks.len() <= j < r.clicks.len() ==> #[trigger] r.clicks[j] == name
            &&& (r.drag != acc.drag ==> r.drag == Some(name))
        }),
{
    let r = place_action(acc, name, actions, st, one);
    lemma_add_binds_prefix(acc.pools, name, effective_binds(st, name, one), kk);
    assert(acc.clicks.subrange(0, acc.clicks.len() as int) =~= acc.clicks);
    assert(acc.clicks.push(name).subrange(0, acc.clicks.len() as int) =~= acc.clicks);
    assert(assoc_get(acc.pools, kk).subrange(0, assoc_get(acc.pools, kk).len() as int) =~= assoc_get(acc.pools, kk));
}

/// An action configured as disabled is never played: it is in no pool, no
/// click answer and not the drag answer.
pub proof fn disabled_action_never_placed<W>(
    names: Seq<Seq<char>>,
    actions: Seq<ActionRow>,
    st: Seq<(String, String, W, bool)>,
    one: W,
    n: Seq<char>,
    kk: Seq<char>,
)
    requires
        row_for(actions, n) matches Some(r) && !r.enabled,
    ensures
        ({
            let m = place_all(names, names.len() as int, actions, st, one);
            &&& forall|j: int| 0 <= j < assoc_get(m.pools, kk).len() ==> (#[trigger] assoc_get(m.pools, kk)[j]).0 != n
            &&& !m.clicks.contains(n)
            &&& m.drag != Some(n)
        }),
{
    lemma_disabled_upto(names, names.len() as int, actions, st, one, n, kk);
}

proof fn lemma_disabled_upto<W>(
    names: Seq<Seq<char>>,
    k: int,
    actions: Seq<ActionRow>,
    st: Seq<(String, String, W, bool)>,
    one: W,
    n: Seq<char>,
    kk: Seq<char>,
)
    requires
        row_for(actions, n) matches Some(r) && !r.enabled,
    ensures
        ({
            let m = place_all(names, k, actions, st, one);
            &&& forall|j: int| 0 <= j < assoc_get(m.pools, kk).len() ==> (#[trigger] assoc_get(m.pools, kk)[j]).0 != n
            &&& !m.clicks.contains(n)
            &&& m.drag != Some(n)
        }),
    decreases k,
{
    if k > 0 {
        lemma_disabled_upto(names, k - 1, actions, st, one, n, kk);
        let acc = place_all(names, k - 1, actions, st, one);
        let name = names[k - 1];
        lemma_place_keeps(acc, name, actions, st, one, kk);
        let m = place_all(names, k, actions, st, one);
        if name == n {
            assert(m == acc);
        } else {
            assert forall|j: int| 0 <= j < assoc_get(m.pools, kk).len() implies (#[trigger] assoc_get(m.pools, kk)[j]).0
                != n by {
                if j < assoc_get(acc.pools, kk).len() {
                    assert(assoc_get(m.pools, kk)[j] == assoc_get(acc.pools, kk)[j]);
                }
            }
            if m.clicks.contains(n) {
                let j = choose|j: int| 0 <= j < m.clicks.len() && m.clicks[j] == n;
                if j < acc.clicks.len() {
                    assert(m.clicks[j] == acc.clicks[j]);
                }
            }
        }
    }
}

/// Action `name` is placed as an enabled state action, and one of its
/// bindings puts it in the idle pool with weight `one`.
pub open spec fn joins_idle<W>(actions: Seq<ActionRow>, st: Seq<(String, String, W, bool)>, name: Seq<char>, one: W) -> bool {
    &&& match row_for(actions, name) {
        Some(r) => r.enabled && r.owner_kind@ != "interactive"@,
        None => true,
    }
    &&& effective_binds(st, name, one).contains(("idle"@, one, true))
}

proof fn lemma_add_binds_idle<W>(m: Seq<(Seq<char>, Seq<(Seq<char>, W)>)>, name: Seq<char>, b: Seq<(Seq<char>, W, bool)>, one: W)
    requires
        b.contains(("idle"@, one, true)),
    ensures
        assoc_get(add_binds(m, name, b), "idle"@).contains((name, one)),
    decreases b.len(),
{
    let p = add_binds(m, name, b.drop_last());
    let x = b.last();
    if x == ("idle"@, one, true) {
        lemma_assoc_push_get(p, x.0, (name, x.1), "idle"@);
        let q = assoc_get(add_binds(m, name, b), "idle"@);
        assert(q[q.len() - 1] == (name, one));
    } else {
        let j = choose|j: int| 0 <= j < b.len() && b[j] == ("idle"@, one, true);
        assert(b.drop_last()[j] == ("idle"@, one, true));
        lemma_add_binds_idle(m, name, b.drop_last(), one);
        let pp = assoc_get(p, "idle"@);
        let jj = choose|jj: int| 0 <= jj < pp.len() && pp[jj] == (name, one);
        if x.2 {
            lemma_assoc_push_get(p, x.0, (name, x.1), "idle"@);
            assert(assoc_get(add_binds(m, name, b), "idle"@)[jj] == pp[jj]);
        }
    }
}

/// Every action that [`joins_idle`] is in the idle pool once the pools are
/// built.
pub proof fn lemma_joins_idle_upto<W>(
    names: Seq<Seq<char>>,
    k: int,
    actions: Seq<ActionRow>,
    st: Seq<(String, String, W, bool)>,
    one: W,
    i: int,
)
    requires
        0 <= i < k <= names.len(),
        joins_idle(actions, st, names[i], one),
    ensures
        assoc_get(place_all(names, k, actions, st, one).pools, "idle"@).contains((names[i], one)),
    decreases k,
{
    let acc = place_all(names, k - 1, actions, st, one);
    let m = place_all(names, k, actions, st, one);
    let name = names[k - 1];
    lemma_place_keeps(acc, name, actions, st, one, "idle"@);
    if i < k - 1 {
        lemma_joins_idle_upto(names, k - 1, actions, st, one, i);
        let old_p = assoc_get(acc.pools, "idle"@);
        let j = choose|j: int| 0 <= j < old_p.len() && old_p[j] == (names[i], one);
        assert(assoc_get(m.pools, "idle"@)[j] == old_p[j]);
    } else {
        reveal_strlit("state");
        reveal_strlit("interactive");
        assert("state"@.len() == 5 && "interactive"@.len() == 11);
        assert(m.pools == add_binds(acc.pools, name, effective_binds(st, name, one)));
        lemma_add_binds_idle(acc.pools, name, effective_binds(st, name, one), one);
    }
}

/// The row found for a name is one of the rows and names it; there is one
/// whenever some row names it.
pub proof fn lemma_row_for_member(actions: Seq<ActionRow>, n: Seq<char>, j: int)
    requires
        0 <= j < actions.len(),
        actions[j].action@ == n,
    ensures
        row_for(actions, n) is Some,
        row_for(actions, n) matches Some(r) ==> exists|k: int| 0 <= k < actions.len() && actions[k] == r,
    decreases actions.len(),
{
    if actions.last().action@ != n {
        lemma_row_for_member(actions.drop_last(), n, j);
        let r = row_for(actions.drop_last(), n)->0;
        let k = choose|k: int| 0 <= k < actions.drop_last().len() && actions.drop_last()[k] == r;
        assert(actions[k] == r);
    } else {
        assert(actions[actions.len() - 1] == actions.last());
    }
}

/// Each binding of a name is among the bindings found for it.
pub proof fn lemma_binds_for_member<W>(st: Seq<(String, String, W, bool)>, n: Seq<char>, j: int)
    requires
        0 <= j < st.len(),
        st[j].0@ == n,
    ensures
        binds_for(st, n).contains((st[j].1@, st[j].2, st[j].3)),
    decreases st.len(),
{
    let b = binds_for(st, n);
    if j == st.len() - 1 {
        assert(b[b.len() - 1] == (st[j].1@, st[j].2, st[j].3));
    } else {
        lemma_binds_for_member(st.drop_last(), n, j);
        let p = binds_for(st.drop_last(), n);
        let k = choose|k: int| 0 <= k < p.len() && p[k] == (st[j].1@, st[j].2, st[j].3);
        assert(st.drop_last()[j] == st[j]);
        assert(b[k] == p[k]);
    }
}

/// An animation that is not configured at all is an enabled state action in
/// the idle pool with weight `one`.
pub proof fn unconfigured_action_joins_idle<W>(
    names: Seq<Seq<char>>,
    actions: Seq<ActionRow>,
    st: Seq<(String, String, W, bool)>,
    one: W,
    i: int,
)
    requires
        0 <= i < names.len(),
        row_for(actions, names[i]) is None,
        binds_for(st, names[i]).len() == 0,
    ensures
        assoc_get(place_all(names, names.len() as int, actions, st, one).pools, "idle"@).contains((names[i], one)),
{
    assert(effective_binds(st, names[i], one)[0] == ("idle"@, one, true));
    lemma_joins_idle_upto(names, names.len() as int, actions, st, one, i);
}

} // verus!

//! The animations of a pet's asset folder. Walking the folder is done by the
//! caller, which hands over the stems of the `.webm` files it found.

use vstd::prelude::*;
use crate::text::{chars_of, trim_bounds, trim_seq};

verus! {

/// Code-point order of texts (the order of `str::cmp` on valid UTF-8).
pub open spec fn lex_lt(a: Seq<char>, b: Seq<char>) -> bool
    decreases a.len(),
{
    if a.len() == 0 {
        b.len() > 0
    } else if b.len() == 0 {
        false
    } else if a[0] < b[0] {
        true
    } else if a[0] > b[0] {
        false
    } else {
        lex_lt(a.drop_first(), b.drop_first())
    }
}

proof fn lemma_lex_irrefl(a: Seq<char>)
    ensures
        !lex_lt(a, a),
    decreases a.len(),
{
    if a.len() > 0 {
        lemma_lex_irrefl(a.drop_first());
    }
}

proof fn lemma_lex_total(a: Seq<char>, b: Seq<char>)
    ensures
        a != b ==> lex_lt(a, b) || lex_lt(b, a),
    decreases a.len(),
{
    if a.len() > 0 && b.len() > 0 && a[0] == b[0] {
        lemma_lex_total(a.drop_first(), b.drop_first());
        if a.drop_first() == b.drop_first() {
            assert(a =~= seq![a[0]] + a.drop_first());
            assert(b =~= seq![b[0]] + b.drop_first());
        }
    } else if a.len() == 0 && b.len() == 0 {
        assert(a =~= b);
    }
}

proof fn lemma_lex_trans(a: Seq<char>, b: Seq<char>, c: Seq<char>)
    requires
        lex_lt(a, b),
        lex_lt(b, c),
    ensures
        lex_lt(a, c),
    decreases a.len(),
{
    if a.len() > 0 && b.len() > 0 && c.len() > 0 && a[0] == b[0] && b[0] == c[0] {
        lemma_lex_trans(a.drop_first(), b.drop_first(), c.drop_first());
    }
}

/// Whether `a` comes before `b` in code-point order.
fn lex_less(a: &Vec<char>, b: &Vec<char>) -> (r: bool)
    ensures
        r == lex_lt(a@, b@),
{
    let mut i: usize = 0;
    proof {
        assert(a@.subrange(0, a@.len() as int) =~= a@);
        assert(b@.subrange(0, b@.len() as int) =~= b@);
    }
    while i < a.len() && i < b.len() && a[i] == b[i]
        invariant
            i <= a@.len(),
            i <= b@.len(),
            lex_lt(a@.subrange(i as int, a@.len() as int), b@.subrange(i as int, b@.len() as int)) == lex_lt(a@, b@),
        decreases a@.len() - i,
    {
        proof {
            let x = a@.subrange(i as int, a@.len() as int);
            let y = b@.subrange(i as int, b@.len() as int);
            assert(x.drop_first() =~= a@.subrange(i + 1, a@.len() as int));
            assert(y.drop_first() =~= b@.subrange(i + 1, b@.len() as int));
        }
        i += 1;
    }
    proof {
        assert(a@.subrange(0, a@.len() as int) =~= a@);
        assert(b@.subrange(0, b@.len() as int) =~= b@);
    }
    if i == a.len() {
        i < b.len()
    } else if i == b.len() {
        false
    } else {
        proof {
            assert(a@.subrange(i as int, a@.len() as int)[0] == a@[i as int]);
            assert(b@.subrange(i as int, b@.len() as int)[0] == b@[i as int]);
        }
        a[i] < b[i]
    }
}

/// Strictly increasing in code-point order.
pub open spec fn strictly_sorted(s: Seq<Seq<char>>) -> bool {
    forall|i: int, j: int| 0 <= i < j < s.len() ==> lex_lt(#[trigger] s[i], #[trigger] s[j])
}

pub open spec fn texts_view(v: Seq<String>) -> Seq<Seq<char>> {
    v.map_values(|s: String| s@)
}

/// The animation names of a folder from the stems of its `.webm` files: each
/// non-empty stem once, in code-point order.
pub fn scan_webm_names(stems: &Vec<String>) -> (r: Vec<String>)
    ensures
        strictly_sorted(texts_view(r@)),
        forall|t: Seq<char>|
            texts_view(r@).contains(t) <==> (t.len() > 0 && texts_view(stems@).contains(t)),
{
    let ghost sv = texts_view(stems@);
    let mut out: Vec<String> = Vec::new();
    let mut keys: Vec<Vec<char>> = Vec::new();
    let mut i: usize = 0;
    while i < stems.len()
        invariant
            sv == texts_view(stems@),
            i <= stems@.len(),
            keys@.len() == out@.len(),
            forall|k: int| 0 <= k < keys@.len() ==> (#[trigger] keys@[k])@ == out@[k]@,
            strictly_sorted(texts_view(out@)),
            forall|t: Seq<char>|
                texts_view(out@).contains(t) <==> (t.len() > 0 && sv.subrange(0, i as int).contains(t)),
        decreases stems@.len() - i,
    {
        let c = chars_of(stems[i].as_str());
        let ghost ov = texts_view(out@);
        proof {
            assert(sv[i as int] == c@);
            let pre0 = sv.subrange(0, i as int);
            let pre1 = sv.subrange(0, i + 1);
            assert(pre1 =~= pre0.push(c@));
            assert forall|t: Seq<char>| pre1.contains(t) <==> (pre0.contains(t) || t == c@) by {
                if pre1.contains(t) {
                    let j = choose|j: int| 0 <= j < pre1.len() && pre1[j] == t;
                    if j < i {
                        assert(pre0[j] == t);
                    }
                }
                if pre0.contains(t) {
                    let j = choose|j: int| 0 <= j < pre0.len() && pre0[j] == t;
                    assert(pre1[j] == t);
                }
                if t == c@ {
                    assert(pre1[i as int] == t);
                }
            }
        }
        if c.len() > 0 {
            let mut p: usize = 0;
            while p < keys.len() && lex_less(&keys[p], &c)
                invariant
                    keys@.len() == out@.len(),
                    forall|k: int| 0 <= k < keys@.len() ==> (#[trigger] keys@[k])@ == out@[k]@,
                    ov == texts_view(out@),
                    p <= keys@.len(),
                    forall|k: int| 0 <= k < p ==> lex_lt(#[trigger] ov[k], c@),
                decreases keys@.len() - p,
            {
                assert(ov[p as int] == keys@[p as int]@);
                p += 1;
            }
            let dup = p < keys.len() && !lex_less(&c, &keys[p]);
            proof {
                if p < keys@.len() {
                    assert(ov[p as int] == keys@[p as int]@);
                    if !lex_lt(ov[p as int], c@) {
                        lemma_lex_total(ov[p as int], c@);
                    }
                }
            }
            if !dup {
                let name = stems[i].as_str().to_owned();
                let key = chars_of(name.as_str());
                out.insert(p, name);
                keys.insert(p, key);
                proof {
                    let nv = texts_view(out@);
                    assert(nv =~= ov.insert(p as int, c@));
                    assert forall|a: int, b: int| 0 <= a < b < nv.len() implies lex_lt(#[trigger] nv[a], #[trigger] nv[b]) by {
                        if b < p {
                            assert(nv[a] == ov[a] && nv[b] == ov[b]);
                        } else if b == p {
                            assert(nv[a] == ov[a]);
                        } else if a < p {
                            assert(nv[a] == ov[a] && nv[b] == ov[b - 1]);
                            if p < ov.len() {
                                assert(lex_lt(c@, ov[p as int]));
                                if b - 1 > p {
                                    lemma_lex_trans(c@, ov[p as int], ov[b - 1]);
                                }
                                lemma_lex_trans(ov[a], c@, ov[b - 1]);
                            }
                        } else if a == p {
                            assert(nv[b] == ov[b - 1]);
                            assert(lex_lt(c@, ov[p as int]));
                            if b - 1 > p {
                                lemma_lex_trans(c@, ov[p as int], ov[b - 1]);
                            }
                        } else {
                            assert(nv[a] == ov[a - 1] && nv[b] == ov[b - 1]);
                        }
                    }
                    assert forall|k: int| 0 <= k < keys@.len() implies (#[trigger] keys@[k])@ == out@[k]@ by {
                    }
                    assert forall|t: Seq<char>| nv.contains(t) <==> (t.len() > 0 && sv.subrange(0, i + 1).contains(t)) by {
                        if nv.contains(t) {
                            let j = choose|j: int| 0 <= j < nv.len() && nv[j] == t;
                            if j < p {
                                assert(ov[j] == t);
                            } else if j > p {
                                assert(ov[j - 1] == t);
                            }
                        }
                        if t == c@ {
                            assert(nv[p as int] == t);
                        } else if ov.contains(t) {
                            let j = choose|j: int| 0 <= j < ov.len() && ov[j] == t;
                            if j < p {
                                assert(nv[j] == t);
                            } else {
                                assert(nv[j + 1] == t);
                            }
                        }
                    }
                }
            } else {
                proof {
                    assert(ov[p as int] == c@);
                    assert forall|t: Seq<char>| ov.contains(t) <==> (t.len() > 0 && sv.subrange(0, i + 1).contains(t)) by {
                        if t == c@ {
                            assert(ov[p as int] == t);
                        }
                    }
                }
            }
        } else {
            proof {
                assert forall|t: Seq<char>| ov.contains(t) <==> (t.len() > 0 && sv.subrange(0, i + 1).contains(t)) by {
                }
            }
        }
        i += 1;
    }
    proof {
        assert(sv.subrange(0, stems@.len() as int) =~= sv);
    }
    out
}

/// Where the assets root comes from, in order of preference.
#[derive(Clone, Copy, Debug, PartialEq, Eq, Structural)]
pub enum AssetsRoot {
    /// The `assets_dir` setting.
    Configured,
    /// The `DESKPET_ASSETS_DIR` environment variable.
    Env,
    /// `assets/` in the configuration folder, which exists.
    ConfigDir,
    /// `assets/` beside the executable, which exists.
    ExeDir,
    /// `assets/` in the working directory, which exists.
    WorkDir,
    /// `assets/` in the configuration folder, to be created.
    ConfigDirCreated,
}

/// Whether a setting is given and not blank.
pub open spec fn set_value(v: Option<Seq<char>>) -> bool {
    v matches Some(t) && trim_seq(t).len() > 0
}

/// The assets root: the setting, else the environment variable (each unless
/// blank), else the first of the configuration folder's, the executable's and
/// the working directory's `assets/` that exists, else the configuration
/// folder's, created.
pub open spec fn assets_root_spec(
    configured: Option<Seq<char>>,
    env: Option<Seq<char>>,
    config_dir_exists: bool,
    exe_dir_exists: bool,
    work_dir_exists: bool,
) -> AssetsRoot {
    if set_value(configured) {
        AssetsRoot::Configured
    } else if set_value(env) {
        AssetsRoot::Env
    } else if config_dir_exists {
        AssetsRoot::ConfigDir
    } else if exe_dir_exists {
        AssetsRoot::ExeDir
    } else if work_dir_exists {
        AssetsRoot::WorkDir
    } else {
        AssetsRoot::ConfigDirCreated
    }
}

fn not_blank(v: Option<&str>) -> (r: bool)
    ensures
        r == set_value(match v {
            Some(t) => Some(t@),
            None => None,
        }),
{
    match v {
        Some(t) => {
            let c = chars_of(t);
            let (a, b) = trim_bounds(&c, 0, c.len());
            proof {
                assert(c@.subrange(0, c@.len() as int) =~= t@);
            }
            a < b
        },
        None => false,
    }
}

/// Chooses the assets root (see [`assets_root_spec`]).
pub fn choose_assets_root(
    configured: Option<&str>,
    env: Option<&str>,
    config_dir_exists: bool,
    exe_dir_exists: bool,
    work_dir_exists: bool,
) -> (r: AssetsRoot)
    ensures
        r == assets_root_spec(
            match configured {
                Some(t) => Some(t@),
                None => None,
            },
            match env {
                Some(t) => Some(t@),
                None => None,
            },
            config_dir_exists,
            exe_dir_exists,
            work_dir_exists,
        ),
{
    if not_blank(configured) {
        AssetsRoot::Configured
    } else if not_blank(env) {
        AssetsRoot::Env
    } else if config_dir_exists {
        AssetsRoot::ConfigDir
    } else if exe_dir_exists {
        AssetsRoot::ExeDir
    } else if work_dir_exists {
        AssetsRoot::WorkDir
    } else {
        AssetsRoot::ConfigDirCreated
    }
}

/// Which folder under the assets root holds the pet's animations.
#[derive(Clone, Debug)]
pub enum CharacterDir {
    /// The named pet's folder (the name trimmed).
    Named(String),
    /// The sub-folder at this position of the listing.
    Subdir(usize),
    /// The assets root itself.
    Root,
    /// None: the named folder has no animation, or no folder has one.
    Missing,
}

/// The first position holding `true`, if any.
pub open spec fn first_true(s: Seq<bool>) -> Option<int>
    decreases s.len(),
{
    if s.len() == 0 {
        None
    } else if s.last() {
        match first_true(s.drop_last()) {
            Some(i) => Some(i),
            None => Some(s.len() - 1),
        }
    } else {
        first_true(s.drop_last())
    }
}

/// Chooses the pet's folder: a named pet (unless blank) is its folder when
/// that holds animations, and missing otherwise; without a name, the first
/// sub-folder of the listing that holds animations, else the root when it
/// holds some, else missing.
pub fn choose_character_dir(
    character: Option<&str>,
    named_has_webm: bool,
    subdirs_have_webm: &Vec<bool>,
    root_has_webm: bool,
) -> (r: CharacterDir)
    ensures
        match character {
            Some(c) if trim_seq(c@).len() > 0 => if named_has_webm {
                r matches CharacterDir::Named(n) && n@ == trim_seq(c@)
            } else {
                r is Missing
            },
            _ => match first_true(subdirs_have_webm@) {
                Some(i) => r matches CharacterDir::Subdir(j) && j == i,
                None => if root_has_webm {
                    r is Root
                } else {
                    r is Missing
                },
            },
        },
{
    if let Some(c) = character {
        let v = chars_of(c);
        let (a, b) = trim_bounds(&v, 0, v.len());
        proof {
            assert(v@.subrange(0, v@.len() as int) =~= c@);
        }
        if a < b {
            if named_has_webm {
                return CharacterDir::Named(c.substring_char(a, b).to_owned());
            }
            return CharacterDir::Missing;
        }
    }
    let mut i: usize = 0;
    while i < subdirs_have_webm.len()
        invariant
            i <= subdirs_have_webm@.len(),
            first_true(subdirs_have_webm@.subrange(0, i as int)) is None,
            character matches Some(c) ==> trim_seq(c@).len() == 0,
        decreases subdirs_have_webm@.len() - i,
    {
        let ghost pre = subdirs_have_webm@.subrange(0, i + 1);
        proof {
            assert(pre.drop_last() =~= subdirs_have_webm@.subrange(0, i as int));
        }
        if subdirs_have_webm[i] {
            proof {
                lemma_first_true_prefix(subdirs_have_webm@, i + 1);
            }
            return CharacterDir::Subdir(i);
        }
        i += 1;
    }
    proof {
        assert(subdirs_have_webm@.subrange(0, i as int) =~= subdirs_have_webm@);
    }
    if root_has_webm {
        CharacterDir::Root
    } else {
        CharacterDir::Missing
    }
}

proof fn lemma_first_true_prefix(s: Seq<bool>, n: int)
    requires
        0 < n <= s.len(),
        s[n - 1],
        first_true(s.subrange(0, n - 1)) is None,
    ensures
        first_true(s) == Some(n - 1),
    decreases s.len(),
{
    if s.len() > n {
        assert(s.drop_last().subrange(0, n - 1) =~= s.subrange(0, n - 1));
        lemma_first_true_prefix(s.drop_last(), n);
    } else {
        assert(s.drop_last() =~= s.subrange(0, n - 1));
    }
}

} // verus!

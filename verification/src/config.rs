//! Settings that must be known before the database opens, and the reading of
//! stored program settings.

use vstd::prelude::*;
use crate::text::{chars_of, is_ws, skip_ws, back_ws, trim_bounds, trim_seq};
use vstd::string::StringExecFns;

verus! {

/// The system-level settings file.
#[derive(Clone, Debug)]
pub struct SystemConfig {
    /// Database file; `None` means `deskpet.db` in the configuration folder.
    pub database_path: Option<String>,
    /// Folder of the pets' assets; `None` means found automatically.
    pub assets_dir: Option<String>,
    /// Port of the control service; `None` means the default.
    pub console_port: Option<u16>,
    /// Log level name; `None` means `info`.
    pub log_level: Option<String>,
}

impl Default for SystemConfig {
    fn default() -> (r: SystemConfig)
        ensures
            r.database_path is None,
            r.assets_dir is None,
            r.console_port is None,
            r.log_level is None,
    {
        SystemConfig { database_path: None, assets_dir: None, console_port: None, log_level: None }
    }
}

/// The database path set in the file, trimmed, unless it is blank (then the
/// default is used).
pub fn configured_db_path(configured: Option<&str>) -> (r: Option<String>)
    ensures
        match configured {
            Some(p) => if trim_seq(p@).len() > 0 {
                r matches Some(s) && s@ == trim_seq(p@)
            } else {
                r is None
            },
            None => r is None,
        },
{
    match configured {
        Some(p) => {
            let v = chars_of(p);
            let (a, b) = trim_bounds(&v, 0, v.len());
            proof {
                assert(v@.subrange(0, v@.len() as int) =~= p@);
            }
            if a < b {
                Some(p.substring_char(a, b).to_owned())
            } else {
                None
            }
        },
        None => None,
    }
}

/// What `bool::from_str` reads from a stored setting: exactly `true` or
/// `false`.
pub open spec fn bool_value(s: Seq<char>) -> Option<bool> {
    if s == "true"@ {
        Some(true)
    } else if s == "false"@ {
        Some(false)
    } else {
        None
    }
}

/// Reads a stored boolean setting (see [`bool_value`]).
pub fn parse_bool_setting(s: &str) -> (r: Option<bool>)
    ensures
        r == bool_value(s@),
{
    if crate::text::str_eq(s, "true") {
        Some(true)
    } else if crate::text::str_eq(s, "false") {
        Some(false)
    } else {
        None
    }
}

/// `s` without any leading or trailing `"`.
pub open spec fn strip_quotes(s: Seq<char>) -> Seq<char>
    decreases s.len(),
{
    if s.len() > 0 && s[0] == '"' {
        strip_quotes(s.drop_first())
    } else if s.len() > 0 && s.last() == '"' {
        strip_quotes(s.drop_last())
    } else {
        s
    }
}

/// The stored current pet: the value trimmed and unquoted, absent when that
/// is empty or `null`.
pub open spec fn character_value(s: Seq<char>) -> Option<Seq<char>> {
    let c = strip_quotes(trim_seq(s));
    if c.len() > 0 && c != "null"@ {
        Some(c)
    } else {
        None
    }
}

/// Reads the stored current pet (see [`character_value`]).
pub fn character_setting(s: &str) -> (r: Option<String>)
    ensures
        match character_value(s@) {
            Some(c) => r matches Some(x) && x@ == c,
            None => r is None,
        },
{
    let v = chars_of(s);
    let (mut a, mut b) = trim_bounds(&v, 0, v.len());
    proof {
        assert(v@.subrange(0, v@.len() as int) =~= s@);
    }
    while a < b && (v[a] == '"' || v[b - 1] == '"')
        invariant
            a <= b <= v@.len(),
            v@ == s@,
            strip_quotes(v@.subrange(a as int, b as int)) == strip_quotes(trim_seq(s@)),
        decreases b - a,
    {
        let ghost t = v@.subrange(a as int, b as int);
        if v[a] == '"' {
            proof {
                assert(t.drop_first() =~= v@.subrange(a + 1, b as int));
            }
            a += 1;
        } else {
            proof {
                assert(t.drop_last() =~= v@.subrange(a as int, b - 1));
            }
            b -= 1;
        }
    }
    let c = s.substring_char(a, b).to_owned();
    if a < b && !crate::text::str_eq(c.as_str(), "null") {
        Some(c)
    } else {
        None
    }
}

/// The stored form of a boolean setting: the text of `bool`'s `Display`.
pub open spec fn bool_text(b: bool) -> Seq<char> {
    if b {
        "true"@
    } else {
        "false"@
    }
}

/// Writes the stored form of a boolean setting (see [`bool_text`]).
pub fn bool_setting_text(b: bool) -> (r: &'static str)
    ensures
        r@ == bool_text(b),
{
    if b {
        "true"
    } else {
        "false"
    }
}

/// How the current pet is stored: its id in double quotes, or `null`.
pub open spec fn character_text(c: Option<Seq<char>>) -> Seq<char> {
    match c {
        Some(id) => seq!['"'] + id + seq!['"'],
        None => "null"@,
    }
}

/// Writes the stored form of the current pet (see [`character_text`]).
pub fn character_setting_text(c: Option<&str>) -> (r: String)
    ensures
        r@ == character_text(match c {
            Some(id) => Some(id@),
            None => None,
        }),
{
    match c {
        Some(id) => {
            let mut t = String::from_str("\"");
            t.append(id);
            t.append("\"");
            proof {
                reveal_strlit("\"");
                assert("\""@ =~= seq!['"']);
            }
            t
        },
        None => String::from_str("null"),
    }
}

proof fn lemma_trim_unpadded(s: Seq<char>)
    requires
        s.len() > 0,
        !is_ws(s[0]),
        !is_ws(s.last()),
    ensures
        trim_seq(s) == s,
{
    assert(skip_ws(s, 0) == 0);
    assert(back_ws(s, 0, s.len() as int) == s.len());
    assert(s.subrange(0, s.len() as int) =~= s);
}

/// A stored boolean setting reads back as the value that was stored.
pub proof fn bool_setting_round_trip(b: bool)
    ensures
        bool_value(bool_text(b)) == Some(b),
{
    reveal_strlit("true");
    reveal_strlit("false");
    assert("true"@.len() != "false"@.len());
}

/// The stored current pet reads back as the id that was stored, for an id
/// that is not empty, not `null`, and neither starts nor ends with
/// whitespace or a double quote; an absent pet reads back as absent.
pub proof fn character_setting_round_trip(id: Seq<char>)
    requires
        id.len() > 0,
        id != "null"@,
        !is_ws(id[0]),
        !is_ws(id.last()),
        id[0] != '"',
        id.last() != '"',
    ensures
        character_value(character_text(Some(id))) == Some(id),
        character_value(character_text(None)) is None,
{
    let t = seq!['"'] + id + seq!['"'];
    assert(t[0] == '"');
    assert(t.last() == '"');
    assert(!is_ws('"'));
    lemma_trim_unpadded(t);
    assert(t.drop_first() =~= id + seq!['"']);
    let u = id + seq!['"'];
    assert(u[0] == id[0]);
    assert(u.drop_last() =~= id);
    assert(strip_quotes(id) == id);
    assert(strip_quotes(u) == strip_quotes(id));
    assert(strip_quotes(t) == strip_quotes(u));
    reveal_strlit("null");
    let n = "null"@;
    assert(n.len() == 4);
    assert(n[0] == 'n');
    assert(!is_ws(n[0]) && !is_ws(n.last()));
    lemma_trim_unpadded(n);
    assert(strip_quotes(n) == n);
}

} // verus!

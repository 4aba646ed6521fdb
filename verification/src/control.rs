//! Request decisions of the local control service: URL decoding, query
//! parsing, routing of `/api/*` and `/agent/*` requests, parameter checks and
//! content types. Serving and the channel to the main thread stay with the
//! caller.

use vstd::prelude::*;
use vstd::utf8::{valid_utf8, decode_utf8, encode_utf8};
use crate::text::{chars_of, find_char, find_in, trim_bounds, trim_seq};
use vstd::string::StrSliceExecFns;
use vstd::string::StringExecFns;
use crate::db::ActionRow;
use crate::pet::opt_view;
use crate::import::{rows_view, bindings_view};

verus! {

/// Value of an ASCII hexadecimal digit.
pub open spec fn hex_spec(c: u8) -> Option<u8> {
    if 0x30 <= c <= 0x39 {
        Some((c - 0x30) as u8)
    } else if 0x61 <= c <= 0x66 {
        Some((c - 0x61 + 10) as u8)
    } else if 0x41 <= c <= 0x46 {
        Some((c - 0x41 + 10) as u8)
    } else {
        None
    }
}

/// The value of a hexadecimal digit byte, if `c` is one.
pub fn hex_val(c: Option<u8>) -> (r: Option<u8>)
    ensures
        r == match c {
            Some(b) => hex_spec(b),
            None => None,
        },
{
    let b = match c {
        Some(b) => b,
        None => return None,
    };
    if 0x30 <= b && b <= 0x39 {
        Some(b - 0x30)
    } else if 0x61 <= b && b <= 0x66 {
        Some(b - 0x61 + 10)
    } else if 0x41 <= b && b <= 0x46 {
        Some(b - 0x41 + 10)
    } else {
        None
    }
}

/// Bytes of `b[i..]` with every `%XY` (two hexadecimal digits) replaced by
/// the byte it encodes; any other byte, a lone `%` included, is kept.
pub open spec fn pct_decode_from(b: Seq<u8>, i: int) -> Seq<u8>
    decreases b.len() - i,
{
    if i < 0 || i >= b.len() {
        Seq::empty()
    } else if b[i] == 0x25 && i + 2 < b.len() && hex_spec(b[i + 1]) is Some && hex_spec(b[i + 2]) is Some {
        seq![(hex_spec(b[i + 1])->0 * 16 + hex_spec(b[i + 2])->0) as u8] + pct_decode_from(b, i + 3)
    } else {
        seq![b[i]] + pct_decode_from(b, i + 1)
    }
}

/// Text that `String::from_utf8_lossy` makes of the bytes `b`.
pub uninterp spec fn lossy_utf8(b: Seq<u8>) -> Seq<char>;

/// Calls `String::from_utf8_lossy`; its documentation promises that valid
/// UTF-8 comes back unchanged, and invalid sequences become U+FFFD.
#[verifier::external_body]
fn utf8_lossy(b: &[u8]) -> (s: String)
    ensures
        s@ == lossy_utf8(b@),
        valid_utf8(b@) ==> s@ == decode_utf8(b@),
{
    String::from_utf8_lossy(b).into_owned()
}

/// Decodes `%XY` escapes in `s`; the resulting bytes are read as UTF-8, with
/// invalid sequences replaced.
pub fn percent_decode(s: &str) -> (r: String)
    ensures
        r@ == lossy_utf8(pct_decode_from(encode_utf8(s@), 0)),
{
    let b = s.as_bytes();
    let mut out: Vec<u8> = Vec::new();
    let mut i: usize = 0;
    while i < b.len()
        invariant
            i <= b@.len(),
            out@ + pct_decode_from(b@, i as int) == pct_decode_from(b@, 0),
        decreases b@.len() - i,
    {
        if b[i] == 0x25 && i + 1 < b.len() {
            let hi = hex_val(if i + 1 < b.len() {
                Some(b[i + 1])
            } else {
                None
            });
            let lo = hex_val(if i + 2 < b.len() {
                Some(b[i + 2])
            } else {
                None
            });
            if let (Some(h), Some(l)) = (hi, lo) {
                let ghost before = out@;
                out.push(h * 16 + l);
                proof {
                    assert(out@ + pct_decode_from(b@, i + 3) =~= before + pct_decode_from(b@, i as int));
                }
                i += 3;
                continue;
            }
        }
        let ghost before = out@;
        out.push(b[i]);
        proof {
            assert(out@ + pct_decode_from(b@, i + 1) =~= before + pct_decode_from(b@, i as int));
        }
        i += 1;
    }
    proof {
        assert(out@ =~= pct_decode_from(b@, 0));
    }
    utf8_lossy(out.as_slice())
}


// ---------------- URL structure ----------------

/// The non-empty pieces of `s[i..]` between `/` characters, in order.
pub open spec fn segments_from(s: Seq<char>, i: int) -> Seq<Seq<char>>
    decreases s.len() - i,
{
    if i < 0 || i >= s.len() {
        Seq::empty()
    } else if s[i] == '/' {
        segments_from(s, i + 1)
    } else {
        let j = find_char(s, '/', i);
        if j <= i || j > s.len() {
            Seq::empty()
        } else {
            seq![s.subrange(i, j)] + segments_from(s, j)
        }
    }
}

/// The path of a request URL: everything before the first `?`.
pub open spec fn url_path(url: Seq<char>) -> Seq<char> {
    url.subrange(0, find_char(url, '?', 0))
}

/// The query of a request URL: everything after the first `?`, if any.
pub open spec fn url_query(url: Seq<char>) -> Seq<char> {
    let k = find_char(url, '?', 0);
    if k < url.len() {
        url.subrange(k + 1, url.len() as int)
    } else {
        Seq::empty()
    }
}

proof fn lemma_find_char_range(s: Seq<char>, c: char, i: int)
    requires
        0 <= i <= s.len(),
    ensures
        i <= find_char(s, c, i) <= s.len(),
        find_char(s, c, i) < s.len() ==> s[find_char(s, c, i)] == c,
        forall|k: int| i <= k < find_char(s, c, i) ==> s[k] != c,
    decreases s.len() - i,
{
    if i < s.len() && s[i] != c {
        lemma_find_char_range(s, c, i + 1);
    }
}

/// Bounds of the `/`-separated non-empty pieces of `v[from..to]`.
pub fn segment_bounds(v: &Vec<char>, from: usize, to: usize) -> (r: Vec<(usize, usize)>)
    requires
        from <= to <= v@.len(),
    ensures
        r@.len() == segments_from(v@.subrange(from as int, to as int), 0).len(),
        forall|k: int|
            0 <= k < r@.len() ==> (#[trigger] r@[k]).0 <= r@[k].1 <= v@.len() && v@.subrange(
                r@[k].0 as int,
                r@[k].1 as int,
            ) == segments_from(v@.subrange(from as int, to as int), 0)[k],
{
    let ghost t = v@.subrange(from as int, to as int);
    let mut r: Vec<(usize, usize)> = Vec::new();
    let mut i = from;
    while i < to
        invariant
            from <= i <= to <= v@.len(),
            t == v@.subrange(from as int, to as int),
            r@.len() + segments_from(t, i - from).len() == segments_from(t, 0).len(),
            forall|k: int|
                0 <= k < r@.len() ==> (#[trigger] r@[k]).0 <= r@[k].1 <= v@.len() && v@.subrange(
                    r@[k].0 as int,
                    r@[k].1 as int,
                ) == segments_from(t, 0)[k],
            forall|k: int|
                0 <= k < segments_from(t, i - from).len() ==> #[trigger] segments_from(t, i - from)[k]
                    == segments_from(t, 0)[r@.len() + k],
        decreases to - i,
    {
        if v[i] == '/' {
            assert(t[i - from] == v@[i as int]);
            i += 1;
        } else {
            assert(t[i - from] == v@[i as int]);
            let mut j = i;
            while j < to && v[j] != '/'
                invariant
                    i <= j <= to <= v@.len(),
                    t == v@.subrange(from as int, to as int),
                    forall|k: int| i <= k < j ==> v@[k] != '/',
                decreases to - j,
            {
                j += 1;
            }
            proof {
                lemma_find_char_range(t, '/', i - from);
                let f = find_char(t, '/', i - from);
                if f < j - from {
                    assert(t[f] == v@[from + f]);
                }
                if j < to {
                    assert(t[j - from] == v@[j as int]);
                    lemma_find_char_exact(t, '/', i - from, j - from);
                } else {
                    lemma_find_char_exact(t, '/', i - from, j - from);
                }
                assert(t.subrange(i - from, j - from) =~= v@.subrange(i as int, j as int));
                let rest = segments_from(t, j - from);
                assert(segments_from(t, i - from) =~= seq![t.subrange(i - from, j - from)] + rest);
                assert(segments_from(t, i - from)[0] == segments_from(t, 0)[r@.len() as int]);
                assert forall|k: int| 0 <= k < rest.len() implies #[trigger] rest[k] == segments_from(t, 0)[r@.len()
                    + 1 + k] by {
                    assert(rest[k] == segments_from(t, i - from)[k + 1]);
                }
            }
            let ghost old_r = r@;
            r.push((i, j));
            proof {
                assert forall|k: int| 0 <= k < r@.len() implies (#[trigger] r@[k]).0 <= r@[k].1 <= v@.len() && v@.subrange(
                    r@[k].0 as int,
                    r@[k].1 as int,
                ) == segments_from(t, 0)[k] by {
                    if k < old_r.len() {
                        assert(r@[k] == old_r[k]);
                        assert(v@.subrange(old_r[k].0 as int, old_r[k].1 as int) == segments_from(t, 0)[k]);
                    } else {
                        assert(r@[k] == (i, j));
                    }
                }
            }
            i = j;
        }
    }
    proof {
        assert(segments_from(t, i - from).len() == 0);
    }
    r
}

/// When no `c` occurs in `s[i..j]` and `s[j]` is `c` (or `j` is the end),
/// the search from `i` stops at `j`.
proof fn lemma_find_char_exact(s: Seq<char>, c: char, i: int, j: int)
    requires
        0 <= i <= j <= s.len(),
        forall|k: int| i <= k < j ==> s[k] != c,
        j < s.len() ==> s[j] == c,
    ensures
        find_char(s, c, i) == j,
    decreases j - i,
{
    if i < j {
        lemma_find_char_exact(s, c, i + 1, j);
    }
}

/// Whether `v[a..b]` spells `lit`.
pub fn span_is(v: &Vec<char>, a: usize, b: usize, lit: &str) -> (r: bool)
    requires
        a <= b <= v@.len(),
    ensures
        r == (v@.subrange(a as int, b as int) == lit@),
{
    let l = chars_of(lit);
    if b - a != l.len() {
        return false;
    }
    let mut i: usize = 0;
    while i < l.len()
        invariant
            a <= b <= v@.len(),
            b - a == l@.len(),
            l@ == lit@,
            i <= l@.len(),
            forall|k: int| 0 <= k < i ==> v@[a + k] == l@[k],
        decreases l@.len() - i,
    {
        if v[a + i] != l[i] {
            assert(v@.subrange(a as int, b as int)[i as int] != lit@[i as int]);
            return false;
        }
        i += 1;
    }
    assert(v@.subrange(a as int, b as int) =~= lit@);
    true
}


// ---------------- query strings ----------------

/// The raw `(key, value)` pieces of the non-empty `&`-separated pairs of
/// `q[i..]`; a pair without `=` has an empty value.
pub open spec fn query_pairs_from(q: Seq<char>, i: int) -> Seq<(Seq<char>, Seq<char>)>
    decreases q.len() - i,
{
    if i < 0 || i > q.len() {
        Seq::empty()
    } else {
        let j = find_char(q, '&', i);
        if j < i || j > q.len() {
            Seq::empty()
        } else {
            let pair = q.subrange(i, j);
            let rest = if j < q.len() {
                query_pairs_from(q, j + 1)
            } else {
                Seq::empty()
            };
            if pair.len() == 0 {
                rest
            } else {
                let e = find_char(pair, '=', 0);
                let value = if e < pair.len() {
                    pair.subrange(e + 1, pair.len() as int)
                } else {
                    Seq::empty()
                };
                seq![(pair.subrange(0, e), value)] + rest
            }
        }
    }
}

/// A query value after percent-decoding.
pub open spec fn decoded_value(v: Seq<char>) -> Seq<char> {
    lossy_utf8(pct_decode_from(encode_utf8(v), 0))
}

/// The map made by inserting the first `n` pairs in order: a later pair with
/// the same key replaces an earlier one.
pub open spec fn pairs_map(p: Seq<(Seq<char>, Seq<char>)>, n: int) -> Map<Seq<char>, Seq<char>>
    decreases n,
{
    if n <= 0 {
        Map::empty()
    } else {
        pairs_map(p, n - 1).insert(p[n - 1].0, decoded_value(p[n - 1].1))
    }
}

/// The parameters of a query string `a=1&b=2`, values percent-decoded.
pub open spec fn query_map(q: Seq<char>) -> Map<Seq<char>, Seq<char>> {
    let p = query_pairs_from(q, 0);
    pairs_map(p, p.len() as int)
}

/// The map that a list of distinct keys with values stands for.
pub open spec fn entries_represent(e: Seq<(String, String)>, m: Map<Seq<char>, Seq<char>>) -> bool {
    &&& forall|i: int, j: int| 0 <= i < j < e.len() ==> (#[trigger] e[i]).0@ != (#[trigger] e[j]).0@
    &&& forall|i: int| 0 <= i < e.len() ==> m.contains_key((#[trigger] e[i]).0@) && m[e[i].0@] == e[i].1@
    &&& forall|k: Seq<char>| #[trigger] m.contains_key(k) ==> exists|i: int| 0 <= i < e.len() && (#[trigger] e[i]).0@ == k
}

/// Index of the entry with key `key`, if any.
pub fn query_find(e: &Vec<(String, String)>, key: &str) -> (r: Option<usize>)
    ensures
        match r {
            Some(i) => i < e@.len() && e@[i as int].0@ == key@,
            None => forall|i: int| 0 <= i < e@.len() ==> (#[trigger] e@[i]).0@ != key@,
        },
{
    let mut i: usize = 0;
    while i < e.len()
        invariant
            i <= e@.len(),
            forall|k: int| 0 <= k < i ==> (#[trigger] e@[k]).0@ != key@,
        decreases e@.len() - i,
    {
        if crate::text::str_eq(e[i].0.as_str(), key) {
            return Some(i);
        }
        i += 1;
    }
    None
}

proof fn lemma_pairs_from_step(q: Seq<char>, i: int)
    requires
        0 <= i <= q.len(),
    ensures
        i <= find_char(q, '&', i) <= q.len(),
        find_char(q, '&', i) < q.len() ==> q[find_char(q, '&', i)] == '&',
        forall|k: int| i <= k < find_char(q, '&', i) ==> q[k] != '&',
{
    lemma_find_char_range(q, '&', i);
}

/// Splits `a=1&b=2` into parameters (see [`query_map`]), each key once.
pub fn parse_query(qs: &str) -> (r: Vec<(String, String)>)
    ensures
        entries_represent(r@, query_map(qs@)),
{
    let v = chars_of(qs);
    let ghost q = qs@;
    let ghost all = query_pairs_from(q, 0);
    let n = v.len();
    let mut r: Vec<(String, String)> = Vec::new();
    let mut i: usize = 0;
    let ghost mut cnt: int = 0;
    proof {
        assert(all.subrange(0, all.len() as int) =~= all);
    }
    loop
        invariant_except_break
            query_pairs_from(q, i as int) == all.subrange(cnt, all.len() as int),
        invariant
            v@ == q,
            q == qs@,
            n == q.len(),
            i <= n,
            all == query_pairs_from(q, 0),
            0 <= cnt <= all.len(),
            entries_represent(r@, pairs_map(all, cnt)),
        ensures
            entries_represent(r@, pairs_map(all, all.len() as int)),
        decreases n - i,
    {
        proof {
            lemma_pairs_from_step(q, i as int);
        }
        let j = find_in(&v, '&', i, n);
        proof {
            assert(find_char(q, '&', i as int) == j) by {
                lemma_find_char_shift(q, '&', i as int);
            }
        }
        let ghost rest = if j < n {
            query_pairs_from(q, j + 1)
        } else {
            Seq::empty()
        };
        if j > i {
            let e = find_in(&v, '=', i, j);
            let ghost pair = q.subrange(i as int, j as int);
            proof {
                assert(v@.subrange(i as int, j as int) == pair);
            }
            let key = qs.substring_char(i, e).to_owned();
            let raw = if e < j {
                qs.substring_char(e + 1, j)
            } else {
                qs.substring_char(j, j)
            };
            let val = percent_decode(raw);
            proof {
                let k0 = find_char(pair, '=', 0);
                assert(e == i + k0);
                assert(pair.subrange(0, k0) =~= q.subrange(i as int, e as int));
                if e < j {
                    assert(pair.subrange(k0 + 1, pair.len() as int) =~= q.subrange(e + 1, j as int));
                } else {
                    assert(q.subrange(j as int, j as int) =~= Seq::<char>::empty());
                }
                assert(query_pairs_from(q, i as int) == seq![(key@, raw@)] + rest);
                assert(all.subrange(cnt, all.len() as int).len() >= 1);
                assert(all[cnt] == (key@, raw@)) by {
                    assert(all.subrange(cnt, all.len() as int)[0] == all[cnt]);
                }
                assert(rest == all.subrange(cnt + 1, all.len() as int)) by {
                    assert(rest =~= (seq![(key@, raw@)] + rest).subrange(1, 1 + rest.len() as int));
                    assert(all.subrange(cnt + 1, all.len() as int) =~= all.subrange(cnt, all.len() as int).subrange(1, all.len() - cnt));
                }
            }
            let ghost old_r = r@;
            match query_find(&r, key.as_str()) {
                Some(k) => {
                    r[k] = (key, val);
                    proof {
                        let m = pairs_map(all, cnt + 1);
                        assert(m == pairs_map(all, cnt).insert(all[cnt].0, decoded_value(all[cnt].1)));
                        assert forall|a: int, b: int| 0 <= a < b < r@.len() implies (#[trigger] r@[a]).0@
                            != (#[trigger] r@[b]).0@ by {
                            assert(old_r[a].0@ != old_r[b].0@);
                        }
                        assert forall|a: int| 0 <= a < r@.len() implies m.contains_key((#[trigger] r@[a]).0@)
                            && m[r@[a].0@] == r@[a].1@ by {
                            if a != k {
                                assert(old_r[a].0@ != old_r[k as int].0@);
                            }
                        }
                        assert forall|kk: Seq<char>| #[trigger] m.contains_key(kk) implies exists|a: int|
                            0 <= a < r@.len() && (#[trigger] r@[a]).0@ == kk by {
                            if kk == key@ {
                                assert(r@[k as int].0@ == kk);
                            } else {
                                let a = choose|a: int| 0 <= a < old_r.len() && (#[trigger] old_r[a]).0@ == kk;
                                assert(r@[a].0@ == kk);
                            }
                        }
                    }
                },
                None => {
                    r.push((key, val));
                    proof {
                        let m = pairs_map(all, cnt + 1);
                        assert(m == pairs_map(all, cnt).insert(all[cnt].0, decoded_value(all[cnt].1)));
                        assert forall|a: int, b: int| 0 <= a < b < r@.len() implies (#[trigger] r@[a]).0@
                            != (#[trigger] r@[b]).0@ by {
                            if b < old_r.len() {
                                assert(old_r[a].0@ != old_r[b].0@);
                            } else {
                                assert(old_r[a].0@ != key@);
                            }
                        }
                        assert forall|a: int| 0 <= a < r@.len() implies m.contains_key((#[trigger] r@[a]).0@)
                            && m[r@[a].0@] == r@[a].1@ by {
                            if a < old_r.len() {
                                assert(old_r[a] == r@[a]);
                                assert(old_r[a].0@ != key@);
                            }
                        }
                        assert forall|kk: Seq<char>| #[trigger] m.contains_key(kk) implies exists|a: int|
                            0 <= a < r@.len() && (#[trigger] r@[a]).0@ == kk by {
                            if kk == key@ {
                                assert(r@[old_r.len() as int].0@ == kk);
                            } else {
                                let a = choose|a: int| 0 <= a < old_r.len() && (#[trigger] old_r[a]).0@ == kk;
                                assert(r@[a].0@ == kk);
                            }
                        }
                    }
                },
            }
            proof {
                cnt = cnt + 1;
            }
        } else {
            proof {
                assert(q.subrange(i as int, j as int).len() == 0);
                assert(query_pairs_from(q, i as int) == rest);
            }
        }
        if j >= n {
            proof {
                assert(rest.len() == 0);
                assert(cnt == all.len());
            }
            break;
        }
        i = j + 1;
    }
    r
}

/// Search from `i` in the whole text equals search in the tail from `i`.
proof fn lemma_find_char_shift(s: Seq<char>, c: char, i: int)
    requires
        0 <= i <= s.len(),
    ensures
        find_char(s, c, i) == i + find_char(s.subrange(i, s.len() as int), c, 0),
    decreases s.len() - i,
{
    let t = s.subrange(i, s.len() as int);
    if i < s.len() && s[i] != c {
        lemma_find_char_shift(s, c, i + 1);
        lemma_find_char_tail(t, c);
        assert(t.subrange(1, t.len() as int) =~= s.subrange(i + 1, s.len() as int));
    }
}

/// Searching from position 1 is searching the tail, shifted by one.
proof fn lemma_find_char_tail(t: Seq<char>, c: char)
    requires
        t.len() > 0,
    ensures
        find_char(t, c, 1) == 1 + find_char(t.subrange(1, t.len() as int), c, 0),
{
    lemma_find_char_offset(t, c, 1, 0);
}

proof fn lemma_find_char_offset(t: Seq<char>, c: char, d: int, i: int)
    requires
        0 <= d <= t.len(),
        0 <= i <= t.len() - d,
    ensures
        find_char(t, c, d + i) == d + find_char(t.subrange(d, t.len() as int), c, i),
    decreases t.len() - d - i,
{
    if i < t.len() - d && t[d + i] != c {
        lemma_find_char_offset(t, c, d, i + 1);
    }
}


// ---------------- routing ----------------

/// HTTP request methods that the service distinguishes.
#[derive(Clone, Copy, Debug, PartialEq, Eq, Structural)]
pub enum Method {
    Get,
    Post,
    Put,
    Patch,
    Delete,
    Other,
}

/// What to do with a request. Operations that read the request body are
/// named here; reading and decoding the body is left to the caller.
#[derive(Debug)]
pub enum Route {
    /// Host header is not a loopback address: answer 403.
    Forbidden,
    State,
    GetConfig,
    PatchConfig,
    Import,
    Play,
    Move,
    SetState,
    Say,
    PetsList,
    SwitchPet { id: String },
    DeletePet { id: String, delete_files: bool },
    GetPetActions { id: String },
    UpdatePetName { id: String },
    SavePetActions { id: String },
    ImportVideo { id: String },
    JobsList { id: String },
    FullBody { id: String },
    Webm { id: String, action: String },
    GetSettings,
    PatchSettings,
    GetSystem,
    Quit,
    /// Any other GET: a file of the management console.
    Console { path: String },
    /// Anything else: answer 404.
    NotFound,
}

/// [`Route`] with its texts as character sequences.
pub enum RouteView {
    Forbidden,
    State,
    GetConfig,
    PatchConfig,
    Import,
    Play,
    Move,
    SetState,
    Say,
    PetsList,
    SwitchPet { id: Seq<char> },
    DeletePet { id: Seq<char>, delete_files: bool },
    GetPetActions { id: Seq<char> },
    UpdatePetName { id: Seq<char> },
    SavePetActions { id: Seq<char> },
    ImportVideo { id: Seq<char> },
    JobsList { id: Seq<char> },
    FullBody { id: Seq<char> },
    Webm { id: Seq<char>, action: Seq<char> },
    GetSettings,
    PatchSettings,
    GetSystem,
    Quit,
    Console { path: Seq<char> },
    NotFound,
}

impl View for Route {
    type V = RouteView;

    open spec fn view(&self) -> RouteView {
        match self {
            Route::Forbidden => RouteView::Forbidden,
            Route::State => RouteView::State,
            Route::GetConfig => RouteView::GetConfig,
            Route::PatchConfig => RouteView::PatchConfig,
            Route::Import => RouteView::Import,
            Route::Play => RouteView::Play,
            Route::Move => RouteView::Move,
            Route::SetState => RouteView::SetState,
            Route::Say => RouteView::Say,
            Route::PetsList => RouteView::PetsList,
            Route::SwitchPet { id } => RouteView::SwitchPet { id: id@ },
            Route::DeletePet { id, delete_files } => RouteView::DeletePet { id: id@, delete_files: *delete_files },
            Route::GetPetActions { id } => RouteView::GetPetActions { id: id@ },
            Route::UpdatePetName { id } => RouteView::UpdatePetName { id: id@ },
            Route::SavePetActions { id } => RouteView::SavePetActions { id: id@ },
            Route::ImportVideo { id } => RouteView::ImportVideo { id: id@ },
            Route::JobsList { id } => RouteView::JobsList { id: id@ },
            Route::FullBody { id } => RouteView::FullBody { id: id@ },
            Route::Webm { id, action } => RouteView::Webm { id: id@, action: action@ },
            Route::GetSettings => RouteView::GetSettings,
            Route::PatchSettings => RouteView::PatchSettings,
            Route::GetSystem => RouteView::GetSystem,
            Route::Quit => RouteView::Quit,
            Route::Console { path } => RouteView::Console { path: path@ },
            Route::NotFound => RouteView::NotFound,
        }
    }
}

/// `delete_files=1` or `delete_files=true` in the query.
pub open spec fn delete_files_flag(query: Seq<char>) -> bool {
    let m = query_map(query);
    m.contains_key("delete_files"@) && (m["delete_files"@] == "1"@ || m["delete_files"@] == "true"@)
}

/// The route for method `m` and the path pieces `s` (`path` and `query` are
/// the URL's parts).
pub open spec fn route_of(m: Method, s: Seq<Seq<char>>, path: Seq<char>, query: Seq<char>) -> RouteView {
    let n = s.len();
    let api = n >= 1 && s[0] == "api"@;
    let agent = n >= 1 && s[0] == "agent"@;
    let pets = api && n >= 2 && s[1] == "pets"@;
    let pet = api && n == 3 && s[1] == "pet"@;
    if m == Method::Get && api && n == 2 && s[1] == "state"@ {
        RouteView::State
    } else if m == Method::Get && api && n == 2 && s[1] == "config"@ {
        RouteView::GetConfig
    } else if m == Method::Patch && api && n == 2 && s[1] == "config"@ {
        RouteView::PatchConfig
    } else if m == Method::Post && api && n == 2 && s[1] == "import"@ {
        RouteView::Import
    } else if m == Method::Post && pet && s[2] == "play"@ {
        RouteView::Play
    } else if m == Method::Post && pet && s[2] == "move"@ {
        RouteView::Move
    } else if m == Method::Post && pet && s[2] == "set_state"@ {
        RouteView::SetState
    } else if m == Method::Post && pet && s[2] == "say"@ {
        RouteView::Say
    } else if m == Method::Get && pets && n == 2 {
        RouteView::PetsList
    } else if m == Method::Post && pets && n == 4 && s[3] == "switch"@ {
        RouteView::SwitchPet { id: s[2] }
    } else if m == Method::Delete && pets && n == 3 {
        RouteView::DeletePet { id: s[2], delete_files: delete_files_flag(query) }
    } else if m == Method::Get && pets && n == 4 && s[3] == "actions"@ {
        RouteView::GetPetActions { id: s[2] }
    } else if m == Method::Put && pets && n == 4 && s[3] == "name"@ {
        RouteView::UpdatePetName { id: s[2] }
    } else if m == Method::Put && pets && n == 4 && s[3] == "actions"@ {
        RouteView::SavePetActions { id: s[2] }
    } else if m == Method::Post && pets && n == 5 && s[3] == "import"@ && s[4] == "video"@ {
        RouteView::ImportVideo { id: s[2] }
    } else if m == Method::Get && pets && n == 4 && s[3] == "jobs"@ {
        RouteView::JobsList { id: s[2] }
    } else if m == Method::Get && pets && n == 4 && s[3] == "fullbody"@ {
        RouteView::FullBody { id: s[2] }
    } else if m == Method::Get && pets && n == 5 && s[3] == "webm"@ {
        RouteView::Webm { id: s[2], action: s[4] }
    } else if m == Method::Get && api && n == 2 && s[1] == "settings"@ {
        RouteView::GetSettings
    } else if m == Method::Patch && api && n == 2 && s[1] == "settings"@ {
        RouteView::PatchSettings
    } else if m == Method::Get && api && n == 2 && s[1] == "system"@ {
        RouteView::GetSystem
    } else if m == Method::Post && api && n == 2 && s[1] == "quit"@ {
        RouteView::Quit
    } else if m == Method::Get && agent && n == 2 && s[1] == "state"@ {
        RouteView::State
    } else if m == Method::Post && agent && n == 2 && s[1] == "play"@ {
        RouteView::Play
    } else if m == Method::Post && agent && n == 2 && s[1] == "say"@ {
        RouteView::Say
    } else if m == Method::Post && agent && n == 2 && s[1] == "move"@ {
        RouteView::Move
    } else if m == Method::Get {
        RouteView::Console { path }
    } else {
        RouteView::NotFound
    }
}

/// The route of a request: refused unless its host is a loopback address,
/// otherwise decided by method and the non-empty pieces of the URL's path.
pub open spec fn spec_route(host_ok: bool, m: Method, url: Seq<char>) -> RouteView {
    if !host_ok {
        RouteView::Forbidden
    } else {
        route_of(m, segments_from(url_path(url), 0), url_path(url), url_query(url))
    }
}

/// Whether piece `k` of the path spells `lit`.
fn piece_is(v: &Vec<char>, b: &Vec<(usize, usize)>, k: usize, lit: &str, Ghost(s): Ghost<Seq<Seq<char>>>) -> (r: bool)
    requires
        b@.len() == s.len(),
        forall|j: int|
            0 <= j < b@.len() ==> (#[trigger] b@[j]).0 <= b@[j].1 <= v@.len() && v@.subrange(
                b@[j].0 as int,
                b@[j].1 as int,
            ) == s[j],
    ensures
        r == (k < s.len() && s[k as int] == lit@),
{
    if k >= b.len() {
        return false;
    }
    let (x, y) = b[k];
    span_is(v, x, y, lit)
}

/// The text of `url[a..b]`.
fn text_of(url: &str, a: usize, b: usize) -> (r: String)
    requires
        a <= b <= url@.len(),
    ensures
        r@ == url@.subrange(a as int, b as int),
{
    url.substring_char(a, b).to_owned()
}

/// Decides what to do with a request (see [`spec_route`]).
pub fn route(host_ok: bool, method: Method, url: &str) -> (r: Route)
    ensures
        r@ == spec_route(host_ok, method, url@),
{
    if !host_ok {
        return Route::Forbidden;
    }
    let v = chars_of(url);
    let n = v.len();
    let qk = find_in(&v, '?', 0, n);
    proof {
        assert(v@.subrange(0, n as int) =~= v@);
        assert(v@.subrange(0, qk as int) == url_path(url@));
    }
    let b = segment_bounds(&v, 0, qk);
    let ghost s = segments_from(url_path(url@), 0);
    let path = text_of(url, 0, qk);
    let query = if qk < n {
        text_of(url, qk + 1, n)
    } else {
        text_of(url, n, n)
    };
    proof {
        assert(url@.subrange(n as int, n as int) =~= url_query(url@) || qk < n);
    }
    let nseg = b.len();
    let api = piece_is(&v, &b, 0, "api", Ghost(s));
    let agent = piece_is(&v, &b, 0, "agent", Ghost(s));
    let pets = api && nseg >= 2 && piece_is(&v, &b, 1, "pets", Ghost(s));
    let pet = api && nseg == 3 && piece_is(&v, &b, 1, "pet", Ghost(s));
    let id = if nseg >= 3 {
        text_of(url, b[2].0, b[2].1)
    } else {
        text_of(url, 0, 0)
    };
    let is_get = method == Method::Get;
    let is_post = method == Method::Post;
    let is_put = method == Method::Put;
    let is_patch = method == Method::Patch;
    let is_delete = method == Method::Delete;
    let r = if is_get && api && nseg == 2 && piece_is(&v, &b, 1, "state", Ghost(s)) {
        Route::State
    } else if is_get && api && nseg == 2 && piece_is(&v, &b, 1, "config", Ghost(s)) {
        Route::GetConfig
    } else if is_patch && api && nseg == 2 && piece_is(&v, &b, 1, "config", Ghost(s)) {
        Route::PatchConfig
    } else if is_post && api && nseg == 2 && piece_is(&v, &b, 1, "import", Ghost(s)) {
        Route::Import
    } else if is_post && pet && piece_is(&v, &b, 2, "play", Ghost(s)) {
        Route::Play
    } else if is_post && pet && piece_is(&v, &b, 2, "move", Ghost(s)) {
        Route::Move
    } else if is_post && pet && piece_is(&v, &b, 2, "set_state", Ghost(s)) {
        Route::SetState
    } else if is_post && pet && piece_is(&v, &b, 2, "say", Ghost(s)) {
        Route::Say
    } else if is_get && pets && nseg == 2 {
        Route::PetsList
    } else if is_post && pets && nseg == 4 && piece_is(&v, &b, 3, "switch", Ghost(s)) {
        Route::SwitchPet { id }
    } else if is_delete && pets && nseg == 3 {
        let q = parse_query(query.as_str());
        let delete_files = match query_find(&q, "delete_files") {
            Some(k) => crate::text::str_eq(q[k].1.as_str(), "1") || crate::text::str_eq(q[k].1.as_str(), "true"),
            None => false,
        };
        proof {
            let m = query_map(query@);
            if m.contains_key("delete_files"@) {
                let i = choose|i: int| 0 <= i < q@.len() && (#[trigger] q@[i]).0@ == "delete_files"@;
                assert(q@[i].0@ == "delete_files"@);
            }
        }
        Route::DeletePet { id, delete_files }
    } else if is_get && pets && nseg == 4 && piece_is(&v, &b, 3, "actions", Ghost(s)) {
        Route::GetPetActions { id }
    } else if is_put && pets && nseg == 4 && piece_is(&v, &b, 3, "name", Ghost(s)) {
        Route::UpdatePetName { id }
    } else if is_put && pets && nseg == 4 && piece_is(&v, &b, 3, "actions", Ghost(s)) {
        Route::SavePetActions { id }
    } else if is_post && pets && nseg == 5 && piece_is(&v, &b, 3, "import", Ghost(s)) && piece_is(
        &v,
        &b,
        4,
        "video",
        Ghost(s),
    ) {
        Route::ImportVideo { id }
    } else if is_get && pets && nseg == 4 && piece_is(&v, &b, 3, "jobs", Ghost(s)) {
        Route::JobsList { id }
    } else if is_get && pets && nseg == 4 && piece_is(&v, &b, 3, "fullbody", Ghost(s)) {
        Route::FullBody { id }
    } else if is_get && pets && nseg == 5 && piece_is(&v, &b, 3, "webm", Ghost(s)) {
        let action = text_of(url, b[4].0, b[4].1);
        Route::Webm { id, action }
    } else if is_get && api && nseg == 2 && piece_is(&v, &b, 1, "settings", Ghost(s)) {
        Route::GetSettings
    } else if is_patch && api && nseg == 2 && piece_is(&v, &b, 1, "settings", Ghost(s)) {
        Route::PatchSettings
    } else if is_get && api && nseg == 2 && piece_is(&v, &b, 1, "system", Ghost(s)) {
        Route::GetSystem
    } else if is_post && api && nseg == 2 && piece_is(&v, &b, 1, "quit", Ghost(s)) {
        Route::Quit
    } else if is_get && agent && nseg == 2 && piece_is(&v, &b, 1, "state", Ghost(s)) {
        Route::State
    } else if is_post && agent && nseg == 2 && piece_is(&v, &b, 1, "play", Ghost(s)) {
        Route::Play
    } else if is_post && agent && nseg == 2 && piece_is(&v, &b, 1, "say", Ghost(s)) {
        Route::Say
    } else if is_post && agent && nseg == 2 && piece_is(&v, &b, 1, "move", Ghost(s)) {
        Route::Move
    } else if is_get {
        Route::Console { path }
    } else {
        Route::NotFound
    };
    r
}


// ---------------- request checks ----------------

/// Whether `s` contains `c`.
pub open spec fn has_char(s: Seq<char>, c: char) -> bool {
    exists|i: int| 0 <= i < s.len() && s[i] == c
}

/// Whether `s` contains `..`.
pub open spec fn has_dotdot(s: Seq<char>) -> bool {
    exists|i: int| 0 <= i < s.len() - 1 && #[trigger] s[i] == '.' && s[i + 1] == '.'
}

/// A name that is safe as one path component: no `/`, no `\` and no `..`.
pub open spec fn safe_component(s: Seq<char>) -> bool {
    !has_char(s, '/') && !has_char(s, '\\') && !has_dotdot(s)
}

/// Whether `s` is safe as one path component (see [`safe_component`]).
pub fn is_safe_component(s: &str) -> (r: bool)
    ensures
        r == safe_component(s@),
{
    let v = chars_of(s);
    let n = v.len();
    let mut i: usize = 0;
    while i < n
        invariant
            n == s@.len(),
            v@ == s@,
            i <= n,
            forall|k: int| 0 <= k < i ==> s@[k] != '/' && s@[k] != '\\',
            forall|k: int| 0 <= k < i && k < n - 1 ==> !(#[trigger] s@[k] == '.' && s@[k + 1] == '.'),
        decreases n - i,
    {
        if v[i] == '/' || v[i] == '\\' {
            return false;
        }
        if v[i] == '.' && i + 1 < n && v[i + 1] == '.' {
            return false;
        }
        i += 1;
    }
    true
}

/// Why a request was refused (all answered with status 400).
#[derive(Clone, Copy, Debug, PartialEq, Eq, Structural)]
pub enum RequestError {
    InvalidPetId,
    InvalidAction,
    EmptyBody,
}

/// Checks a request for an animation file: the pet id must be a safe path
/// component, and so must the percent-decoded action, which must not be
/// empty. Returns the decoded action.
pub fn webm_target(pet_id: &str, action_raw: &str) -> (r: Result<String, RequestError>)
    ensures
        !safe_component(pet_id@) ==> r == Err::<String, RequestError>(RequestError::InvalidPetId),
        safe_component(pet_id@) ==> match r {
            Ok(a) => a@ == decoded_value(action_raw@) && a@.len() > 0 && safe_component(a@),
            Err(e) => e == RequestError::InvalidAction && (decoded_value(action_raw@).len() == 0
                || !safe_component(decoded_value(action_raw@))),
        },
{
    if !is_safe_component(pet_id) {
        return Err(RequestError::InvalidPetId);
    }
    let action = percent_decode(action_raw);
    if action.as_str().unicode_len() == 0 || !is_safe_component(action.as_str()) {
        return Err(RequestError::InvalidAction);
    }
    Ok(action)
}

/// Checks a request for the full-body image: the pet id must be a safe path
/// component.
pub fn fullbody_target(pet_id: &str) -> (r: Result<(), RequestError>)
    ensures
        r is Ok <==> safe_component(pet_id@),
        r is Err ==> r == Err::<(), RequestError>(RequestError::InvalidPetId),
{
    if !is_safe_component(pet_id) {
        return Err(RequestError::InvalidPetId);
    }
    Ok(())
}

/// Trimmed, percent-decoded value of `key` in the query map (empty when
/// absent), decoded once more.
pub open spec fn query_text(m: Map<Seq<char>, Seq<char>>, key: Seq<char>) -> Seq<char> {
    trim_seq(decoded_value(if m.contains_key(key) {
        m[key]
    } else {
        Seq::empty()
    }))
}

/// The owner kind of an imported action: `click` and `drag` are kept, anything
/// else becomes `state`.
pub open spec fn owner_kind(o: Seq<char>) -> Seq<char> {
    if o == "click"@ || o == "drag"@ {
        o
    } else {
        "state"@
    }
}

/// A trimmed copy of `s`.
fn trimmed(s: &str) -> (r: String)
    ensures
        r@ == trim_seq(s@),
{
    let v = chars_of(s);
    let (lo, hi) = trim_bounds(&v, 0, v.len());
    proof {
        assert(v@.subrange(0, v@.len() as int) =~= v@);
    }
    s.substring_char(lo, hi).to_owned()
}

/// Reads the parameters of a video import, `?action=..&owner=..`, for the
/// pet `pet_id` with a body of `body_len` bytes: the pet id must be a safe
/// path component, the action present and safe, and the body not empty.
/// Returns the action and the owner kind.
pub fn video_import_params(pet_id: &str, query: &str, body_len: usize) -> (r: Result<(String, String), RequestError>)
    ensures
        ({
            let m = query_map(query@);
            let action = query_text(m, "action"@);
            let owner = owner_kind(query_text(m, "owner"@));
            if !safe_component(pet_id@) {
                r == Err::<(String, String), RequestError>(RequestError::InvalidPetId)
            } else if action.len() == 0 || !safe_component(action) {
                r == Err::<(String, String), RequestError>(RequestError::InvalidAction)
            } else if body_len == 0 {
                r == Err::<(String, String), RequestError>(RequestError::EmptyBody)
            } else {
                r matches Ok(p) && p.0@ == action && p.1@ == owner
            }
        }),
{
    if !is_safe_component(pet_id) {
        return Err(RequestError::InvalidPetId);
    }
    let q = parse_query(query);
    let ghost m = query_map(query@);
    let empty = String::new();
    let a_raw = match query_find(&q, "action") {
        Some(k) => &q[k].1,
        None => &empty,
    };
    let o_raw = match query_find(&q, "owner") {
        Some(k) => &q[k].1,
        None => &empty,
    };
    proof {
        if m.contains_key("action"@) {
            let i = choose|i: int| 0 <= i < q@.len() && (#[trigger] q@[i]).0@ == "action"@;
            assert(q@[i].0@ == "action"@);
        }
        if m.contains_key("owner"@) {
            let i = choose|i: int| 0 <= i < q@.len() && (#[trigger] q@[i]).0@ == "owner"@;
            assert(q@[i].0@ == "owner"@);
        }
        assert(empty@ =~= Seq::<char>::empty());
    }
    let action = trimmed(percent_decode(a_raw.as_str()).as_str());
    let owner0 = trimmed(percent_decode(o_raw.as_str()).as_str());
    let owner = if crate::text::str_eq(owner0.as_str(), "click") || crate::text::str_eq(owner0.as_str(), "drag") {
        owner0
    } else {
        "state".to_string()
    };
    if action.as_str().unicode_len() == 0 || !is_safe_component(action.as_str()) {
        return Err(RequestError::InvalidAction);
    }
    if body_len == 0 {
        return Err(RequestError::EmptyBody);
    }
    Ok((action, owner))
}


// ---------------- headers ----------------

/// Code point of the ASCII lower case of `c`; other characters are kept.
pub open spec fn ascii_lower(c: char) -> u32 {
    if 'A' <= c <= 'Z' {
        ((c as u32) + 32) as u32
    } else {
        c as u32
    }
}

pub open spec fn lower_seq(s: Seq<char>) -> Seq<u32> {
    s.map_values(|c: char| ascii_lower(c))
}

pub open spec fn codes(s: Seq<char>) -> Seq<u32> {
    s.map_values(|c: char| c as u32)
}

/// Equal up to ASCII case (as `str::eq_ignore_ascii_case`).
pub open spec fn eq_ignore_case(a: Seq<char>, b: Seq<char>) -> bool {
    lower_seq(a) == lower_seq(b)
}

fn lower_code(c: char) -> (r: u32)
    ensures
        r == ascii_lower(c),
{
    if 'A' <= c && c <= 'Z' {
        c as u32 + 32
    } else {
        c as u32
    }
}

/// Whether `lower_seq(s)` starts with `lit` (given in lower case).
fn lower_starts_with(s: &Vec<char>, lit: &str) -> (r: bool)
    ensures
        r == (lit@.len() <= s@.len() && lower_seq(s@).subrange(0, lit@.len() as int) == codes(lit@)),
{
    let l = chars_of(lit);
    if l.len() > s.len() {
        return false;
    }
    let mut i: usize = 0;
    while i < l.len()
        invariant
            l@ == lit@,
            l@.len() <= s@.len(),
            i <= l@.len(),
            forall|k: int| 0 <= k < i ==> ascii_lower(s@[k]) == l@[k] as u32,
        decreases l@.len() - i,
    {
        if lower_code(s[i]) != l[i] as u32 {
            assert(lower_seq(s@).subrange(0, lit@.len() as int)[i as int] != codes(lit@)[i as int]);
            return false;
        }
        i += 1;
    }
    assert(lower_seq(s@).subrange(0, lit@.len() as int) =~= codes(lit@));
    true
}

/// Whether two strings are equal up to ASCII case.
fn eq_ignore_ascii_case(a: &str, b: &str) -> (r: bool)
    ensures
        r == eq_ignore_case(a@, b@),
{
    let x = chars_of(a);
    let y = chars_of(b);
    if x.len() != y.len() {
        assert(lower_seq(a@).len() != lower_seq(b@).len());
        return false;
    }
    let mut i: usize = 0;
    while i < x.len()
        invariant
            x@ == a@,
            y@ == b@,
            x@.len() == y@.len(),
            i <= x@.len(),
            forall|k: int| 0 <= k < i ==> ascii_lower(x@[k]) == ascii_lower(y@[k]),
        decreases x@.len() - i,
    {
        if lower_code(x[i]) != lower_code(y[i]) {
            assert(lower_seq(a@)[i as int] != lower_seq(b@)[i as int]);
            return false;
        }
        i += 1;
    }
    assert(lower_seq(a@) =~= lower_seq(b@));
    true
}

/// Whether the lower-cased header value `v` names the host `name`: exactly
/// `name`, or `name`, a `:` and a port of one or more ASCII digits.
pub open spec fn host_value_is(v: Seq<u32>, name: Seq<char>) -> bool {
    let n = codes(name);
    ||| v == n
    ||| (v.len() > n.len() + 1 && v.subrange(0, n.len() as int) == n && v[n.len() as int] == 58 && forall|k: int|
        n.len() + 1 <= k < v.len() ==> 48 <= #[trigger] v[k] <= 57)
}

/// A `Host` header naming this machine: its value, in lower case, is
/// `127.0.0.1`, `localhost` or `[::1]`, alone or followed by `:` and a port.
pub open spec fn loopback_host(h: (Seq<char>, Seq<char>)) -> bool {
    let v = lower_seq(h.1);
    &&& eq_ignore_case(h.0, "host"@)
    &&& {
        ||| host_value_is(v, "127.0.0.1"@)
        ||| host_value_is(v, "localhost"@)
        ||| host_value_is(v, "[::1]"@)
    }
}

/// Whether the lower-cased `s` names the host `lit` (given in lower case),
/// with or without a port (see [`host_value_is`]).
fn names_host(s: &Vec<char>, lit: &str) -> (r: bool)
    ensures
        r == host_value_is(lower_seq(s@), lit@),
{
    let l = chars_of(lit);
    let ghost v = lower_seq(s@);
    let ghost c = codes(lit@);
    if !lower_starts_with(s, lit) {
        proof {
            if v == c {
                assert(v.subrange(0, c.len() as int) =~= v);
            }
        }
        return false;
    }
    let n = l.len();
    proof {
        assert(l@ == lit@);
        assert(c.len() == n);
        assert(v.len() == s@.len());
        assert(v.subrange(0, n as int) == c);
    }
    if s.len() == n {
        proof {
            assert(v =~= v.subrange(0, n as int));
        }
        return true;
    }
    proof {
        assert(v.len() != c.len());
    }
    if lower_code(s[n]) != 58 {
        proof {
            assert(v[n as int] == ascii_lower(s@[n as int]));
        }
        return false;
    }
    proof {
        assert(v[n as int] == 58);
    }
    if s.len() == n + 1 {
        proof {
            assert(v.len() == n + 1);
            assert(c.len() == n);
        }
        return false;
    }
    let mut k: usize = n + 1;
    while k < s.len()
        invariant
            v == lower_seq(s@),
            c == codes(lit@),
            n == c.len(),
            v.len() == s@.len(),
            v.len() > n + 1,
            v.subrange(0, n as int) == c,
            v[n as int] == 58,
            n + 1 <= k <= s@.len(),
            forall|j: int| n + 1 <= j < k ==> 48 <= #[trigger] v[j] <= 57,
        decreases s@.len() - k,
    {
        let lc = lower_code(s[k]);
        if !(48 <= lc && lc <= 57) {
            proof {
                assert(v[k as int] == ascii_lower(s@[k as int]));
            }
            return false;
        }
        proof {
            assert(v[k as int] == ascii_lower(s@[k as int]));
        }
        k += 1;
    }
    true
}

/// Whether some header `(field, value)` is a loopback `Host` header. Only such
/// requests are served, which keeps other sites and rebinding DNS names out.
pub fn host_is_loopback(headers: &Vec<(String, String)>) -> (r: bool)
    ensures
        r == exists|i: int| 0 <= i < headers@.len() && loopback_host(((#[trigger] headers@[i]).0@, headers@[i].1@)),
{
    let mut i: usize = 0;
    while i < headers.len()
        invariant
            i <= headers@.len(),
            forall|k: int| 0 <= k < i ==> !loopback_host(((#[trigger] headers@[k]).0@, headers@[k].1@)),
        decreases headers@.len() - i,
    {
        let (f, v) = (&headers[i].0, &headers[i].1);
        if eq_ignore_ascii_case(f.as_str(), "host") {
            let vc = chars_of(v.as_str());
            if names_host(&vc, "127.0.0.1") || names_host(&vc, "localhost") || names_host(&vc, "[::1]") {
                assert(loopback_host((headers@[i as int].0@, headers@[i as int].1@)));
                return true;
            }
        }
        i += 1;
    }
    false
}

// ---------------- content types ----------------

/// Index of the last `c` in `s`, if any.
pub open spec fn last_index_of(s: Seq<char>, c: char) -> Option<int>
    decreases s.len(),
{
    if s.len() == 0 {
        None
    } else if s.last() == c {
        Some(s.len() - 1)
    } else {
        last_index_of(s.drop_last(), c)
    }
}

/// The text after the last `.` of a path (the whole path without one).
pub open spec fn extension(path: Seq<char>) -> Seq<char> {
    match last_index_of(path, '.') {
        Some(k) => path.subrange(k + 1, path.len() as int),
        None => path,
    }
}

/// The content type served for a console path, by its extension.
pub open spec fn content_type_spec(path: Seq<char>) -> Seq<char> {
    let e = extension(path);
    if path == "/"@ {
        "text/html; charset=utf-8"@
    } else if e == "html"@ {
        "text/html; charset=utf-8"@
    } else if e == "js"@ || e == "mjs"@ {
        "text/javascript; charset=utf-8"@
    } else if e == "css"@ {
        "text/css; charset=utf-8"@
    } else if e == "svg"@ {
        "image/svg+xml"@
    } else if e == "png"@ {
        "image/png"@
    } else if e == "jpg"@ || e == "jpeg"@ {
        "image/jpeg"@
    } else if e == "gif"@ {
        "image/gif"@
    } else if e == "webp"@ {
        "image/webp"@
    } else if e == "ico"@ {
        "image/x-icon"@
    } else if e == "woff"@ {
        "font/woff"@
    } else if e == "woff2"@ {
        "font/woff2"@
    } else if e == "ttf"@ {
        "font/ttf"@
    } else if e == "json"@ {
        "application/json; charset=utf-8"@
    } else if e == "map"@ {
        "application/json"@
    } else if e == "wasm"@ {
        "application/wasm"@
    } else {
        "application/octet-stream"@
    }
}

/// The content type for a console path (see [`content_type_spec`]).
pub fn content_type_for(path: &str) -> (r: &'static str)
    ensures
        r@ == content_type_spec(path@),
{
    let v = chars_of(path);
    let n = v.len();
    let mut k = n;
    proof {
        assert(v@.subrange(0, n as int) =~= path@);
    }
    while k > 0 && v[k - 1] != '.'
        invariant
            k <= n,
            n == v@.len(),
            v@ == path@,
            last_index_of(v@.subrange(0, k as int), '.') == last_index_of(path@, '.'),
        decreases k,
    {
        proof {
            assert(v@.subrange(0, k as int).drop_last() =~= v@.subrange(0, k - 1));
        }
        k -= 1;
    }
    proof {
        assert(v@.subrange(0, n as int) =~= v@);
        if k > 0 {
            assert(v@.subrange(0, k as int).last() == '.');
        }
    }
    let (a, b) = if k > 0 {
        (k, n)
    } else {
        (0, n)
    };
    if span_is(&v, 0, n, "/") {
        return "text/html; charset=utf-8";
    }
    if span_is(&v, a, b, "html") {
        "text/html; charset=utf-8"
    } else if span_is(&v, a, b, "js") || span_is(&v, a, b, "mjs") {
        "text/javascript; charset=utf-8"
    } else if span_is(&v, a, b, "css") {
        "text/css; charset=utf-8"
    } else if span_is(&v, a, b, "svg") {
        "image/svg+xml"
    } else if span_is(&v, a, b, "png") {
        "image/png"
    } else if span_is(&v, a, b, "jpg") || span_is(&v, a, b, "jpeg") {
        "image/jpeg"
    } else if span_is(&v, a, b, "gif") {
        "image/gif"
    } else if span_is(&v, a, b, "webp") {
        "image/webp"
    } else if span_is(&v, a, b, "ico") {
        "image/x-icon"
    } else if span_is(&v, a, b, "woff") {
        "font/woff"
    } else if span_is(&v, a, b, "woff2") {
        "font/woff2"
    } else if span_is(&v, a, b, "ttf") {
        "font/ttf"
    } else if span_is(&v, a, b, "json") {
        "application/json; charset=utf-8"
    } else if span_is(&v, a, b, "map") {
        "application/json"
    } else if span_is(&v, a, b, "wasm") {
        "application/wasm"
    } else {
        "application/octet-stream"
    }
}


// ---------------- laws ----------------

/// Requests from a host other than this machine are refused, whatever they ask.
pub proof fn foreign_hosts_are_refused(m: Method, url: Seq<char>)
    ensures
        spec_route(false, m, url) == RouteView::Forbidden,
{
}

/// The non-empty `/`-separated pieces of a request URL's path.
pub open spec fn url_pieces(url: Seq<char>) -> Seq<Seq<char>> {
    segments_from(url_path(url), 0)
}

/// Each operation on one pet is reached from exactly one method and path
/// shape, `/api/pets/{id}/...`, and carries the id from the path: renaming is
/// `PUT .../name`, saving the action settings `PUT .../actions`, reading them
/// `GET .../actions`, switching `POST .../switch`, the conversion jobs
/// `GET .../jobs`, the full-body picture `GET .../fullbody`, importing a
/// video `POST .../import/video`, and deleting `DELETE /api/pets/{id}`.
pub proof fn pet_operations_come_from_their_paths(m: Method, url: Seq<char>, id: Seq<char>)
    ensures
        (spec_route(true, m, url) == RouteView::UpdatePetName { id }) <==> (m == Method::Put && url_pieces(url)
            == seq!["api"@, "pets"@, id, "name"@]),
        (spec_route(true, m, url) == RouteView::SavePetActions { id }) <==> (m == Method::Put && url_pieces(url)
            == seq!["api"@, "pets"@, id, "actions"@]),
        (spec_route(true, m, url) == RouteView::GetPetActions { id }) <==> (m == Method::Get && url_pieces(url)
            == seq!["api"@, "pets"@, id, "actions"@]),
        (spec_route(true, m, url) == RouteView::SwitchPet { id }) <==> (m == Method::Post && url_pieces(url)
            == seq!["api"@, "pets"@, id, "switch"@]),
        (spec_route(true, m, url) == RouteView::JobsList { id }) <==> (m == Method::Get && url_pieces(url)
            == seq!["api"@, "pets"@, id, "jobs"@]),
        (spec_route(true, m, url) == RouteView::FullBody { id }) <==> (m == Method::Get && url_pieces(url)
            == seq!["api"@, "pets"@, id, "fullbody"@]),
        (spec_route(true, m, url) == RouteView::ImportVideo { id }) <==> (m == Method::Post && url_pieces(url)
            == seq!["api"@, "pets"@, id, "import"@, "video"@]),
        (spec_route(true, m, url) matches RouteView::DeletePet { id: x, .. } && x == id) <==> (m == Method::Delete
            && url_pieces(url) == seq!["api"@, "pets"@, id]),
{
    reveal_strlit("api");
    reveal_strlit("pets");
    reveal_strlit("pet");
    reveal_strlit("name");
    reveal_strlit("actions");
    reveal_strlit("switch");
    reveal_strlit("jobs");
    reveal_strlit("fullbody");
    reveal_strlit("import");
    reveal_strlit("video");
    reveal_strlit("webm");
    reveal_strlit("agent");
    reveal_strlit("state");
    reveal_strlit("config");
    reveal_strlit("settings");
    reveal_strlit("system");
    reveal_strlit("quit");
    reveal_strlit("play");
    reveal_strlit("move");
    reveal_strlit("say");
    reveal_strlit("set_state");
    let lits = seq!["name"@, "actions"@, "switch"@, "jobs"@, "fullbody"@, "import"@, "webm"@];
    assert forall|a: int, b: int| 0 <= a < 7 && 0 <= b < 7 && a != b implies #[trigger] lits[a] != #[trigger] lits[b] by {
        if lits[a].len() == lits[b].len() {
            assert(lits[a][0] != lits[b][0] || lits[a][1] != lits[b][1]);
        }
    }
    assert("actions"@ != "name"@ && "jobs"@ != "actions"@ && "fullbody"@ != "actions"@ && "jobs"@ != "name"@);
    assert("fullbody"@ != "name"@ && "fullbody"@ != "jobs"@ && "jobs"@ != "switch"@ && "fullbody"@ != "switch"@);
    assert("pets"@.len() == 4 && "pet"@.len() == 3);
    assert("pets"@ != "pet"@);
    assert("api"@.len() == 3 && "agent"@.len() == 5);
    assert("api"@ != "agent"@);
    let s = segments_from(url_path(url), 0);
    if s.len() == 4 {
        assert(s == seq![s[0], s[1], s[2], s[3]]);
    }
    if s.len() == 5 {
        assert(s == seq![s[0], s[1], s[2], s[3], s[4]]);
    }
    if s.len() == 3 {
        assert(s == seq![s[0], s[1], s[2]]);
    }
}

/// A `Host` value that goes on past a loopback name with anything but a port
/// (such as `localhost.evil.example`) does not name this machine, so a
/// rebinding DNS name is refused.
pub proof fn names_continued_past_loopback_are_refused(f: Seq<char>, v: Seq<char>, name: Seq<char>)
    requires
        name == "127.0.0.1"@ || name == "localhost"@ || name == "[::1]"@,
        v.len() > name.len(),
        lower_seq(v).subrange(0, name.len() as int) == codes(name),
        lower_seq(v)[name.len() as int] != 58,
    ensures
        !loopback_host((f, v)),
{
    reveal_strlit("127.0.0.1");
    reveal_strlit("localhost");
    reveal_strlit("[::1]");
    let lv = lower_seq(v);
    assert(lv[0] == codes(name)[0]) by {
        assert(lv.subrange(0, name.len() as int)[0] == lv[0]);
    }
    let names = seq!["127.0.0.1"@, "localhost"@, "[::1]"@];
    assert forall|j: int| 0 <= j < 3 implies !host_value_is(lv, #[trigger] names[j]) by {
        let n2 = names[j];
        if host_value_is(lv, n2) {
            if lv == codes(n2) {
                assert(lv[0] == codes(n2)[0]);
            } else {
                assert(lv.subrange(0, n2.len() as int)[0] == lv[0]);
            }
            assert(codes(n2)[0] == codes(name)[0]);
            assert(n2 == name);
            assert(lv != codes(name));
        }
    }
    assert(!host_value_is(lv, names[0]));
    assert(!host_value_is(lv, names[1]));
    assert(!host_value_is(lv, names[2]));
}

/// The `/agent/*` paths offered to outside programs reach only the read-only
/// state and the playback operations (play, say, move), never the settings,
/// the pet list or the management operations.
pub proof fn agent_paths_reach_only_playback(m: Method, url: Seq<char>)
    requires
        segments_from(url_path(url), 0).len() >= 1,
        segments_from(url_path(url), 0)[0] == "agent"@,
    ensures
        match spec_route(true, m, url) {
            RouteView::State | RouteView::Play | RouteView::Say | RouteView::Move | RouteView::Console { .. }
            | RouteView::NotFound => true,
            _ => false,
        },
{
    reveal_strlit("agent");
    reveal_strlit("api");
    assert("agent"@.len() == 5 && "api"@.len() == 3);
}

/// Plain ASCII text without `%` comes out of percent-decoding unchanged.
pub proof fn percent_decode_keeps_plain_text(s: Seq<char>)
    requires
        vstd::utf8::is_ascii_chars(s),
        !has_char(s, '%'),
    ensures
        lossy_utf8(pct_decode_from(encode_utf8(s), 0)) == lossy_utf8(encode_utf8(s)),
        decode_utf8(encode_utf8(s)) == s,
{
    vstd::utf8::is_ascii_chars_encode_utf8(s);
    vstd::utf8::encode_utf8_decode_utf8(s);
    let b = encode_utf8(s);
    assert forall|i: int| 0 <= i < b.len() implies b[i] != 0x25 by {
        assert(s[i] as u8 == b[i]);
        if b[i] == 0x25 {
            assert(s[i] == '%');
        }
    }
    lemma_pct_no_escape(b, 0);
    assert(b.subrange(0, b.len() as int) =~= b);
}

proof fn lemma_pct_no_escape(b: Seq<u8>, i: int)
    requires
        0 <= i <= b.len(),
        forall|k: int| 0 <= k < b.len() ==> b[k] != 0x25,
    ensures
        pct_decode_from(b, i) == b.subrange(i, b.len() as int),
    decreases b.len() - i,
{
    if i < b.len() {
        lemma_pct_no_escape(b, i + 1);
        assert(seq![b[i]] + b.subrange(i + 1, b.len() as int) =~= b.subrange(i, b.len() as int));
    } else {
        assert(b.subrange(i, b.len() as int) =~= Seq::<u8>::empty());
    }
}

// ---------------- action settings from the console ----------------

/// A state binding as the console sends it; fields it leaves out, or sends
/// with another JSON type, are absent.
pub struct StateItem<W> {
    pub state_id: Option<String>,
    pub weight: Option<W>,
    pub enabled: Option<bool>,
}

/// An action's settings as the console sends them (see [`StateItem`]).
pub struct ActionItem<W> {
    pub action: Option<String>,
    pub display_name: Option<String>,
    pub owner_kind: Option<String>,
    pub kind: Option<String>,
    pub enabled: Option<bool>,
    pub states: Option<Vec<StateItem<W>>>,
}

/// The row an item describes, its absent fields filled in: the display name
/// is the action, the owner kind `state`, and it is enabled.
pub open spec fn item_row<W>(it: ActionItem<W>, a: Seq<char>) -> (Seq<char>, Seq<char>, Seq<char>, Option<Seq<char>>, bool) {
    (
        a,
        match it.display_name {
            Some(d) => d@,
            None => a,
        },
        match it.owner_kind {
            Some(o) => o@,
            None => "state"@,
        },
        opt_view(it.kind),
        match it.enabled {
            Some(e) => e,
            None => true,
        },
    )
}

/// The bindings of action `a` from the first `m` state items: those with a
/// state id, with weight `one` and enabled where not given.
pub open spec fn state_bindings<W>(a: Seq<char>, sts: Seq<StateItem<W>>, m: int, one: W) -> Seq<(Seq<char>, Seq<char>, W, bool)>
    decreases m,
{
    if m <= 0 {
        Seq::empty()
    } else {
        let prev = state_bindings(a, sts, m - 1, one);
        let st = sts[m - 1];
        match st.state_id {
            Some(sid) => prev.push(
                (
                    a,
                    sid@,
                    match st.weight {
                        Some(w) => w,
                        None => one,
                    },
                    match st.enabled {
                        Some(e) => e,
                        None => true,
                    },
                ),
            ),
            None => prev,
        }
    }
}

/// The rows and bindings of the first `n` items; items without an action
/// are skipped.
pub open spec fn body_upto<W>(items: Seq<ActionItem<W>>, n: int, one: W) -> (
    Seq<(Seq<char>, Seq<char>, Seq<char>, Option<Seq<char>>, bool)>,
    Seq<(Seq<char>, Seq<char>, W, bool)>,
)
    decreases n,
{
    if n <= 0 {
        (Seq::empty(), Seq::empty())
    } else {
        let prev = body_upto(items, n - 1, one);
        let it = items[n - 1];
        match it.action {
            Some(a) => (
                prev.0.push(item_row(it, a@)),
                prev.1 + match it.states {
                    Some(sts) => state_bindings(a@, sts@, sts@.len() as int, one),
                    None => Seq::empty(),
                },
            ),
            None => prev,
        }
    }
}

fn clone_text(s: &String) -> (r: String)
    ensures
        r@ == s@,
{
    s.as_str().to_owned()
}

fn clone_opt_text(s: &Option<String>) -> (r: Option<String>)
    ensures
        opt_view(r) == opt_view(*s),
{
    match s {
        Some(t) => Some(clone_text(t)),
        None => None,
    }
}

/// The action rows and state bindings that the console's action settings
/// describe (see [`body_upto`]); `one` is the default weight.
pub fn actions_from_items<W: Copy>(items: &Vec<ActionItem<W>>, one: W) -> (r: (Vec<ActionRow>, Vec<(String, String, W, bool)>))
    ensures
        (rows_view(r.0@), bindings_view(r.1@)) == body_upto(items@, items@.len() as int, one),
{
    let mut rows: Vec<ActionRow> = Vec::new();
    let mut binds: Vec<(String, String, W, bool)> = Vec::new();
    let mut i: usize = 0;
    while i < items.len()
        invariant
            i <= items@.len(),
            (rows_view(rows@), bindings_view(binds@)) == body_upto(items@, i as int, one),
        decreases items@.len() - i,
    {
        let it = &items[i];
        match &it.action {
            Some(a) => {
                let display_name = match &it.display_name {
                    Some(d) => clone_text(d),
                    None => clone_text(a),
                };
                let owner_kind = match &it.owner_kind {
                    Some(o) => clone_text(o),
                    None => String::from_str("state"),
                };
                let enabled = match it.enabled {
                    Some(e) => e,
                    None => true,
                };
                let row = ActionRow {
                    action: clone_text(a),
                    display_name,
                    owner_kind,
                    kind: clone_opt_text(&it.kind),
                    enabled,
                };
                let ghost rows0 = rows_view(rows@);
                rows.push(row);
                proof {
                    assert(rows_view(rows@) =~= rows0.push(item_row(*it, a@)));
                }
                let ghost b0 = bindings_view(binds@);
                match &it.states {
                    Some(sts) => {
                        let mut j: usize = 0;
                        while j < sts.len()
                            invariant
                                j <= sts@.len(),
                                bindings_view(binds@) == b0 + state_bindings(a@, sts@, j as int, one),
                            decreases sts@.len() - j,
                        {
                            let st = &sts[j];
                            match &st.state_id {
                                Some(sid) => {
                                    let w = match st.weight {
                                        Some(w) => w,
                                        None => one,
                                    };
                                    let e = match st.enabled {
                                        Some(e) => e,
                                        None => true,
                                    };
                                    let ghost bb = bindings_view(binds@);
                                    binds.push((clone_text(a), clone_text(sid), w, e));
                                    proof {
                                        assert(bindings_view(binds@) =~= bb.push((a@, sid@, w, e)));
                                        assert(b0 + state_bindings(a@, sts@, j + 1, one) =~= (b0
                                            + state_bindings(a@, sts@, j as int, one)).push((a@, sid@, w, e)));
                                    }
                                },
                                None => {},
                            }
                            j += 1;
                        }
                    },
                    None => {
                        proof {
                            assert(b0 + Seq::<(Seq<char>, Seq<char>, W, bool)>::empty() =~= b0);
                        }
                    },
                }
            },
            None => {},
        }
        i += 1;
    }
    (rows, binds)
}

/// The address of the control service on local port `port`.
pub open spec fn console_url_text(port: nat) -> Seq<char> {
    "http://127.0.0.1:"@ + crate::text::dec_digits(port)
}

/// Writes the address of the control service (see [`console_url_text`]).
pub fn console_url(port: u16) -> (r: String)
    ensures
        r@ == console_url_text(port as nat),
{
    let mut s = String::from_str("http://127.0.0.1:");
    crate::text::push_decimal(&mut s, port as u64);
    s
}

} // verus!

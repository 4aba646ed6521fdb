//! Small text utilities on character sequences: whitespace trimming, field
//! splitting and decimal parsing, with the meaning of the corresponding
//! standard-library operations.

use vstd::prelude::*;
use vstd::string::StrSliceExecFns;
use vstd::string::StringExecFns;

verus! {

/// Unicode `White_Space`, the property behind `char::is_whitespace`.
pub open spec fn is_ws(c: char) -> bool {
    let u = c as u32;
    ||| 9 <= u <= 13
    ||| u == 32
    ||| u == 0x85
    ||| u == 0xA0
    ||| u == 0x1680
    ||| 0x2000 <= u <= 0x200A
    ||| u == 0x2028
    ||| u == 0x2029
    ||| u == 0x202F
    ||| u == 0x205F
    ||| u == 0x3000
}

/// Whether `c` is whitespace (see [`is_ws`]).
pub fn is_whitespace(c: char) -> (r: bool)
    ensures
        r == is_ws(c),
{
    let u = c as u32;
    (9 <= u && u <= 13) || u == 32 || u == 0x85 || u == 0xA0 || u == 0x1680 || (0x2000 <= u && u
        <= 0x200A) || u == 0x2028 || u == 0x2029 || u == 0x202F || u == 0x205F || u == 0x3000
}

/// First index at or after `i` that does not hold whitespace.
pub open spec fn skip_ws(s: Seq<char>, i: int) -> int
    decreases s.len() - i,
{
    if 0 <= i < s.len() && is_ws(s[i]) {
        skip_ws(s, i + 1)
    } else {
        i
    }
}

/// End of `s[lo..j]` once trailing whitespace is dropped.
pub open spec fn back_ws(s: Seq<char>, lo: int, j: int) -> int
    decreases j - lo,
{
    if lo < j && is_ws(s[j - 1]) {
        back_ws(s, lo, j - 1)
    } else {
        j
    }
}

/// `s` without leading and trailing whitespace (as `str::trim`).
pub open spec fn trim_seq(s: Seq<char>) -> Seq<char> {
    let lo = skip_ws(s, 0);
    s.subrange(lo, back_ws(s, lo, s.len() as int))
}

/// Index of the first `c` at or after `i`, or the length.
pub open spec fn find_char(s: Seq<char>, c: char, i: int) -> int
    decreases s.len() - i,
{
    if i < 0 || i >= s.len() {
        s.len() as int
    } else if s[i] == c {
        i
    } else {
        find_char(s, c, i + 1)
    }
}

pub open spec fn is_digit(c: char) -> bool {
    '0' <= c <= '9'
}

/// Value of a string of decimal digits.
pub open spec fn digits_value(s: Seq<char>) -> nat
    decreases s.len(),
{
    if s.len() == 0 {
        0
    } else {
        digits_value(s.drop_last()) * 10 + (s.last() as u32 - '0' as u32) as nat
    }
}

/// `s` without one leading `+`.
pub open spec fn strip_plus(s: Seq<char>) -> Seq<char> {
    if s.len() > 0 && s[0] == '+' {
        s.drop_first()
    } else {
        s
    }
}

pub open spec fn all_digits(d: Seq<char>) -> bool {
    forall|i: int| 0 <= i < d.len() ==> is_digit(#[trigger] d[i])
}

/// What `u32::from_str` accepts: an optional `+`, then one or more decimal
/// digits whose value fits in 32 bits.
pub open spec fn parse_u32_spec(s: Seq<char>) -> Option<u32> {
    let d = strip_plus(s);
    if d.len() > 0 && all_digits(d) && digits_value(d) <= u32::MAX {
        Some(digits_value(d) as u32)
    } else {
        None
    }
}

/// The characters of a string.
pub fn chars_of(s: &str) -> (v: Vec<char>)
    ensures
        v@ == s@,
{
    let n = s.unicode_len();
    let mut v: Vec<char> = Vec::new();
    let mut i: usize = 0;
    while i < n
        invariant
            n == s@.len(),
            i <= n,
            v@ == s@.subrange(0, i as int),
        decreases n - i,
    {
        v.push(s.get_char(i));
        i += 1;
        assert(v@ =~= s@.subrange(0, i as int));
    }
    assert(v@ =~= s@);
    v
}

/// Bounds `(lo, hi)` of `s[from..to]` without surrounding whitespace.
pub fn trim_bounds(s: &Vec<char>, from: usize, to: usize) -> (r: (usize, usize))
    requires
        from <= to <= s@.len(),
    ensures
        trim_seq(s@.subrange(from as int, to as int)) == s@.subrange(r.0 as int, r.1 as int),
        from <= r.0 <= r.1 <= to,
{
    let ghost t = s@.subrange(from as int, to as int);
    let mut lo = from;
    while lo < to && is_whitespace(s[lo])
        invariant
            from <= lo <= to <= s@.len(),
            t == s@.subrange(from as int, to as int),
            skip_ws(t, (lo - from) as int) == skip_ws(t, 0),
        decreases to - lo,
    {
        assert(t[lo - from] == s@[lo as int]);
        lo += 1;
    }
    proof {
        if lo < to {
            assert(t[lo - from] == s@[lo as int]);
        }
    }
    let mut hi = to;
    while hi > lo && is_whitespace(s[hi - 1])
        invariant
            from <= lo <= hi <= to <= s@.len(),
            t == s@.subrange(from as int, to as int),
            lo - from == skip_ws(t, 0),
            back_ws(t, lo - from, hi - from) == back_ws(t, lo - from, to - from),
        decreases hi - lo,
    {
        assert(t[hi - from - 1] == s@[hi - 1]);
        hi -= 1;
    }
    proof {
        if hi > lo {
            assert(t[hi - from - 1] == s@[hi - 1]);
        }
        assert(t.subrange(lo - from, hi - from) =~= s@.subrange(lo as int, hi as int));
    }
    (lo, hi)
}

/// First index of `c` in `s[from..to]`, or `to`.
pub fn find_in(s: &Vec<char>, c: char, from: usize, to: usize) -> (r: usize)
    requires
        from <= to <= s@.len(),
    ensures
        from + find_char(s@.subrange(from as int, to as int), c, 0) == r,
        from <= r <= to,
{
    let ghost t = s@.subrange(from as int, to as int);
    let mut i = from;
    while i < to && s[i] != c
        invariant
            from <= i <= to <= s@.len(),
            t == s@.subrange(from as int, to as int),
            find_char(t, c, (i - from) as int) == find_char(t, c, 0),
        decreases to - i,
    {
        assert(t[i - from] == s@[i as int]);
        i += 1;
    }
    proof {
        if i < to {
            assert(t[i - from] == s@[i as int]);
        }
    }
    i
}

proof fn lemma_digits_value_push(s: Seq<char>, c: char)
    ensures
        digits_value(s.push(c)) == digits_value(s) * 10 + (c as u32 - '0' as u32) as nat,
{
    assert(s.push(c).drop_last() =~= s);
}

/// Parses `s[from..to]` as `u32::from_str` does.
pub fn parse_u32_in(s: &Vec<char>, from: usize, to: usize) -> (r: Option<u32>)
    requires
        from <= to <= s@.len(),
    ensures
        r == parse_u32_spec(s@.subrange(from as int, to as int)),
{
    let ghost t = s@.subrange(from as int, to as int);
    let mut i = from;
    if i < to && s[i] == '+' {
        i += 1;
    }
    let ghost d = s@.subrange(i as int, to as int);
    proof {
        if from < to && s@[from as int] == '+' {
            assert(d =~= t.drop_first());
        } else {
            assert(d =~= t);
        }
    }
    if i >= to {
        return None;
    }
    let start = i;
    let mut v: u64 = 0;
    while i < to
        invariant
            start <= i <= to <= s@.len(),
            start < to,
            t == s@.subrange(from as int, to as int),
            d == strip_plus(t),
            d == s@.subrange(start as int, to as int),
            forall|k: int| 0 <= k < i - start ==> is_digit(#[trigger] d[k]),
            v == digits_value(d.subrange(0, i - start)),
            v <= u32::MAX,
        decreases to - i,
    {
        let c = s[i];
        if !('0' <= c && c <= '9') {
            proof {
                lemma_parse_rejects(t, d, (i - start) as int);
            }
            return None;
        }
        let dv = (c as u32 - '0' as u32) as u64;
        proof {
            assert(d.subrange(0, i - start + 1) =~= d.subrange(0, i - start).push(c));
            lemma_digits_value_push(d.subrange(0, i - start), c);
        }
        v = v * 10 + dv;
        if v > 0xFFFF_FFFF {
            proof {
                lemma_parse_rejects(t, d, (i - start + 1) as int);
            }
            return None;
        }
        i += 1;
    }
    assert(d.subrange(0, d.len() as int) =~= d);
    Some(v as u32)
}

/// A digit string is rejected once a non-digit appears or a prefix already
/// exceeds 32 bits.
proof fn lemma_parse_rejects(t: Seq<char>, d: Seq<char>, k: int)
    requires
        d == strip_plus(t),
        0 <= k <= d.len(),
        (k < d.len() && !is_digit(d[k])) || digits_value(d.subrange(0, k)) > u32::MAX,
    ensures
        parse_u32_spec(t) is None,
{
    if all_digits(d) {
        if k < d.len() && !is_digit(d[k]) {
            assert(is_digit(d[k]));
        } else {
            lemma_digits_prefix_mono(d, k);
        }
    }
}

proof fn lemma_digits_prefix_mono(d: Seq<char>, k: int)
    requires
        0 <= k <= d.len(),
        forall|i: int| 0 <= i < d.len() ==> is_digit(#[trigger] d[i]),
    ensures
        digits_value(d.subrange(0, k)) <= digits_value(d),
    decreases d.len() - k,
{
    if k < d.len() {
        lemma_digits_prefix_mono(d, k + 1);
        assert(d.subrange(0, k + 1).drop_last() =~= d.subrange(0, k));
    } else {
        assert(d.subrange(0, k) =~= d);
    }
}


/// Whether two strings hold the same characters.
pub fn str_eq(a: &str, b: &str) -> (r: bool)
    ensures
        r == (a@ == b@),
{
    let x = chars_of(a);
    let y = chars_of(b);
    if x.len() != y.len() {
        return false;
    }
    let mut i: usize = 0;
    while i < x.len()
        invariant
            x@ == a@,
            y@ == b@,
            x@.len() == y@.len(),
            i <= x@.len(),
            forall|k: int| 0 <= k < i ==> x@[k] == y@[k],
        decreases x@.len() - i,
    {
        if x[i] != y[i] {
            assert(a@[i as int] != b@[i as int]);
            return false;
        }
        i += 1;
    }
    assert(x@ =~= y@);
    true
}


/// Whether `b` occurs in `a` as a contiguous piece.
pub open spec fn is_infix(a: Seq<char>, b: Seq<char>) -> bool {
    exists|i: int| 0 <= i <= a.len() - b.len() && #[trigger] a.subrange(i, i + b.len()) == b
}

/// Whether `b` occurs in `a` (see [`is_infix`]).
pub fn contains_chars(a: &Vec<char>, b: &Vec<char>) -> (r: bool)
    ensures
        r == is_infix(a@, b@),
{
    if b.len() > a.len() {
        return false;
    }
    let mut i: usize = 0;
    while i <= a.len() - b.len()
        invariant
            b@.len() <= a@.len(),
            i <= a@.len() - b@.len() + 1,
            forall|k: int| 0 <= k < i ==> #[trigger] a@.subrange(k, k + b@.len()) != b@,
        decreases a@.len() - b@.len() + 1 - i,
    {
        let mut j: usize = 0;
        assert(a@.len() == a.len());
        while j < b.len() && a[i + j] == b[j]
            invariant
                b@.len() <= a@.len(),
                a@.len() == a.len(),
                i <= a@.len() - b@.len(),
                j <= b@.len(),
                forall|k: int| 0 <= k < j ==> a@[i + k] == b@[k],
            decreases b@.len() - j,
        {
            j += 1;
        }
        if j == b.len() {
            assert(a@.subrange(i as int, i + b@.len()) =~= b@);
            return true;
        }
        assert(a@.subrange(i as int, i + b@.len())[j as int] != b@[j as int]);
        i += 1;
    }
    false
}


/// UTF-16 code units of one character.
pub open spec fn utf16_of(c: char) -> Seq<u16> {
    let u = c as u32;
    if u < 0x10000 {
        seq![u as u16]
    } else {
        let v = (u - 0x10000) as u32;
        seq![(0xD800 + v / 0x400) as u16, (0xDC00 + v % 0x400) as u16]
    }
}

/// UTF-16 code units of a text (as `str::encode_utf16`).
pub open spec fn utf16(s: Seq<char>) -> Seq<u16>
    decreases s.len(),
{
    if s.len() == 0 {
        Seq::empty()
    } else {
        utf16(s.drop_last()) + utf16_of(s.last())
    }
}

/// The UTF-16 text of `s` followed by a terminating zero, as wide-character
/// system interfaces expect.
pub fn wide(s: &str) -> (r: Vec<u16>)
    ensures
        r@ == utf16(s@).push(0),
{
    let v = chars_of(s);
    let mut out: Vec<u16> = Vec::new();
    let mut i: usize = 0;
    while i < v.len()
        invariant
            v@ == s@,
            i <= v@.len(),
            out@ == utf16(v@.subrange(0, i as int)),
        decreases v@.len() - i,
    {
        let u = v[i] as u32;
        let ghost before = out@;
        proof {
            assert(v@.subrange(0, i + 1).drop_last() =~= v@.subrange(0, i as int));
            assert(v@.subrange(0, i + 1).last() == v@[i as int]);
        }
        if u < 0x10000 {
            out.push(u as u16);
            proof {
                assert(out@ =~= before + utf16_of(v@[i as int]));
            }
        } else {
            let w = u - 0x10000;
            out.push((0xD800 + w / 0x400) as u16);
            out.push((0xDC00 + w % 0x400) as u16);
            proof {
                assert(out@ =~= before + utf16_of(v@[i as int]));
            }
        }
        i += 1;
    }
    proof {
        assert(v@.subrange(0, v@.len() as int) =~= s@);
    }
    out.push(0);
    out
}

/// The decimal digit character for `d < 10`.
pub open spec fn digit_char(d: nat) -> char {
    (48 + d) as char
}

/// The decimal digits of `n`, most significant first, without leading zeros
/// (as `Display` writes an unsigned integer).
pub open spec fn dec_digits(n: nat) -> Seq<char>
    decreases n,
{
    if n < 10 {
        seq![digit_char(n)]
    } else {
        dec_digits(n / 10).push(digit_char(n % 10))
    }
}

fn digit_str(d: u64) -> (r: &'static str)
    requires
        d < 10,
    ensures
        r@ == seq![digit_char(d as nat)],
{
    let r = match d {
        0 => "0",
        1 => "1",
        2 => "2",
        3 => "3",
        4 => "4",
        5 => "5",
        6 => "6",
        7 => "7",
        8 => "8",
        _ => "9",
    };
    proof {
        reveal_strlit("0");
        reveal_strlit("1");
        reveal_strlit("2");
        reveal_strlit("3");
        reveal_strlit("4");
        reveal_strlit("5");
        reveal_strlit("6");
        reveal_strlit("7");
        reveal_strlit("8");
        reveal_strlit("9");
        assert(r@ =~= seq![digit_char(d as nat)]);
    }
    r
}

/// Appends the digit character of `d < 10` to `s`.
pub fn push_digit(s: &mut String, d: u64)
    requires
        d < 10,
    ensures
        final(s)@ == old(s)@.push(digit_char(d as nat)),
{
    s.append(digit_str(d));
    assert(old(s)@ + seq![digit_char(d as nat)] =~= old(s)@.push(digit_char(d as nat)));
}

/// Appends the decimal digits of `n` to `s`.
pub fn push_decimal(s: &mut String, n: u64)
    ensures
        final(s)@ == old(s)@ + dec_digits(n as nat),
    decreases n,
{
    if n >= 10 {
        push_decimal(s, n / 10);
    }
    s.append(digit_str(n % 10));
    proof {
        if n >= 10 {
            assert(old(s)@ + dec_digits(n as nat) =~= old(s)@ + dec_digits((n / 10) as nat) + seq![
                digit_char((n % 10) as nat),
            ]);
        } else {
            assert(old(s)@ + dec_digits(n as nat) =~= old(s)@ + seq![digit_char(n as nat)]);
        }
    }
}

/// The decimal text of `n`.
pub fn decimal(n: u64) -> (r: String)
    ensures
        r@ == dec_digits(n as nat),
{
    let mut s = String::new();
    push_decimal(&mut s, n);
    assert(Seq::<char>::empty() + dec_digits(n as nat) =~= dec_digits(n as nat));
    s
}

/// Every character of a decimal text is a digit.
pub proof fn lemma_dec_digits_are_digits(n: nat)
    ensures
        forall|i: int| 0 <= i < dec_digits(n).len() ==> is_digit(#[trigger] dec_digits(n)[i]),
    decreases n,
{
    if n >= 10 {
        lemma_dec_digits_are_digits(n / 10);
        assert forall|i: int| 0 <= i < dec_digits(n).len() implies is_digit(#[trigger] dec_digits(n)[i]) by {
            if i < dec_digits(n / 10).len() {
                assert(dec_digits(n)[i] == dec_digits(n / 10)[i]);
            }
        }
    }
}

} // verus!

//! EBML primitives: variable-length integers, element ids, element headers,
//! the child list of one level, and big-endian numeric payloads.
//!
//! Every reader takes a `limit`: the end of the byte window it may read
//! (the whole buffer, or the payload of an enclosing element). Positions are
//! absolute offsets into the buffer.

use vstd::prelude::*;

verus! {

/// 256 to the power `n`.
pub open spec fn pow256(n: nat) -> nat
    decreases n,
{
    if n == 0 {
        1
    } else {
        256 * pow256((n - 1) as nat)
    }
}

/// Big-endian value of a byte sequence.
pub open spec fn be_value(s: Seq<u8>) -> nat
    decreases s.len(),
{
    if s.len() == 0 {
        0
    } else {
        be_value(s.drop_last()) * 256 + s.last() as nat
    }
}

/// Number of bytes of a variable-length integer whose first byte is `b`:
/// one more than the number of leading zero bits; 9 (invalid) for a zero byte.
pub open spec fn vint_width(b: u8) -> int {
    if b >= 0x80 {
        1
    } else if b >= 0x40 {
        2
    } else if b >= 0x20 {
        3
    } else if b >= 0x10 {
        4
    } else if b >= 0x08 {
        5
    } else if b >= 0x04 {
        6
    } else if b >= 0x02 {
        7
    } else if b >= 0x01 {
        8
    } else {
        9
    }
}

/// The length-marker bit of a first byte of width `w`.
pub open spec fn vint_marker(w: int) -> int {
    if w <= 1 {
        0x80
    } else if w == 2 {
        0x40
    } else if w == 3 {
        0x20
    } else if w == 4 {
        0x10
    } else if w == 5 {
        0x08
    } else if w == 6 {
        0x04
    } else if w == 7 {
        0x02
    } else {
        0x01
    }
}

/// A size field at `pos`: its value (marker bit cleared, big-endian) and the
/// position after it; `None` when it starts at or past `limit`, its first byte
/// is zero, or it runs past `limit`.
pub open spec fn spec_read_vint(d: Seq<u8>, limit: int, pos: int) -> Option<(int, int)> {
    if 0 <= pos && pos < limit && limit <= d.len() {
        let b = d[pos];
        let w = vint_width(b);
        if w <= 8 && pos + w <= limit {
            Some(
                (
                    be_value(seq![(b - vint_marker(w)) as u8] + d.subrange(pos + 1, pos + w)) as int,
                    pos + w,
                ),
            )
        } else {
            None
        }
    } else {
        None
    }
}

/// An element id at `pos`: the raw big-endian bytes, marker bit kept.
pub open spec fn spec_read_id(d: Seq<u8>, limit: int, pos: int) -> Option<(int, int)> {
    if 0 <= pos && pos < limit && limit <= d.len() {
        let w = vint_width(d[pos]);
        if w <= 8 && pos + w <= limit {
            Some((be_value(d.subrange(pos, pos + w)) as int, pos + w))
        } else {
            None
        }
    } else {
        None
    }
}

/// An element header at `pos`: `(id, payload start, payload size)`, or `None`
/// when the id or the size cannot be read or the payload runs past `limit`.
pub open spec fn spec_read_elem(d: Seq<u8>, limit: int, pos: int) -> Option<(int, int, int)> {
    match spec_read_id(d, limit, pos) {
        None => None,
        Some((id, p1)) => match spec_read_vint(d, limit, p1) {
            None => None,
            Some((size, p2)) => if p2 + size <= limit {
                Some((id, p2, size))
            } else {
                None
            },
        },
    }
}

/// The elements of one level, read one after another from `pos` while the
/// reading position is before `end`; reading stops at the first header that
/// cannot be read.
pub open spec fn spec_children(d: Seq<u8>, limit: int, pos: int, end: int) -> Seq<(int, int, int)>
    decreases limit - pos,
{
    if pos < end {
        match spec_read_elem(d, limit, pos) {
            Some(e) => if pos < e.1 + e.2 <= limit {
                seq![e] + spec_children(d, limit, e.1 + e.2, end)
            } else {
                Seq::empty()
            },
            None => Seq::empty(),
        }
    } else {
        Seq::empty()
    }
}

/// The first element of `kids` with the given id.
pub open spec fn first_with_id(kids: Seq<(int, int, int)>, id: int) -> Option<(int, int, int)>
    decreases kids.len(),
{
    if kids.len() == 0 {
        None
    } else if kids[0].0 == id {
        Some(kids[0])
    } else {
        first_with_id(kids.drop_first(), id)
    }
}

/// An unsigned big-endian payload of 1 to 8 bytes.
pub open spec fn spec_parse_u64(d: Seq<u8>, p: int, l: int) -> Option<u64> {
    if p < 0 || p + l > d.len() || l == 0 || l > 8 {
        None
    } else {
        Some(be_value(d.subrange(p, p + l)) as u64)
    }
}

/// An unsigned big-endian payload of 1 to 4 bytes.
pub open spec fn spec_parse_u32(d: Seq<u8>, p: int, l: int) -> Option<u32> {
    if p < 0 || p + l > d.len() || l == 0 || l > 4 {
        None
    } else {
        Some(be_value(d.subrange(p, p + l)) as u32)
    }
}

/// A signed payload of 1 to 8 bytes: the unsigned value, negated when bit
/// `63 - 8 * l` of it is set (for 4 to 7 bytes that bit lies inside the value).
pub open spec fn spec_parse_i64(d: Seq<u8>, p: int, l: int) -> Option<i64> {
    match spec_parse_u64(d, p, l) {
        None => None,
        Some(v) => {
            let shift = (64 - l * 8) as u32;
            if shift > 0 && v & (1u64 << ((shift - 1) as u32)) != 0 {
                Some(vstd::wrapping::i64_specs::wrapping_sub(0, v as i64))
            } else {
                Some(v as i64)
            }
        },
    }
}

/// Header triple of an element as read by the executable code.
pub open spec fn hdr(e: (u64, usize, usize)) -> (int, int, int) {
    (e.0 as int, e.1 as int, e.2 as int)
}

// ---------------- lemmas ----------------

/// Appending a byte shifts the big-endian value by one byte.
pub proof fn lemma_be_value_push(s: Seq<u8>, x: u8)
    ensures
        be_value(s.push(x)) == be_value(s) * 256 + x,
{
    assert(s.push(x).drop_last() =~= s);
}

/// A big-endian value of `n` bytes is below `256^n`.
pub proof fn lemma_be_value_bound(s: Seq<u8>)
    ensures
        be_value(s) < pow256(s.len()),
    decreases s.len(),
{
    if s.len() > 0 {
        lemma_be_value_bound(s.drop_last());
    }
}

/// Powers of 256 grow with the exponent.
pub proof fn lemma_pow256_mono(a: nat, b: nat)
    requires
        a <= b,
    ensures
        pow256(a) <= pow256(b),
    decreases b,
{
    if a < b {
        lemma_pow256_mono(a, (b - 1) as nat);
    }
}

/// `256^8` and `256^4`.
pub proof fn lemma_pow256_8()
    ensures
        pow256(8) == 0x1_0000_0000_0000_0000,
        pow256(4) == 0x1_0000_0000,
{
    reveal_with_fuel(pow256, 9);
}

/// A value of at most eight big-endian bytes fits in a `u64`.
pub proof fn lemma_be_value_fits(s: Seq<u8>)
    requires
        s.len() <= 8,
    ensures
        be_value(s) <= u64::MAX,
        s.len() <= 4 ==> be_value(s) <= u32::MAX,
{
    lemma_be_value_bound(s);
    lemma_pow256_mono(s.len(), 8);
    lemma_pow256_8();
    if s.len() <= 4 {
        lemma_pow256_mono(s.len(), 4);
    }
}

/// The first child with an id has that id and is one of the children.
pub proof fn lemma_first_with_id_mem(kids: Seq<(int, int, int)>, id: int)
    ensures
        first_with_id(kids, id) matches Some(e) ==> e.0 == id && kids.contains(e),
    decreases kids.len(),
{
    if kids.len() > 0 && kids[0].0 != id {
        lemma_first_with_id_mem(kids.drop_first(), id);
        if let Some(e) = first_with_id(kids.drop_first(), id) {
            let j = choose|j: int| 0 <= j < kids.drop_first().len() && kids.drop_first()[j] == e;
            assert(kids[j + 1] == e);
        }
    }
}

/// Every child lies inside the byte window: its payload ends at or before `limit`.
pub proof fn lemma_children_in_window(d: Seq<u8>, limit: int, pos: int, end: int)
    requires
        0 <= pos,
        limit <= d.len(),
    ensures
        forall|i: int|
            0 <= i < spec_children(d, limit, pos, end).len() ==> {
                let e = #[trigger] spec_children(d, limit, pos, end)[i];
                &&& pos < e.1
                &&& 0 <= e.2
                &&& e.1 + e.2 <= limit
            },
    decreases limit - pos,
{
    if pos < end {
        if let Some(e) = spec_read_elem(d, limit, pos) {
            if pos < e.1 + e.2 <= limit {
                lemma_children_in_window(d, limit, e.1 + e.2, end);
                let rest = spec_children(d, limit, e.1 + e.2, end);
                assert forall|i: int| 0 <= i < spec_children(d, limit, pos, end).len() implies {
                    let x = #[trigger] spec_children(d, limit, pos, end)[i];
                    &&& pos < x.1
                    &&& 0 <= x.2
                    &&& x.1 + x.2 <= limit
                } by {
                    if i > 0 {
                        assert(spec_children(d, limit, pos, end)[i] == rest[i - 1]);
                    }
                }
            }
        }
    }
}

/// `first_with_id` is the element at the first index whose id matches.
pub proof fn lemma_first_with_id_at(ks: Seq<(int, int, int)>, id: int, j: int)
    requires
        0 <= j <= ks.len(),
        forall|k: int| 0 <= k < j ==> #[trigger] ks[k].0 != id,
        j < ks.len() ==> ks[j].0 == id,
    ensures
        first_with_id(ks, id) == (if j < ks.len() {
            Some(ks[j])
        } else {
            None
        }),
    decreases j,
{
    if j > 0 {
        let t = ks.drop_first();
        assert forall|k: int| 0 <= k < j - 1 implies #[trigger] t[k].0 != id by {
            assert(t[k] == ks[k + 1]);
        }
        lemma_first_with_id_at(t, id, j - 1);
    }
}

/// The headers read by the executable code are the children given by the specification.
pub open spec fn kids_match(v: Seq<(u64, usize, usize)>, ks: Seq<(int, int, int)>) -> bool {
    &&& v.len() == ks.len()
    &&& forall|i: int| 0 <= i < v.len() ==> hdr(#[trigger] v[i]) == ks[i]
}

/// Index of the first header with the given id.
pub fn find_first(v: &Vec<(u64, usize, usize)>, id: u64) -> (r: Option<usize>)
    ensures
        match r {
            Some(j) => j < v@.len() && v@[j as int].0 == id && forall|k: int|
                0 <= k < j ==> #[trigger] v@[k].0 != id,
            None => forall|k: int| 0 <= k < v@.len() ==> #[trigger] v@[k].0 != id,
        },
{
    let mut i: usize = 0;
    while i < v.len()
        invariant
            i <= v@.len(),
            forall|k: int| 0 <= k < i ==> #[trigger] v@[k].0 != id,
        decreases v.len() - i,
    {
        if v[i].0 == id {
            return Some(i);
        }
        i += 1;
    }
    None
}

// ---------------- readers ----------------

/// Width of the variable-length integer starting with `b` (`None` for a zero byte),
/// together with its marker bit.
fn lead_width(b: u8) -> (r: Option<(usize, u8)>)
    ensures
        match r {
            None => vint_width(b) == 9,
            Some((w, m)) => {
                &&& w as int == vint_width(b)
                &&& 1 <= w <= 8
                &&& m as int == vint_marker(w as int)
                &&& m <= b < 2 * m
            },
        },
{
    let mut width: usize = 1;
    let mut mask: u8 = 0x80;
    while b < mask
        invariant
            1 <= width <= 8,
            mask as int == vint_marker(width as int),
            b < 2 * mask,
        decreases mask,
    {
        if width == 8 {
            return None;
        }
        mask = mask / 2;
        width += 1;
    }
    Some((width, mask))
}

/// Read a size field (marker bit cleared) at `pos` within `data[..limit]`;
/// returns the value and the position after it.
pub fn read_vint(data: &[u8], limit: usize, pos: usize) -> (r: Option<(u64, usize)>)
    requires
        limit <= data@.len(),
    ensures
        match r {
            None => spec_read_vint(data@, limit as int, pos as int) is None,
            Some((v, p)) => spec_read_vint(data@, limit as int, pos as int) == Some(
                (v as int, p as int),
            ),
        },
{
    if pos >= limit {
        return None;
    }
    let b = data[pos];
    let (width, mask) = match lead_width(b) {
        None => return None,
        Some(wm) => wm,
    };
    if width > limit - pos {
        return None;
    }
    let ghost first = (b - mask) as u8;
    let mut value: u64 = (b - mask) as u64;
    let mut i: usize = 1;
    proof {
        assert(seq![first] + data@.subrange(pos + 1, pos + 1) =~= seq![first]);
        assert(seq![first].drop_last() =~= Seq::<u8>::empty());
        reveal_with_fuel(be_value, 2);
        assert(be_value(seq![first]) == first);
        reveal_with_fuel(pow256, 2);
    }
    while i < width
        invariant
            1 <= i <= width <= 8,
            pos + width <= limit <= data@.len(),
            first == (b - mask) as u8,
            value as int == be_value(seq![first] + data@.subrange(pos + 1, pos + i)),
            value < pow256(i as nat),
        decreases width - i,
    {
        let x = data[pos + i];
        proof {
            let s = seq![first] + data@.subrange(pos + 1, pos + i);
            assert(seq![first] + data@.subrange(pos + 1, pos + i + 1) =~= s.push(x));
            lemma_be_value_push(s, x);
            lemma_pow256_mono((i + 1) as nat, 8);
            lemma_pow256_8();
        }
        value = value * 256 + x as u64;
        i += 1;
    }
    Some((value, pos + width))
}

/// Read an element id (marker bit kept) at `pos` within `data[..limit]`.
pub fn read_id(data: &[u8], limit: usize, pos: usize) -> (r: Option<(u64, usize)>)
    requires
        limit <= data@.len(),
    ensures
        match r {
            None => spec_read_id(data@, limit as int, pos as int) is None,
            Some((v, p)) => spec_read_id(data@, limit as int, pos as int) == Some(
                (v as int, p as int),
            ),
        },
{
    if pos >= limit {
        return None;
    }
    let b = data[pos];
    let width = match lead_width(b) {
        None => return None,
        Some((w, _)) => w,
    };
    if width > limit - pos {
        return None;
    }
    let mut value: u64 = b as u64;
    let mut i: usize = 1;
    proof {
        assert(data@.subrange(pos as int, pos + 1) =~= seq![b]);
        assert(seq![b].drop_last() =~= Seq::<u8>::empty());
        reveal_with_fuel(be_value, 2);
        assert(be_value(seq![b]) == b);
        reveal_with_fuel(pow256, 2);
    }
    while i < width
        invariant
            1 <= i <= width <= 8,
            pos + width <= limit <= data@.len(),
            value as int == be_value(data@.subrange(pos as int, pos + i)),
            value < pow256(i as nat),
        decreases width - i,
    {
        let x = data[pos + i];
        proof {
            let s = data@.subrange(pos as int, pos + i);
            assert(data@.subrange(pos as int, pos + i + 1) =~= s.push(x));
            lemma_be_value_push(s, x);
            lemma_pow256_mono((i + 1) as nat, 8);
            lemma_pow256_8();
        }
        value = value * 256 + x as u64;
        i += 1;
    }
    Some((value, pos + width))
}

/// Read an element header at `pos`: `(id, payload start, payload size)`.
pub fn read_elem(data: &[u8], limit: usize, pos: usize) -> (r: Option<(u64, usize, usize)>)
    requires
        limit <= data@.len(),
    ensures
        match r {
            None => spec_read_elem(data@, limit as int, pos as int) is None,
            Some(e) => spec_read_elem(data@, limit as int, pos as int) == Some(hdr(e)),
        },
{
    let (id, p1) = match read_id(data, limit, pos) {
        None => return None,
        Some(x) => x,
    };
    let (size, p2) = match read_vint(data, limit, p1) {
        None => return None,
        Some(x) => x,
    };
    if size > (limit - p2) as u64 {
        return None;
    }
    Some((id, p2, size as usize))
}

/// All elements of one level: read from `start` while the position is before
/// `end`, each within `data[..limit]`, stopping at the first unreadable header.
pub fn walk(data: &[u8], limit: usize, start: usize, end: usize) -> (v: Vec<(u64, usize, usize)>)
    requires
        limit <= data@.len(),
    ensures
        v@.len() == spec_children(data@, limit as int, start as int, end as int).len(),
        forall|i: int|
            0 <= i < v@.len() ==> hdr(#[trigger] v@[i]) == spec_children(
                data@,
                limit as int,
                start as int,
                end as int,
            )[i],
{
    let ghost kids = spec_children(data@, limit as int, start as int, end as int);
    let mut v: Vec<(u64, usize, usize)> = Vec::new();
    let mut pos = start;
    while pos < end
        invariant_except_break
            limit <= data@.len(),
            kids == v@.map_values(|e: (u64, usize, usize)| hdr(e)) + spec_children(
                data@,
                limit as int,
                pos as int,
                end as int,
            ),
        ensures
            kids == v@.map_values(|e: (u64, usize, usize)| hdr(e)),
        decreases usize::MAX - pos,
    {
        match read_elem(data, limit, pos) {
            None => {
                assert(v@.map_values(|e: (u64, usize, usize)| hdr(e)) + Seq::<(int, int, int)>::empty()
                    =~= v@.map_values(|e: (u64, usize, usize)| hdr(e)));
                break;
            },
            Some(e) => {
                let next = e.1 + e.2;
                let ghost old_v = v@;
                v.push(e);
                assert(v@.map_values(|e: (u64, usize, usize)| hdr(e)) =~= old_v.map_values(
                    |e: (u64, usize, usize)| hdr(e),
                ).push(hdr(e)));
                assert(seq![hdr(e)] + spec_children(data@, limit as int, next as int, end as int)
                    == spec_children(data@, limit as int, pos as int, end as int));
                assert(old_v.map_values(|e: (u64, usize, usize)| hdr(e)) + (seq![hdr(e)]
                    + spec_children(data@, limit as int, next as int, end as int))
                    =~= v@.map_values(|e: (u64, usize, usize)| hdr(e)) + spec_children(
                    data@,
                    limit as int,
                    next as int,
                    end as int,
                ));
                pos = next;
            },
        }
    }
    proof {
        if !(pos < end) {
            assert(v@.map_values(|e: (u64, usize, usize)| hdr(e)) + Seq::<(int, int, int)>::empty()
                =~= v@.map_values(|e: (u64, usize, usize)| hdr(e)));
        }
    }
    v
}

/// Unsigned big-endian value of `data[p..p + l]` for 1 to 8 bytes.
pub fn parse_u64(data: &[u8], p: usize, l: usize) -> (r: Option<u64>)
    ensures
        r == spec_parse_u64(data@, p as int, l as int),
{
    if l == 0 || l > 8 || p > data.len() || l > data.len() - p {
        return None;
    }
    let mut v: u64 = 0;
    let mut i: usize = 0;
    while i < l
        invariant
            i <= l <= 8,
            p + l <= data.len(),
            v as int == be_value(data@.subrange(p as int, p + i)),
            v < pow256(i as nat),
        decreases l - i,
    {
        let x = data[p + i];
        proof {
            let s = data@.subrange(p as int, p + i);
            assert(data@.subrange(p as int, p + i + 1) =~= s.push(x));
            lemma_be_value_push(s, x);
            lemma_pow256_mono((i + 1) as nat, 8);
            lemma_pow256_8();
        }
        v = v * 256 + x as u64;
        i += 1;
    }
    Some(v)
}

/// Unsigned big-endian value of `data[p..p + l]` for 1 to 4 bytes.
pub fn parse_u32(data: &[u8], p: usize, l: usize) -> (r: Option<u32>)
    ensures
        r == spec_parse_u32(data@, p as int, l as int),
{
    if l > 4 {
        return None;
    }
    match parse_u64(data, p, l) {
        None => None,
        Some(v) => {
            proof {
                lemma_be_value_fits(data@.subrange(p as int, p + l));
            }
            Some(v as u32)
        },
    }
}

/// Signed value of `data[p..p + l]`: see [`spec_parse_i64`].
pub fn parse_i64(data: &[u8], p: usize, l: usize) -> (r: Option<i64>)
    ensures
        r == spec_parse_i64(data@, p as int, l as int),
{
    let v = match parse_u64(data, p, l) {
        None => return None,
        Some(v) => v,
    };
    let shift: u32 = 64 - (l as u32) * 8;
    if shift > 0 && v & (1u64 << (shift - 1)) != 0 {
        Some(0i64.wrapping_sub(v as i64))
    } else {
        Some(v as i64)
    }
}

} // verus!

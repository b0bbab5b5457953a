//! The binary encoding of footprints kept in the cache: little-endian
//! integers, count-prefixed lists, and one byte per flag.
use vstd::prelude::*;
use crate::footprint::Footprint;
use crate::regset::{RegLoc, RegLocView, RegSet, Taints};
use crate::smt::Accessor;

verus! {

/// Four bytes, least significant first.
pub open spec fn enc_u32(v: u32) -> Seq<u8> {
    seq![v as u8, (v >> 8u32) as u8, (v >> 16u32) as u8, (v >> 24u32) as u8]
}

/// Eight bytes, least significant first.
pub open spec fn enc_u64(v: u64) -> Seq<u8> {
    seq![
        v as u8,
        (v >> 8u64) as u8,
        (v >> 16u64) as u8,
        (v >> 24u64) as u8,
        (v >> 32u64) as u8,
        (v >> 40u64) as u8,
        (v >> 48u64) as u8,
        (v >> 56u64) as u8,
    ]
}

/// A tag byte, then the accessor's fields.
pub open spec fn enc_accessor(a: Accessor) -> Seq<u8> {
    match a {
        Accessor::Field(n) => seq![0u8] + enc_u32(n),
        Accessor::Index(i) => seq![1u8] + enc_u64(i),
        Accessor::Slice(x, y) => seq![2u8] + enc_u32(x) + enc_u32(y),
    }
}

/// The accessors one after another.
pub open spec fn enc_accessor_items(s: Seq<Accessor>) -> Seq<u8>
    decreases s.len(),
{
    if s.len() == 0 {
        seq![]
    } else {
        enc_accessor_items(s.subrange(0, s.len() - 1)) + enc_accessor(s[s.len() - 1])
    }
}

/// A register-location: the register, the number of accessors, and the
/// accessors.
pub open spec fn enc_loc(l: RegLocView) -> Seq<u8> {
    enc_u32(l.0) + enc_u32(l.1.len() as u32) + enc_accessor_items(l.1)
}

/// Register-locations one after another.
pub open spec fn enc_loc_items(s: Seq<RegLocView>) -> Seq<u8>
    decreases s.len(),
{
    if s.len() == 0 {
        seq![]
    } else {
        enc_loc_items(s.subrange(0, s.len() - 1)) + enc_loc(s[s.len() - 1])
    }
}

/// The register-locations of a set, in its order, after their number.
pub open spec fn enc_locs(s: Seq<RegLocView>) -> Seq<u8> {
    enc_u32(s.len() as u32) + enc_loc_items(s)
}

/// The register-locations of a set in its own order.
pub open spec fn items_of(r: RegSet) -> Seq<RegLocView> {
    r.items@.map_values(|l: RegLoc| l@)
}

/// A taint: its register-locations, then the memory flag.
pub open spec fn enc_taints(t: Taints) -> Seq<u8> {
    enc_locs(items_of(t.regs)) + seq![t.mem as u8]
}

/// A footprint field by field.
pub open spec fn enc_footprint(f: Footprint) -> Seq<u8> {
    enc_taints(f.write_data_taints) + enc_taints(f.mem_addr_taints) + enc_taints(f.branch_addr_taints)
        + enc_locs(items_of(f.register_reads)) + enc_locs(items_of(f.register_writes)) + enc_locs(
        items_of(f.register_writes_tainted),
    ) + seq![f.is_store as u8, f.is_load as u8, f.is_branch as u8]
}

/// `r` holds a value whose view is `v`, read up to position `end`.
pub open spec fn parsed<T: View>(r: Option<(T, usize)>, v: T::V, end: int) -> bool {
    match r {
        Some((x, q)) => x@ == v && q == end,
        None => false,
    }
}

/// Whether `s` occurs in `buf` at `pos`.
pub open spec fn at(buf: Seq<u8>, pos: int, s: Seq<u8>) -> bool {
    0 <= pos && pos + s.len() <= buf.len() && buf.subrange(pos, pos + s.len()) == s
}

proof fn lemma_at_split(buf: Seq<u8>, pos: int, a: Seq<u8>, b: Seq<u8>)
    requires
        at(buf, pos, a + b),
    ensures
        at(buf, pos, a),
        at(buf, pos + a.len(), b),
{
    let whole = buf.subrange(pos, pos + a.len() + b.len());
    assert(whole == a + b);
    assert(buf.subrange(pos, pos + a.len()) =~= whole.subrange(0, a.len() as int));
    assert(whole.subrange(0, a.len() as int) =~= a);
    assert(buf.subrange(pos + a.len(), pos + a.len() + b.len()) =~= whole.subrange(
        a.len() as int,
        whole.len() as int,
    ));
    assert(whole.subrange(a.len() as int, whole.len() as int) =~= b);
}

fn push_u32(out: &mut Vec<u8>, v: u32)
    ensures
        final(out)@ == old(out)@ + enc_u32(v),
{
    out.push(v as u8);
    out.push((v >> 8u32) as u8);
    out.push((v >> 16u32) as u8);
    out.push((v >> 24u32) as u8);
    assert(final(out)@ =~= old(out)@ + enc_u32(v));
}

fn push_u64(out: &mut Vec<u8>, v: u64)
    ensures
        final(out)@ == old(out)@ + enc_u64(v),
{
    out.push(v as u8);
    out.push((v >> 8u64) as u8);
    out.push((v >> 16u64) as u8);
    out.push((v >> 24u64) as u8);
    out.push((v >> 32u64) as u8);
    out.push((v >> 40u64) as u8);
    out.push((v >> 48u64) as u8);
    out.push((v >> 56u64) as u8);
    assert(final(out)@ =~= old(out)@ + enc_u64(v));
}

fn read_u32(buf: &Vec<u8>, pos: usize) -> (r: Option<(u32, usize)>)
    ensures
        forall|v: u32| #[trigger] at(buf@, pos as int, enc_u32(v)) ==> r == Some((v, (pos + 4) as usize)),
{
    if pos > buf.len() || buf.len() - pos < 4 {
        return None;
    }
    let b0 = buf[pos];
    let b1 = buf[pos + 1];
    let b2 = buf[pos + 2];
    let b3 = buf[pos + 3];
    let v: u32 = (b0 as u32) | ((b1 as u32) << 8u32) | ((b2 as u32) << 16u32) | ((b3 as u32) << 24u32);
    assert forall|w: u32| #[trigger] at(buf@, pos as int, enc_u32(w)) implies v == w by {
        assert(buf@.subrange(pos as int, pos + 4)[0] == b0);
        assert(buf@.subrange(pos as int, pos + 4)[1] == b1);
        assert(buf@.subrange(pos as int, pos + 4)[2] == b2);
        assert(buf@.subrange(pos as int, pos + 4)[3] == b3);
        assert(b0 == w as u8 && b1 == (w >> 8u32) as u8 && b2 == (w >> 16u32) as u8 && b3 == (w >> 24u32) as u8);
        assert(((w as u8) as u32) | (((w >> 8u32) as u8 as u32) << 8u32) | (((w >> 16u32) as u8 as u32) << 16u32)
            | (((w >> 24u32) as u8 as u32) << 24u32) == w) by (bit_vector);
    }
    Some((v, pos + 4))
}

fn read_u64(buf: &Vec<u8>, pos: usize) -> (r: Option<(u64, usize)>)
    ensures
        forall|v: u64| #[trigger] at(buf@, pos as int, enc_u64(v)) ==> r == Some((v, (pos + 8) as usize)),
{
    if pos > buf.len() || buf.len() - pos < 8 {
        return None;
    }
    let b0 = buf[pos];
    let b1 = buf[pos + 1];
    let b2 = buf[pos + 2];
    let b3 = buf[pos + 3];
    let b4 = buf[pos + 4];
    let b5 = buf[pos + 5];
    let b6 = buf[pos + 6];
    let b7 = buf[pos + 7];
    let v: u64 = (b0 as u64) | ((b1 as u64) << 8u64) | ((b2 as u64) << 16u64) | ((b3 as u64) << 24u64)
        | ((b4 as u64) << 32u64) | ((b5 as u64) << 40u64) | ((b6 as u64) << 48u64) | ((b7 as u64)
        << 56u64);
    assert forall|w: u64| #[trigger] at(buf@, pos as int, enc_u64(w)) implies v == w by {
        let sub = buf@.subrange(pos as int, pos + 8);
        assert(sub[0] == b0 && sub[1] == b1 && sub[2] == b2 && sub[3] == b3);
        assert(sub[4] == b4 && sub[5] == b5 && sub[6] == b6 && sub[7] == b7);
        assert(((w as u8) as u64) | (((w >> 8u64) as u8 as u64) << 8u64) | (((w >> 16u64) as u8 as u64)
            << 16u64) | (((w >> 24u64) as u8 as u64) << 24u64) | (((w >> 32u64) as u8 as u64) << 32u64)
            | (((w >> 40u64) as u8 as u64) << 40u64) | (((w >> 48u64) as u8 as u64) << 48u64) | (((w
            >> 56u64) as u8 as u64) << 56u64) == w) by (bit_vector);
    }
    Some((v, pos + 8))
}

proof fn lemma_at_byte(buf: Seq<u8>, pos: int, b: u8)
    requires
        at(buf, pos, seq![b]),
    ensures
        pos < buf.len() && buf[pos] == b,
{
    assert(buf.subrange(pos, pos + 1)[0] == buf[pos]);
}

fn read_accessor(buf: &Vec<u8>, pos: usize) -> (r: Option<(Accessor, usize)>)
    ensures
        forall|a: Accessor| #[trigger] at(buf@, pos as int, enc_accessor(a)) ==> r == Some(
            (a, (pos + enc_accessor(a).len()) as usize),
        ),
{
    if pos >= buf.len() {
        {
            assert forall|a: Accessor| !#[trigger] at(buf@, pos as int, enc_accessor(a)) by {
                if at(buf@, pos as int, enc_accessor(a)) {
                    match a {
                        Accessor::Field(n) => {
                            lemma_at_split(buf@, pos as int, seq![0u8], enc_u32(n));
                            lemma_at_byte(buf@, pos as int, 0u8);
                        },
                        Accessor::Index(i) => {
                            lemma_at_split(buf@, pos as int, seq![1u8], enc_u64(i));
                            lemma_at_byte(buf@, pos as int, 1u8);
                        },
                        Accessor::Slice(x, y) => {
                            lemma_at_split(buf@, pos as int, seq![2u8] + enc_u32(x), enc_u32(y));
                            lemma_at_split(buf@, pos as int, seq![2u8], enc_u32(x));
                            lemma_at_byte(buf@, pos as int, 2u8);
                        },
                    }
                }
            }
            return None;
        }
    }
    let tag = buf[pos];
    let p = pos + 1;
    let r = if tag == 0 {
        match read_u32(buf, p) {
            Some((n, q)) => Some((Accessor::Field(n), q)),
            None => None,
        }
    } else if tag == 1 {
        match read_u64(buf, p) {
            Some((i, q)) => Some((Accessor::Index(i), q)),
            None => None,
        }
    } else if tag == 2 {
        match read_u32(buf, p) {
            Some((x, q)) => match read_u32(buf, q) {
                Some((y, q2)) => Some((Accessor::Slice(x, y), q2)),
                None => None,
            },
            None => None,
        }
    } else {
        None
    };
    assert forall|a: Accessor| #[trigger] at(buf@, pos as int, enc_accessor(a)) implies r == Some(
        (a, (pos + enc_accessor(a).len()) as usize),
    ) by {
        match a {
            Accessor::Field(n) => {
                lemma_at_split(buf@, pos as int, seq![0u8], enc_u32(n));
                lemma_at_byte(buf@, pos as int, 0u8);
                assert(tag == 0u8 && p == pos + 1);
                assert(at(buf@, p as int, enc_u32(n)));
            },
            Accessor::Index(i) => {
                lemma_at_split(buf@, pos as int, seq![1u8], enc_u64(i));
                lemma_at_byte(buf@, pos as int, 1u8);
                assert(tag == 1u8 && p == pos + 1);
                assert(at(buf@, p as int, enc_u64(i)));
            },
            Accessor::Slice(x, y) => {
                lemma_at_split(buf@, pos as int, seq![2u8] + enc_u32(x), enc_u32(y));
                lemma_at_split(buf@, pos as int, seq![2u8], enc_u32(x));
                lemma_at_byte(buf@, pos as int, 2u8);
                assert(tag == 2u8 && p == pos + 1);
                assert(at(buf@, p as int, enc_u32(x)));
                assert(at(buf@, p + 4, enc_u32(y)));
            },
        }
    }
    r
}

proof fn lemma_accessor_items_at(buf: Seq<u8>, pos: int, s: Seq<Accessor>, k: int)
    requires
        at(buf, pos, enc_accessor_items(s)),
        0 <= k <= s.len(),
    ensures
        at(buf, pos, enc_accessor_items(s.subrange(0, k))),
    decreases s.len(),
{
    if k == s.len() {
        assert(s.subrange(0, k) =~= s);
    } else {
        let init = s.subrange(0, s.len() - 1);
        lemma_at_split(buf, pos, enc_accessor_items(init), enc_accessor(s[s.len() - 1]));
        lemma_accessor_items_at(buf, pos, init, k);
        assert(init.subrange(0, k) =~= s.subrange(0, k));
    }
}

fn read_accessor_items(buf: &Vec<u8>, pos: usize, n: u32) -> (r: Option<(Vec<Accessor>, usize)>)
    ensures
        forall|s: Seq<Accessor>|
            s.len() == n && #[trigger] at(buf@, pos as int, enc_accessor_items(s)) ==> parsed(
                r,
                s,
                pos + enc_accessor_items(s).len(),
            ),
{
    let blen = buf.len();
    let mut out: Vec<Accessor> = Vec::new();
    let mut p: usize = pos;
    let mut i: u32 = 0;
    while i < n
        invariant
            blen == buf@.len(),
            i <= n,
            forall|s: Seq<Accessor>|
                s.len() == n && #[trigger] at(buf@, pos as int, enc_accessor_items(s)) ==> out@
                    == s.subrange(0, i as int) && p == pos + enc_accessor_items(s.subrange(0, i as int)).len(),
        decreases n - i,
    {
        let step = read_accessor(buf, p);
        match step {
            Some((a, q)) => {
                assert forall|s: Seq<Accessor>|
                    s.len() == n && #[trigger] at(buf@, pos as int, enc_accessor_items(s)) implies out@.push(a)
                    == s.subrange(0, i + 1) && q == pos + enc_accessor_items(s.subrange(0, i + 1)).len() by {
                    let t = s.subrange(0, i + 1);
                    lemma_accessor_items_at(buf@, pos as int, s, i + 1);
                    assert(t.subrange(0, i as int) =~= s.subrange(0, i as int));
                    assert(t[i as int] == s[i as int]);
                    assert(enc_accessor_items(t) == enc_accessor_items(s.subrange(0, i as int)) + enc_accessor(
                        s[i as int],
                    ));
                    lemma_at_split(buf@, pos as int, enc_accessor_items(s.subrange(0, i as int)), enc_accessor(s[i as int]));
                    assert(p == pos + enc_accessor_items(s.subrange(0, i as int)).len());
                    assert(at(buf@, p as int, enc_accessor(s[i as int])));
                    assert(a == s[i as int]);
                    assert(p + enc_accessor(a).len() <= buf@.len());
                    assert(q == p + enc_accessor(a).len());
                    assert(out@.push(a) =~= s.subrange(0, i + 1));
                }
                out.push(a);
                p = q;
            },
            None => {
                assert forall|s: Seq<Accessor>|
                    s.len() == n implies !#[trigger] at(buf@, pos as int, enc_accessor_items(s)) by {
                    if at(buf@, pos as int, enc_accessor_items(s)) {
                        let t = s.subrange(0, i + 1);
                        lemma_accessor_items_at(buf@, pos as int, s, i + 1);
                        assert(t.subrange(0, i as int) =~= s.subrange(0, i as int));
                        assert(t[i as int] == s[i as int]);
                        assert(enc_accessor_items(t) == enc_accessor_items(s.subrange(0, i as int)) + enc_accessor(
                            s[i as int],
                        ));
                        lemma_at_split(buf@, pos as int, enc_accessor_items(s.subrange(0, i as int)), enc_accessor(s[i as int]));
                        assert(at(buf@, p as int, enc_accessor(s[i as int])));
                    }
                }
                return None;
            },
        }
        i += 1;
    }
    assert forall|s: Seq<Accessor>|
        s.len() == n && #[trigger] at(buf@, pos as int, enc_accessor_items(s)) implies out@ == s && p == pos
        + enc_accessor_items(s).len() by {
        assert(s.subrange(0, n as int) =~= s);
    }
    Some((out, p))
}

/// Every list in `l` has a length that four bytes can hold.
pub open spec fn loc_encodable(l: RegLocView) -> bool {
    l.1.len() <= u32::MAX
}

/// Every list in `s` has a length that four bytes can hold.
pub open spec fn locs_encodable(s: Seq<RegLocView>) -> bool {
    s.len() <= u32::MAX && forall|i: int| 0 <= i < s.len() ==> loc_encodable(#[trigger] s[i])
}

/// `r` holds a set whose register-locations, in order, are `s`, read up to
/// position `end`.
pub open spec fn parsed_locs(r: Option<(RegSet, usize)>, s: Seq<RegLocView>, end: int) -> bool {
    match r {
        Some((x, q)) => items_of(x) == s && q == end,
        None => false,
    }
}

fn read_loc(buf: &Vec<u8>, pos: usize) -> (r: Option<(RegLoc, usize)>)
    ensures
        forall|l: RegLocView|
            loc_encodable(l) && #[trigger] at(buf@, pos as int, enc_loc(l)) ==> parsed(
                r,
                l,
                pos + enc_loc(l).len(),
            ),
{
    let blen = buf.len();
    let (reg, p) = match read_u32(buf, pos) {
        Some(x) => x,
        None => {
            assert forall|l: RegLocView| loc_encodable(l) implies !#[trigger] at(buf@, pos as int, enc_loc(l)) by {
                if at(buf@, pos as int, enc_loc(l)) {
                    lemma_at_split(buf@, pos as int, enc_u32(l.0) + enc_u32(l.1.len() as u32), enc_accessor_items(l.1));
                    lemma_at_split(buf@, pos as int, enc_u32(l.0), enc_u32(l.1.len() as u32));
                }
            }
            return None;
        },
    };
    let (count, at_accessors) = match read_u32(buf, p) {
        Some(x) => x,
        None => {
            assert forall|l: RegLocView| loc_encodable(l) implies !#[trigger] at(buf@, pos as int, enc_loc(l)) by {
                if at(buf@, pos as int, enc_loc(l)) {
                    lemma_at_split(buf@, pos as int, enc_u32(l.0) + enc_u32(l.1.len() as u32), enc_accessor_items(l.1));
                    lemma_at_split(buf@, pos as int, enc_u32(l.0), enc_u32(l.1.len() as u32));
                }
            }
            return None;
        },
    };
    let items = read_accessor_items(buf, at_accessors, count);
    let r = match items {
        Some((acc, q)) => Some((RegLoc { reg, accessors: acc }, q)),
        None => None,
    };
    assert forall|l: RegLocView|
        loc_encodable(l) && #[trigger] at(buf@, pos as int, enc_loc(l)) implies parsed(r, l, pos + enc_loc(l).len()) by {
        lemma_at_split(buf@, pos as int, enc_u32(l.0) + enc_u32(l.1.len() as u32), enc_accessor_items(l.1));
        lemma_at_split(buf@, pos as int, enc_u32(l.0), enc_u32(l.1.len() as u32));
        assert(reg == l.0 && p == pos + 4);
        assert(count == l.1.len() as u32 && at_accessors == pos + 8);
        assert(count == l.1.len());
        assert(at(buf@, at_accessors as int, enc_accessor_items(l.1)));
        assert(pos + enc_loc(l).len() <= blen);
    }
    r
}

proof fn lemma_loc_items_at(buf: Seq<u8>, pos: int, s: Seq<RegLocView>, k: int)
    requires
        at(buf, pos, enc_loc_items(s)),
        0 <= k <= s.len(),
    ensures
        at(buf, pos, enc_loc_items(s.subrange(0, k))),
    decreases s.len(),
{
    if k == s.len() {
        assert(s.subrange(0, k) =~= s);
    } else {
        let init = s.subrange(0, s.len() - 1);
        lemma_at_split(buf, pos, enc_loc_items(init), enc_loc(s[s.len() - 1]));
        lemma_loc_items_at(buf, pos, init, k);
        assert(init.subrange(0, k) =~= s.subrange(0, k));
    }
}

fn read_loc_items(buf: &Vec<u8>, pos: usize, n: u32) -> (r: Option<(RegSet, usize)>)
    ensures
        forall|s: Seq<RegLocView>|
            s.len() == n && locs_encodable(s) && #[trigger] at(buf@, pos as int, enc_loc_items(s)) ==> parsed_locs(
                r,
                s,
                pos + enc_loc_items(s).len(),
            ),
{
    let blen = buf.len();
    let mut out = RegSet { items: Vec::new() };
    let mut p: usize = pos;
    let mut i: u32 = 0;
    assert(items_of(out) =~= Seq::<RegLocView>::empty());
    while i < n
        invariant
            blen == buf@.len(),
            i <= n,
            forall|s: Seq<RegLocView>|
                s.len() == n && locs_encodable(s) && #[trigger] at(buf@, pos as int, enc_loc_items(s)) ==> items_of(out)
                    == s.subrange(0, i as int) && p == pos + enc_loc_items(s.subrange(0, i as int)).len(),
        decreases n - i,
    {
        let step = read_loc(buf, p);
        match step {
            Some((l, q)) => {
                let ghost lv = l@;
                assert forall|s: Seq<RegLocView>|
                    s.len() == n && locs_encodable(s) && #[trigger] at(buf@, pos as int, enc_loc_items(s)) implies items_of(
                    out,
                ).push(lv) == s.subrange(0, i + 1) && q == pos + enc_loc_items(s.subrange(0, i + 1)).len() by {
                    let t = s.subrange(0, i + 1);
                    lemma_loc_items_at(buf@, pos as int, s, i + 1);
                    assert(t.subrange(0, i as int) =~= s.subrange(0, i as int));
                    assert(t[i as int] == s[i as int]);
                    assert(enc_loc_items(t) == enc_loc_items(s.subrange(0, i as int)) + enc_loc(s[i as int]));
                    lemma_at_split(buf@, pos as int, enc_loc_items(s.subrange(0, i as int)), enc_loc(s[i as int]));
                    assert(at(buf@, p as int, enc_loc(s[i as int])));
                    assert(loc_encodable(s[i as int]));
                    assert(lv == s[i as int]);
                    assert(p + enc_loc(s[i as int]).len() <= buf@.len());
                    assert(q == p + enc_loc(s[i as int]).len());
                    assert(items_of(out).push(lv) =~= s.subrange(0, i + 1));
                }
                let ghost before = items_of(out);
                out.items.push(l);
                assert(items_of(out) =~= before.push(lv));
                p = q;
            },
            None => {
                assert forall|s: Seq<RegLocView>|
                    s.len() == n && locs_encodable(s) implies !#[trigger] at(buf@, pos as int, enc_loc_items(s)) by {
                    if at(buf@, pos as int, enc_loc_items(s)) {
                        let t = s.subrange(0, i + 1);
                        lemma_loc_items_at(buf@, pos as int, s, i + 1);
                        assert(t.subrange(0, i as int) =~= s.subrange(0, i as int));
                        assert(t[i as int] == s[i as int]);
                        assert(enc_loc_items(t) == enc_loc_items(s.subrange(0, i as int)) + enc_loc(s[i as int]));
                        lemma_at_split(buf@, pos as int, enc_loc_items(s.subrange(0, i as int)), enc_loc(s[i as int]));
                        assert(at(buf@, p as int, enc_loc(s[i as int])));
                        assert(loc_encodable(s[i as int]));
                    }
                }
                return None;
            },
        }
        i += 1;
    }
    assert forall|s: Seq<RegLocView>|
        s.len() == n && locs_encodable(s) && #[trigger] at(buf@, pos as int, enc_loc_items(s)) implies items_of(out) == s
        && p == pos + enc_loc_items(s).len() by {
        assert(s.subrange(0, n as int) =~= s);
    }
    Some((out, p))
}

fn read_locs(buf: &Vec<u8>, pos: usize) -> (r: Option<(RegSet, usize)>)
    ensures
        forall|s: Seq<RegLocView>|
            locs_encodable(s) && #[trigger] at(buf@, pos as int, enc_locs(s)) ==> parsed_locs(
                r,
                s,
                pos + enc_locs(s).len(),
            ),
{
    let blen = buf.len();
    match read_u32(buf, pos) {
        Some((n, p)) => {
            let r = read_loc_items(buf, p, n);
            assert forall|s: Seq<RegLocView>|
                locs_encodable(s) && #[trigger] at(buf@, pos as int, enc_locs(s)) implies parsed_locs(
                r,
                s,
                pos + enc_locs(s).len(),
            ) by {
                lemma_at_split(buf@, pos as int, enc_u32(s.len() as u32), enc_loc_items(s));
                assert(n == s.len() as u32 && p == pos + 4);
                assert(pos + enc_locs(s).len() <= blen);
            }
            r
        },
        None => {
            assert forall|s: Seq<RegLocView>|
                locs_encodable(s) implies !#[trigger] at(buf@, pos as int, enc_locs(s)) by {
                if at(buf@, pos as int, enc_locs(s)) {
                    lemma_at_split(buf@, pos as int, enc_u32(s.len() as u32), enc_loc_items(s));
                }
            }
            None
        },
    }
}

/// `t`'s register-locations can be encoded.
pub open spec fn taints_encodable(t: Taints) -> bool {
    locs_encodable(items_of(t.regs))
}

/// `r` holds taints with the register-locations and flag of `t`, read up to
/// position `end`.
pub open spec fn parsed_taints(r: Option<(Taints, usize)>, t: Taints, end: int) -> bool {
    match r {
        Some((x, q)) => items_of(x.regs) == items_of(t.regs) && x.mem == t.mem && q == end,
        None => false,
    }
}

fn read_flag(buf: &Vec<u8>, pos: usize) -> (r: Option<bool>)
    ensures
        r == if pos < buf@.len() && buf@[pos as int] == 1 {
            Some(true)
        } else if pos < buf@.len() && buf@[pos as int] == 0 {
            Some(false)
        } else {
            None
        },
{
    if pos >= buf.len() {
        return None;
    }
    let x = buf[pos];
    let r = if x == 1 {
        Some(true)
    } else if x == 0 {
        Some(false)
    } else {
        None
    };
    r
}

fn read_taints(buf: &Vec<u8>, pos: usize) -> (r: Option<(Taints, usize)>)
    ensures
        forall|t: Taints|
            taints_encodable(t) && #[trigger] at(buf@, pos as int, enc_taints(t)) ==> parsed_taints(
                r,
                t,
                pos + enc_taints(t).len(),
            ),
{
    let blen = buf.len();
    match read_locs(buf, pos) {
        Some((regs, p)) => {
            let m = read_flag(buf, p);
            let r = match m {
                Some(mem) => Some((Taints { regs, mem }, p + 1)),
                None => None,
            };
            assert forall|t: Taints|
                taints_encodable(t) && #[trigger] at(buf@, pos as int, enc_taints(t)) implies parsed_taints(
                r,
                t,
                pos + enc_taints(t).len(),
            ) by {
                lemma_at_split(buf@, pos as int, enc_locs(items_of(t.regs)), seq![t.mem as u8]);
                assert(p == pos + enc_locs(items_of(t.regs)).len());
                assert(at(buf@, p as int, seq![t.mem as u8]));
                lemma_at_byte(buf@, p as int, t.mem as u8);
                assert(pos + enc_taints(t).len() <= blen);
            }
            r
        },
        None => {
            assert forall|t: Taints| taints_encodable(t) implies !#[trigger] at(buf@, pos as int, enc_taints(t)) by {
                if at(buf@, pos as int, enc_taints(t)) {
                    lemma_at_split(buf@, pos as int, enc_locs(items_of(t.regs)), seq![t.mem as u8]);
                }
            }
            None
        },
    }
}

/// Every list of the footprint has a length that four bytes can hold.
pub open spec fn encodable(f: Footprint) -> bool {
    &&& taints_encodable(f.write_data_taints)
    &&& taints_encodable(f.mem_addr_taints)
    &&& taints_encodable(f.branch_addr_taints)
    &&& locs_encodable(items_of(f.register_reads))
    &&& locs_encodable(items_of(f.register_writes))
    &&& locs_encodable(items_of(f.register_writes_tainted))
}

/// The two footprints hold the same register-locations in the same order,
/// and the same flags.
pub open spec fn same_items(a: Footprint, b: Footprint) -> bool {
    &&& items_of(a.write_data_taints.regs) == items_of(b.write_data_taints.regs)
    &&& a.write_data_taints.mem == b.write_data_taints.mem
    &&& items_of(a.mem_addr_taints.regs) == items_of(b.mem_addr_taints.regs)
    &&& a.mem_addr_taints.mem == b.mem_addr_taints.mem
    &&& items_of(a.branch_addr_taints.regs) == items_of(b.branch_addr_taints.regs)
    &&& a.branch_addr_taints.mem == b.branch_addr_taints.mem
    &&& items_of(a.register_reads) == items_of(b.register_reads)
    &&& items_of(a.register_writes) == items_of(b.register_writes)
    &&& items_of(a.register_writes_tainted) == items_of(b.register_writes_tainted)
    &&& a.is_store == b.is_store
    &&& a.is_load == b.is_load
    &&& a.is_branch == b.is_branch
}

/// `r` is what decoding `buf` gives: for every encodable footprint whose
/// encoding is `buf`, a footprint with the same contents.
pub open spec fn decoded(buf: Seq<u8>, r: Option<Footprint>) -> bool {
    forall|g: Footprint|
        encodable(g) && #[trigger] enc_footprint(g) == buf ==> r is Some && same_items(r->0, g)
}

proof fn lemma_footprint_parts(buf: Seq<u8>, g: Footprint)
    requires
        buf == enc_footprint(g),
    ensures
        ({
            let a = enc_taints(g.write_data_taints);
            let b = enc_taints(g.mem_addr_taints);
            let c = enc_taints(g.branch_addr_taints);
            let d = enc_locs(items_of(g.register_reads));
            let e = enc_locs(items_of(g.register_writes));
            let f = enc_locs(items_of(g.register_writes_tainted));
            let n = (a.len() + b.len() + c.len() + d.len() + e.len() + f.len()) as int;
            &&& at(buf, 0, a)
            &&& at(buf, a.len() as int, b)
            &&& at(buf, (a.len() + b.len()) as int, c)
            &&& at(buf, (a.len() + b.len() + c.len()) as int, d)
            &&& at(buf, (a.len() + b.len() + c.len() + d.len()) as int, e)
            &&& at(buf, (a.len() + b.len() + c.len() + d.len() + e.len()) as int, f)
            &&& buf.len() == n + 3
            &&& buf[n] == g.is_store as u8
            &&& buf[n + 1] == g.is_load as u8
            &&& buf[n + 2] == g.is_branch as u8
        }),
{
    let a = enc_taints(g.write_data_taints);
    let b = enc_taints(g.mem_addr_taints);
    let c = enc_taints(g.branch_addr_taints);
    let d = enc_locs(items_of(g.register_reads));
    let e = enc_locs(items_of(g.register_writes));
    let f = enc_locs(items_of(g.register_writes_tainted));
    let flags = seq![g.is_store as u8, g.is_load as u8, g.is_branch as u8];
    assert(buf.subrange(0, buf.len() as int) =~= buf);
    assert(at(buf, 0, buf));
    lemma_at_split(buf, 0, a + b + c + d + e + f, flags);
    lemma_at_split(buf, 0, a + b + c + d + e, f);
    lemma_at_split(buf, 0, a + b + c + d, e);
    lemma_at_split(buf, 0, a + b + c, d);
    lemma_at_split(buf, 0, a + b, c);
    lemma_at_split(buf, 0, a, b);
    let n = (a.len() + b.len() + c.len() + d.len() + e.len() + f.len()) as int;
    assert(buf[n] == flags[0]);
    assert(buf[n + 1] == flags[1]);
    assert(buf[n + 2] == flags[2]);
}

/// Decodes a footprint from the cache encoding; `None` when `buf` is not
/// one.
#[verifier::rlimit(100)]
#[verifier::spinoff_prover]
pub fn decode_footprint(buf: &Vec<u8>) -> (r: Option<Footprint>)
    ensures
        decoded(buf@, r),
{
    let (write_data_taints, at_mem_addr) = match read_taints(buf, 0) {
        Some(x) => x,
        None => {
            assert forall|g: Footprint| encodable(g) implies #[trigger] enc_footprint(g) != buf@ by {
                if enc_footprint(g) == buf@ {
                    lemma_footprint_parts(buf@, g);
                }
            }
            return None;
        },
    };
    let (mem_addr_taints, at_branch_addr) = match read_taints(buf, at_mem_addr) {
        Some(x) => x,
        None => {
            assert forall|g: Footprint| encodable(g) implies #[trigger] enc_footprint(g) != buf@ by {
                if enc_footprint(g) == buf@ {
                    lemma_footprint_parts(buf@, g);
                }
            }
            return None;
        },
    };
    let (branch_addr_taints, at_reads) = match read_taints(buf, at_branch_addr) {
        Some(x) => x,
        None => {
            assert forall|g: Footprint| encodable(g) implies #[trigger] enc_footprint(g) != buf@ by {
                if enc_footprint(g) == buf@ {
                    lemma_footprint_parts(buf@, g);
                }
            }
            return None;
        },
    };
    let (register_reads, at_writes) = match read_locs(buf, at_reads) {
        Some(x) => x,
        None => {
            assert forall|g: Footprint| encodable(g) implies #[trigger] enc_footprint(g) != buf@ by {
                if enc_footprint(g) == buf@ {
                    lemma_footprint_parts(buf@, g);
                }
            }
            return None;
        },
    };
    let (register_writes, at_tainted) = match read_locs(buf, at_writes) {
        Some(x) => x,
        None => {
            assert forall|g: Footprint| encodable(g) implies #[trigger] enc_footprint(g) != buf@ by {
                if enc_footprint(g) == buf@ {
                    lemma_footprint_parts(buf@, g);
                }
            }
            return None;
        },
    };
    let (register_writes_tainted, at_flags) = match read_locs(buf, at_tainted) {
        Some(x) => x,
        None => {
            assert forall|g: Footprint| encodable(g) implies #[trigger] enc_footprint(g) != buf@ by {
                if enc_footprint(g) == buf@ {
                    lemma_footprint_parts(buf@, g);
                }
            }
            return None;
        },
    };
    let blen = buf.len();
    if at_flags > blen || blen - at_flags != 3 {
        assert forall|g: Footprint| encodable(g) implies #[trigger] enc_footprint(g) != buf@ by {
            if enc_footprint(g) == buf@ {
                lemma_footprint_parts(buf@, g);
            }
        }
        return None;
    }
    let flags = (read_flag(buf, at_flags), read_flag(buf, at_flags + 1), read_flag(buf, at_flags + 2));
    match flags {
        (Some(is_store), Some(is_load), Some(is_branch)) => {
            let f = Footprint {
                write_data_taints,
                mem_addr_taints,
                branch_addr_taints,
                register_reads,
                register_writes,
                register_writes_tainted,
                is_store,
                is_load,
                is_branch,
            };
            assert forall|g: Footprint|
                encodable(g) && #[trigger] enc_footprint(g) == buf@ implies same_items(f, g) by {
                lemma_footprint_parts(buf@, g);
            }
            Some(f)
        },
        _ => {
            assert forall|g: Footprint| encodable(g) implies #[trigger] enc_footprint(g) != buf@ by {
                if enc_footprint(g) == buf@ {
                    lemma_footprint_parts(buf@, g);
                }
            }
            None
        },
    }
}

fn push_accessor(out: &mut Vec<u8>, a: Accessor)
    ensures
        final(out)@ == old(out)@ + enc_accessor(a),
{
    match a {
        Accessor::Field(n) => {
            out.push(0u8);
            push_u32(out, n);
        },
        Accessor::Index(i) => {
            out.push(1u8);
            push_u64(out, i);
        },
        Accessor::Slice(x, y) => {
            out.push(2u8);
            push_u32(out, x);
            push_u32(out, y);
        },
    }
    assert(final(out)@ =~= old(out)@ + enc_accessor(a));
}

fn push_loc(out: &mut Vec<u8>, l: &RegLoc)
    ensures
        final(out)@ == old(out)@ + enc_loc(l@),
{
    push_u32(out, l.reg);
    push_u32(out, l.accessors.len() as u32);
    let ghost head = out@;
    let mut i: usize = 0;
    assert(l.accessors@.subrange(0, 0) =~= Seq::<Accessor>::empty());
    assert(out@ =~= head + enc_accessor_items(l.accessors@.subrange(0, 0)));
    while i < l.accessors.len()
        invariant
            i <= l.accessors@.len(),
            out@ == head + enc_accessor_items(l.accessors@.subrange(0, i as int)),
        decreases l.accessors@.len() - i,
    {
        push_accessor(out, l.accessors[i]);
        let ghost t = l.accessors@.subrange(0, i + 1);
        assert(t.subrange(0, i as int) =~= l.accessors@.subrange(0, i as int));
        i += 1;
        assert(out@ =~= head + enc_accessor_items(l.accessors@.subrange(0, i as int)));
    }
    assert(l.accessors@.subrange(0, l.accessors@.len() as int) =~= l.accessors@);
    assert(final(out)@ =~= old(out)@ + enc_loc(l@));
}

fn push_locs(out: &mut Vec<u8>, set: &RegSet)
    ensures
        final(out)@ == old(out)@ + enc_locs(items_of(*set)),
{
    push_u32(out, set.items.len() as u32);
    let ghost head = out@;
    let ghost items = items_of(*set);
    let mut i: usize = 0;
    assert(items.subrange(0, 0) =~= Seq::<RegLocView>::empty());
    assert(out@ =~= head + enc_loc_items(items.subrange(0, 0)));
    while i < set.items.len()
        invariant
            i <= set.items@.len(),
            items == items_of(*set),
            out@ == head + enc_loc_items(items.subrange(0, i as int)),
        decreases set.items@.len() - i,
    {
        push_loc(out, &set.items[i]);
        let ghost t = items.subrange(0, i + 1);
        assert(t.subrange(0, i as int) =~= items.subrange(0, i as int));
        assert(t[i as int] == set.items@[i as int]@);
        i += 1;
        assert(out@ =~= head + enc_loc_items(items.subrange(0, i as int)));
    }
    assert(items.subrange(0, items.len() as int) =~= items);
    assert(final(out)@ =~= old(out)@ + enc_locs(items_of(*set)));
}

fn push_taints(out: &mut Vec<u8>, t: &Taints)
    ensures
        final(out)@ == old(out)@ + enc_taints(*t),
{
    push_locs(out, &t.regs);
    out.push(if t.mem { 1u8 } else { 0u8 });
    assert(final(out)@ =~= old(out)@ + enc_taints(*t));
}

/// The cache encoding of a footprint.
pub fn encode_footprint(f: &Footprint) -> (r: Vec<u8>)
    ensures
        r@ == enc_footprint(*f),
{
    let mut out: Vec<u8> = Vec::new();
    push_taints(&mut out, &f.write_data_taints);
    push_taints(&mut out, &f.mem_addr_taints);
    push_taints(&mut out, &f.branch_addr_taints);
    push_locs(&mut out, &f.register_reads);
    push_locs(&mut out, &f.register_writes);
    push_locs(&mut out, &f.register_writes_tainted);
    out.push(if f.is_store { 1u8 } else { 0u8 });
    out.push(if f.is_load { 1u8 } else { 0u8 });
    out.push(if f.is_branch { 1u8 } else { 0u8 });
    assert(out@ =~= enc_footprint(*f));
    out
}

proof fn lemma_same_items_view(a: RegSet, b: RegSet)
    requires
        items_of(a) == items_of(b),
    ensures
        a@ == b@,
{
    assert(a.items@.len() == items_of(a).len());
    assert forall|x: RegLocView| a@.contains(x) == b@.contains(x) by {
        if a@.contains(x) {
            let i = choose|i: int| 0 <= i < a.items@.len() && a.items@[i]@ == x;
            assert(items_of(a)[i] == x);
            assert(b.items@[i]@ == x);
        }
        if b@.contains(x) {
            let i = choose|i: int| 0 <= i < b.items@.len() && b.items@[i]@ == x;
            assert(items_of(b)[i] == x);
            assert(a.items@[i]@ == x);
        }
    }
    assert(a@ =~= b@);
}

/// Decoding the encoding of a footprint gives back the same footprint, as
/// sets and flags.
pub proof fn lemma_cache_round_trip(f: Footprint, r: Option<Footprint>)
    requires
        encodable(f),
        decoded(enc_footprint(f), r),
    ensures
        r is Some,
        r->0@ == f@,
{
    let g = r->0;
    lemma_same_items_view(g.write_data_taints.regs, f.write_data_taints.regs);
    lemma_same_items_view(g.mem_addr_taints.regs, f.mem_addr_taints.regs);
    lemma_same_items_view(g.branch_addr_taints.regs, f.branch_addr_taints.regs);
    lemma_same_items_view(g.register_reads, f.register_reads);
    lemma_same_items_view(g.register_writes, f.register_writes);
    lemma_same_items_view(g.register_writes_tainted, f.register_writes_tainted);
}

} // verus!

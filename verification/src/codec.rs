//! Group codec: deterministic, canonical serialization between a member
//! map and the single byte blob stored under a group key.
//!
//! Wire layout: an eight-byte little-endian entry count, then each entry as
//! `(member tag, value length, value bytes)` with the tags in strictly
//! ascending order. Every integer field is eight bytes little endian; a tag
//! is its defining address, module name, type name, and type-parameter
//! list, each name and list length prefixed.

use vstd::prelude::*;
use crate::tag::{ADDRESS_LEN, Address, StructTag, TagModel, TagOrder, lemma_tags_model, tag_cmp, tag_lt, tag_model, tags_model};
use crate::member_map::{MemberMap, entries_model, entry_model};

verus! {

/// 256 to the power `n`.
pub open spec fn pow256(n: nat) -> nat
    decreases n,
{
    if n == 0 {
        1
    } else {
        256 * pow256((n - 1) as nat)
    }
}

/// One more than the largest length or count the wire format can carry.
pub open spec fn len_limit() -> nat {
    0x10000000000000000
}

pub proof fn lemma_pow256_8()
    ensures
        pow256(8) == len_limit(),
{
    reveal_with_fuel(pow256, 9);
}

/// Little-endian bytes of `x`, `n` bytes long.
pub open spec fn le_bytes(x: nat, n: nat) -> Seq<u8>
    decreases n,
{
    if n == 0 {
        Seq::empty()
    } else {
        seq![(x % 256) as u8] + le_bytes(x / 256, (n - 1) as nat)
    }
}

/// Value of a little-endian byte string.
pub open spec fn le_val(s: Seq<u8>) -> nat
    decreases s.len(),
{
    if s.len() == 0 {
        0
    } else {
        s[0] as nat + 256 * le_val(s.subrange(1, s.len() as int))
    }
}

pub proof fn lemma_le_bytes_len(x: nat, n: nat)
    ensures
        le_bytes(x, n).len() == n,
    decreases n,
{
    if n != 0 {
        lemma_le_bytes_len(x / 256, (n - 1) as nat);
    }
}

pub proof fn lemma_le_val_bound(s: Seq<u8>)
    ensures
        le_val(s) < pow256(s.len()),
    decreases s.len(),
{
    if s.len() != 0 {
        lemma_le_val_bound(s.subrange(1, s.len() as int));
    }
}

/// Reading back the little-endian bytes of `x` yields `x`.
pub proof fn lemma_le_val_le_bytes(x: nat, n: nat)
    requires
        x < pow256(n),
    ensures
        le_val(le_bytes(x, n)) == x,
    decreases n,
{
    if n != 0 {
        let rest = le_bytes(x / 256, (n - 1) as nat);
        let whole = seq![(x % 256) as u8] + rest;
        lemma_le_bytes_len(x / 256, (n - 1) as nat);
        assert(whole.subrange(1, whole.len() as int) =~= rest);
        assert(x / 256 < pow256((n - 1) as nat)) by {
            if x / 256 >= pow256((n - 1) as nat) {
                assert(x >= 256 * pow256((n - 1) as nat)) by (nonlinear_arith)
                    requires
                        x / 256 >= pow256((n - 1) as nat),
                        x >= 0,
                ;
            }
        }
        lemma_le_val_le_bytes(x / 256, (n - 1) as nat);
    }
}

/// A model tag whose names and list lengths fit the wire format's
/// eight-byte length fields, with a fixed-width address, recursively.
pub open spec fn encodable_tag(t: TagModel) -> bool
    decreases t,
{
    &&& t.addr.len() == ADDRESS_LEN
    &&& t.module.len() < len_limit()
    &&& t.name.len() < len_limit()
    &&& t.args.len() < len_limit()
    &&& forall|i: int| 0 <= i < t.args.len() ==> encodable_tag(#[trigger] t.args[i])
}

/// Canonical bytes of one tag.
pub open spec fn tag_bytes(t: TagModel) -> Seq<u8>
    decreases t, 0int,
{
    t.addr + le_bytes(t.module.len(), 8) + t.module + le_bytes(t.name.len(), 8) + t.name
        + le_bytes(t.args.len(), 8) + tags_bytes(t.args)
}

/// Canonical bytes of a tag list, concatenated.
pub open spec fn tags_bytes(s: Seq<TagModel>) -> Seq<u8>
    decreases s, 1int,
{
    if s.len() == 0 {
        Seq::empty()
    } else {
        tag_bytes(s[0]) + tags_bytes(s.subrange(1, s.len() as int))
    }
}

/// One decoded member entry: member tag and raw value bytes.
pub type EntryModel = (TagModel, Seq<u8>);

/// Canonical bytes of one entry.
pub open spec fn entry_bytes(e: EntryModel) -> Seq<u8> {
    tag_bytes(e.0) + le_bytes(e.1.len(), 8) + e.1
}

/// Canonical bytes of an entry list, concatenated.
pub open spec fn entries_bytes(es: Seq<EntryModel>) -> Seq<u8>
    decreases es,
{
    if es.len() == 0 {
        Seq::empty()
    } else {
        entry_bytes(es[0]) + entries_bytes(es.subrange(1, es.len() as int))
    }
}

/// Canonical bytes of a whole member map: count, then entries.
pub open spec fn blob_bytes(es: Seq<EntryModel>) -> Seq<u8> {
    le_bytes(es.len(), 8) + entries_bytes(es)
}

/// Entry tags in strictly ascending order (hence no duplicates).
pub open spec fn entries_sorted(es: Seq<EntryModel>) -> bool {
    forall|i: int| 0 <= i < es.len() - 1 ==> tag_lt(#[trigger] es[i].0, es[i + 1].0)
}

/// Every entry of the list can be carried by the wire format.
pub open spec fn entries_encodable(es: Seq<EntryModel>) -> bool {
    &&& es.len() < len_limit()
    &&& forall|i: int| 0 <= i < es.len() ==> encodable_tag(#[trigger] es[i].0)
    &&& forall|i: int| 0 <= i < es.len() ==> (#[trigger] es[i].1).len() < len_limit()
}

/// Reads a fixed number of raw bytes.
pub open spec fn parse_bytes(b: Seq<u8>, pos: int, n: nat) -> Option<(Seq<u8>, int)> {
    if 0 <= pos && pos + n <= b.len() {
        Some((b.subrange(pos, pos + n), pos + n))
    } else {
        None
    }
}

/// Reads an eight-byte little-endian integer.
pub open spec fn parse_u64(b: Seq<u8>, pos: int) -> Option<(nat, int)> {
    if 0 <= pos && pos + 8 <= b.len() {
        Some((le_val(b.subrange(pos, pos + 8)), pos + 8))
    } else {
        None
    }
}

/// Reads one tag.
pub open spec fn parse_tag(b: Seq<u8>, pos: int) -> Option<(TagModel, int)>
    decreases b.len() - pos, 0int,
{
    match parse_bytes(b, pos, ADDRESS_LEN as nat) {
        None => None,
        Some((addr, p1)) => match parse_u64(b, p1) {
            None => None,
            Some((mlen, p2)) => match parse_bytes(b, p2, mlen) {
                None => None,
                Some((module, p3)) => match parse_u64(b, p3) {
                    None => None,
                    Some((nlen, p4)) => match parse_bytes(b, p4, nlen) {
                        None => None,
                        Some((name, p5)) => match parse_u64(b, p5) {
                            None => None,
                            Some((argc, p6)) => if p6 <= pos || p6 > b.len() {
                                None
                            } else {
                                match parse_tags(b, p6, argc) {
                                    None => None,
                                    Some((args, p7)) => Some(
                                        (TagModel { addr, module, name, args }, p7),
                                    ),
                                }
                            },
                        },
                    },
                },
            },
        },
    }
}

/// Reads `n` consecutive tags.
pub open spec fn parse_tags(b: Seq<u8>, pos: int, n: nat) -> Option<(Seq<TagModel>, int)>
    decreases b.len() - pos, 1int,
{
    if !(0 <= pos <= b.len()) {
        None
    } else if n == 0 {
        Some((Seq::empty(), pos))
    } else {
        match parse_tag(b, pos) {
            None => None,
            Some((t, p1)) => if p1 <= pos || p1 > b.len() {
                None
            } else {
                match parse_tags(b, p1, (n - 1) as nat) {
                    None => None,
                    Some((ts, p2)) => Some((seq![t] + ts, p2)),
                }
            },
        }
    }
}

/// Reads one entry: tag, value length, value bytes.
pub open spec fn parse_entry(b: Seq<u8>, pos: int) -> Option<(EntryModel, int)> {
    match parse_tag(b, pos) {
        None => None,
        Some((t, p1)) => match parse_u64(b, p1) {
            None => None,
            Some((vlen, p2)) => match parse_bytes(b, p2, vlen) {
                None => None,
                Some((value, p3)) => Some(((t, value), p3)),
            },
        },
    }
}

/// Reads `n` consecutive entries.
pub open spec fn parse_entries(b: Seq<u8>, pos: int, n: nat) -> Option<(Seq<EntryModel>, int)>
    decreases b.len() - pos,
{
    if !(0 <= pos <= b.len()) {
        None
    } else if n == 0 {
        Some((Seq::empty(), pos))
    } else {
        match parse_entry(b, pos) {
            None => None,
            Some((e, p1)) => if p1 <= pos || p1 > b.len() {
                None
            } else {
                match parse_entries(b, p1, (n - 1) as nat) {
                    None => None,
                    Some((es, p2)) => Some((seq![e] + es, p2)),
                }
            },
        }
    }
}

/// The decoded member entries of a blob, or nothing if the blob is not a
/// canonical encoding: truncated or otherwise malformed, trailing bytes,
/// an empty map, or tags out of order or duplicated.
pub open spec fn spec_decode(b: Seq<u8>) -> Option<Seq<EntryModel>> {
    match parse_u64(b, 0) {
        None => None,
        Some((n, p)) => match parse_entries(b, p, n) {
            None => None,
            Some((es, q)) => if q == b.len() && n >= 1 && entries_sorted(es) {
                Some(es)
            } else {
                None
            },
        },
    }
}

/// Splitting a known concatenation inside a larger byte string.
pub proof fn lemma_concat_extract(b: Seq<u8>, pos: int, u: Seq<u8>, v: Seq<u8>)
    requires
        0 <= pos,
        pos + u.len() + v.len() <= b.len(),
        b.subrange(pos, pos + u.len() + v.len()) == u + v,
    ensures
        b.subrange(pos, pos + u.len()) == u,
        b.subrange(pos + u.len(), pos + u.len() + v.len()) == v,
{
    let w = b.subrange(pos, pos + u.len() + v.len());
    assert forall|k: int| 0 <= k < u.len() implies b[pos + k] == u[k] by {
        assert(w[k] == (u + v)[k]);
    }
    assert(b.subrange(pos, pos + u.len()) =~= u);
    assert forall|k: int| 0 <= k < v.len() implies b[pos + u.len() + k] == v[k] by {
        assert(w[u.len() + k] == (u + v)[u.len() + k]);
    }
    assert(b.subrange(pos + u.len(), pos + u.len() + v.len()) =~= v);
}

pub proof fn lemma_parse_u64_at(b: Seq<u8>, pos: int, x: nat)
    requires
        0 <= pos,
        pos + 8 <= b.len(),
        x < len_limit(),
        b.subrange(pos, pos + 8) == le_bytes(x, 8),
    ensures
        parse_u64(b, pos) == Some((x, pos + 8)),
{
    lemma_pow256_8();
    lemma_le_bytes_len(x, 8);
    lemma_le_val_le_bytes(x, 8);
}

/// The encoding of a tag is at least the five fixed fields long.
pub proof fn lemma_tag_bytes_len(t: TagModel)
    requires
        encodable_tag(t),
    ensures
        tag_bytes(t).len() >= 56,
        tag_bytes(t).len() == 56 + t.module.len() + t.name.len() + tags_bytes(t.args).len(),
{
    lemma_le_bytes_len(t.module.len(), 8);
    lemma_le_bytes_len(t.name.len(), 8);
    lemma_le_bytes_len(t.args.len(), 8);
}

/// The parser reads back exactly the tag that was printed.
pub proof fn lemma_parse_tag_inverts(b: Seq<u8>, pos: int, t: TagModel)
    requires
        encodable_tag(t),
        0 <= pos,
        pos + tag_bytes(t).len() <= b.len(),
        b.subrange(pos, pos + tag_bytes(t).len()) == tag_bytes(t),
    ensures
        parse_tag(b, pos) == Some((t, pos + tag_bytes(t).len())),
    decreases t,
{
    let lm = le_bytes(t.module.len(), 8);
    let ln = le_bytes(t.name.len(), 8);
    let la = le_bytes(t.args.len(), 8);
    let tb = tags_bytes(t.args);
    lemma_le_bytes_len(t.module.len(), 8);
    lemma_le_bytes_len(t.name.len(), 8);
    lemma_le_bytes_len(t.args.len(), 8);
    let s1 = t.addr + lm;
    let s2 = s1 + t.module;
    let s3 = s2 + ln;
    let s4 = s3 + t.name;
    let s5 = s4 + la;
    assert(tag_bytes(t) == s5 + tb);
    let o5 = pos + s5.len();
    lemma_concat_extract(b, pos, s5, tb);
    lemma_concat_extract(b, pos, s4, la);
    lemma_concat_extract(b, pos, s3, t.name);
    lemma_concat_extract(b, pos, s2, ln);
    lemma_concat_extract(b, pos, s1, t.module);
    lemma_concat_extract(b, pos, t.addr, lm);
    let p1 = pos + ADDRESS_LEN as int;
    assert(parse_bytes(b, pos, ADDRESS_LEN as nat) == Some((t.addr, p1)));
    lemma_parse_u64_at(b, p1, t.module.len());
    let p2 = p1 + 8;
    assert(parse_bytes(b, p2, t.module.len()) == Some((t.module, p2 + t.module.len())));
    let p3 = p2 + t.module.len();
    lemma_parse_u64_at(b, p3, t.name.len());
    let p4 = p3 + 8;
    assert(parse_bytes(b, p4, t.name.len()) == Some((t.name, p4 + t.name.len())));
    let p5 = p4 + t.name.len();
    lemma_parse_u64_at(b, p5, t.args.len());
    let p6 = p5 + 8;
    lemma_parse_tags_inverts(b, p6, t.args);
    assert(parse_tag(b, pos) == Some((TagModel { addr: t.addr, module: t.module, name: t.name, args: t.args }, p6 + tb.len())));
    assert(TagModel { addr: t.addr, module: t.module, name: t.name, args: t.args } =~= t);
}

/// The parser reads back exactly the tag list that was printed.
pub proof fn lemma_parse_tags_inverts(b: Seq<u8>, pos: int, ts: Seq<TagModel>)
    requires
        forall|i: int| 0 <= i < ts.len() ==> encodable_tag(#[trigger] ts[i]),
        0 <= pos,
        pos + tags_bytes(ts).len() <= b.len(),
        b.subrange(pos, pos + tags_bytes(ts).len()) == tags_bytes(ts),
    ensures
        parse_tags(b, pos, ts.len()) == Some((ts, pos + tags_bytes(ts).len())),
    decreases ts,
{
    if ts.len() == 0 {
        assert(parse_tags(b, pos, 0) == Some((Seq::<TagModel>::empty(), pos)));
        assert(Seq::<TagModel>::empty() =~= ts);
    } else {
        let t0 = ts[0];
        let rest = ts.subrange(1, ts.len() as int);
        assert(tags_bytes(ts) == tag_bytes(t0) + tags_bytes(rest));
        lemma_concat_extract(b, pos, tag_bytes(t0), tags_bytes(rest));
        lemma_parse_tag_inverts(b, pos, t0);
        lemma_tag_bytes_len(t0);
        let p1 = pos + tag_bytes(t0).len();
        lemma_parse_tags_inverts(b, p1, rest);
        assert(parse_tags(b, pos, ts.len()) == Some((seq![t0] + rest, pos + tags_bytes(ts).len())));
        assert(seq![t0] + rest =~= ts);
    }
}

/// The parser reads back exactly the entry that was printed.
pub proof fn lemma_parse_entry_inverts(b: Seq<u8>, pos: int, e: EntryModel)
    requires
        encodable_tag(e.0),
        e.1.len() < len_limit(),
        0 <= pos,
        pos + entry_bytes(e).len() <= b.len(),
        b.subrange(pos, pos + entry_bytes(e).len()) == entry_bytes(e),
    ensures
        parse_entry(b, pos) == Some((e, pos + entry_bytes(e).len())),
{
    let lv = le_bytes(e.1.len(), 8);
    lemma_le_bytes_len(e.1.len(), 8);
    let s1 = tag_bytes(e.0) + lv;
    assert(entry_bytes(e) == s1 + e.1);
    lemma_concat_extract(b, pos, s1, e.1);
    lemma_concat_extract(b, pos, tag_bytes(e.0), lv);
    lemma_parse_tag_inverts(b, pos, e.0);
    let p1 = pos + tag_bytes(e.0).len();
    lemma_parse_u64_at(b, p1, e.1.len());
    let p2 = p1 + 8;
    assert(parse_bytes(b, p2, e.1.len()) == Some((e.1, p2 + e.1.len())));
    assert((e.0, e.1) == e);
}

/// The parser reads back exactly the entry list that was printed.
pub proof fn lemma_parse_entries_inverts(b: Seq<u8>, pos: int, es: Seq<EntryModel>)
    requires
        forall|i: int| 0 <= i < es.len() ==> encodable_tag(#[trigger] es[i].0),
        forall|i: int| 0 <= i < es.len() ==> (#[trigger] es[i].1).len() < len_limit(),
        0 <= pos,
        pos + entries_bytes(es).len() <= b.len(),
        b.subrange(pos, pos + entries_bytes(es).len()) == entries_bytes(es),
    ensures
        parse_entries(b, pos, es.len()) == Some((es, pos + entries_bytes(es).len())),
    decreases es,
{
    if es.len() == 0 {
        assert(Seq::<EntryModel>::empty() =~= es);
    } else {
        let e0 = es[0];
        let rest = es.subrange(1, es.len() as int);
        assert(entries_bytes(es) == entry_bytes(e0) + entries_bytes(rest));
        lemma_concat_extract(b, pos, entry_bytes(e0), entries_bytes(rest));
        lemma_parse_entry_inverts(b, pos, e0);
        lemma_tag_bytes_len(e0.0);
        lemma_le_bytes_len(e0.1.len(), 8);
        let p1 = pos + entry_bytes(e0).len();
        lemma_parse_entries_inverts(b, p1, rest);
        assert(parse_entries(b, pos, es.len()) == Some((seq![e0] + rest, pos + entries_bytes(es).len())));
        assert(seq![e0] + rest =~= es);
    }
}

/// Round-trip law: decoding the canonical encoding of any non-empty,
/// sorted member-entry list yields exactly that list.
pub proof fn lemma_encode_decode_round_trip(es: Seq<EntryModel>)
    requires
        entries_encodable(es),
        entries_sorted(es),
        es.len() >= 1,
    ensures
        spec_decode(blob_bytes(es)) == Some(es),
{
    let b = blob_bytes(es);
    let lc = le_bytes(es.len(), 8);
    lemma_le_bytes_len(es.len(), 8);
    assert(b == lc + entries_bytes(es));
    assert(b.subrange(0, b.len() as int) =~= b);
    lemma_concat_extract(b, 0, lc, entries_bytes(es));
    lemma_parse_u64_at(b, 0, es.len());
    lemma_parse_entries_inverts(b, 8, es);
}

pub proof fn lemma_pow256_le(a: nat, b: nat)
    requires
        a <= b,
    ensures
        pow256(a) <= pow256(b),
    decreases b,
{
    if a < b && b > 0 {
        lemma_pow256_le(a, (b - 1) as nat);
    }
}

pub proof fn lemma_le_val_peel(s: Seq<u8>, p: int, q: int)
    requires
        0 <= p < q <= s.len(),
    ensures
        le_val(s.subrange(p, q)) == s[p] + 256 * le_val(s.subrange(p + 1, q)),
{
    let w = s.subrange(p, q);
    assert(w.subrange(1, w.len() as int) =~= s.subrange(p + 1, q));
}

/// The eight little-endian bytes of a value, spelled out.
pub proof fn lemma_le_bytes_unfold8(x: nat)
    ensures
        le_bytes(x, 8) =~= seq![
            (x % 256) as u8,
            (x / 256 % 256) as u8,
            (x / 256 / 256 % 256) as u8,
            (x / 256 / 256 / 256 % 256) as u8,
            (x / 256 / 256 / 256 / 256 % 256) as u8,
            (x / 256 / 256 / 256 / 256 / 256 % 256) as u8,
            (x / 256 / 256 / 256 / 256 / 256 / 256 % 256) as u8,
            (x / 256 / 256 / 256 / 256 / 256 / 256 / 256 % 256) as u8,
        ],
{
    reveal_with_fuel(le_bytes, 9);
}

/// Appends the eight little-endian bytes of `x`.
fn write_u64(out: &mut Vec<u8>, x: u64)
    ensures
        final(out)@ == old(out)@ + le_bytes(x as nat, 8),
{
    let b0 = (x % 256) as u8;
    let r1 = x / 256;
    let b1 = (r1 % 256) as u8;
    let r2 = r1 / 256;
    let b2 = (r2 % 256) as u8;
    let r3 = r2 / 256;
    let b3 = (r3 % 256) as u8;
    let r4 = r3 / 256;
    let b4 = (r4 % 256) as u8;
    let r5 = r4 / 256;
    let b5 = (r5 % 256) as u8;
    let r6 = r5 / 256;
    let b6 = (r6 % 256) as u8;
    let r7 = r6 / 256;
    let b7 = (r7 % 256) as u8;
    out.push(b0);
    out.push(b1);
    out.push(b2);
    out.push(b3);
    out.push(b4);
    out.push(b5);
    out.push(b6);
    out.push(b7);
    proof {
        lemma_le_bytes_unfold8(x as nat);
        assert(out@ =~= old(out)@ + le_bytes(x as nat, 8));
    }
}

/// Appends a copy of the given bytes.
fn write_bytes(out: &mut Vec<u8>, v: &Vec<u8>)
    ensures
        final(out)@ == old(out)@ + v@,
{
    let mut i: usize = 0;
    let n = v.len();
    while i < n
        invariant
            i <= n,
            n == v@.len(),
            out@ == old(out)@ + v@.subrange(0, i as int),
        decreases n - i,
    {
        out.push(v[i]);
        proof {
            assert(old(out)@ + v@.subrange(0, i + 1) =~= (old(out)@ + v@.subrange(0, i as int)).push(v@[i as int]));
        }
        i = i + 1;
    }
    proof {
        assert(v@.subrange(0, n as int) =~= v@);
    }
}

/// Reads the eight-byte little-endian integer at `pos`.
fn read_u64(b: &Vec<u8>, pos: usize) -> (r: Option<(u64, usize)>)
    ensures
        match r {
            Some((x, p)) => parse_u64(b@, pos as int) == Some((x as nat, p as int)),
            None => parse_u64(b@, pos as int) is None,
        },
{
    if pos > b.len() || b.len() - pos < 8 {
        return None;
    }
    let mut k: usize = 8;
    let mut v: u64 = 0;
    proof {
        assert(b@.subrange(pos + 8, pos + 8) =~= Seq::<u8>::empty());
        lemma_pow256_8();
        assert(vstd::std_specs::vec::spec_vec_len(b) == b@.len());
    }
    while k > 0
        invariant
            k <= 8,
            pos + 8 <= b@.len(),
            b@.len() <= usize::MAX,
            v as nat == le_val(b@.subrange(pos + k, pos + 8)),
            (v as nat) < pow256((8 - k) as nat),
        decreases k,
    {
        k = k - 1;
        let byte = b[pos + k];
        proof {
            lemma_le_val_peel(b@, (pos + k) as int, (pos + 8) as int);
            lemma_pow256_le((7 - k) as nat, 7);
            assert(pow256(8) == 256 * pow256(7));
            lemma_pow256_8();
        }
        v = byte as u64 + 256 * v;
    }
    Some((v, pos + 8))
}

/// Copies `b[from..to]` into a fresh byte string.
fn copy_range(b: &Vec<u8>, from: usize, to: usize) -> (r: Vec<u8>)
    requires
        from <= to <= b@.len(),
    ensures
        r@ == b@.subrange(from as int, to as int),
{
    let mut out: Vec<u8> = Vec::new();
    let mut i: usize = from;
    while i < to
        invariant
            from <= i <= to <= b@.len(),
            out@ == b@.subrange(from as int, i as int),
        decreases to - i,
    {
        out.push(b[i]);
        proof {
            assert(b@.subrange(from as int, i + 1) =~= b@.subrange(from as int, i as int).push(b@[i as int]));
        }
        i = i + 1;
    }
    out
}

pub proof fn lemma_tags_bytes_push(s: Seq<TagModel>, t: TagModel)
    ensures
        tags_bytes(s.push(t)) == tags_bytes(s) + tag_bytes(t),
    decreases s,
{
    if s.len() == 0 {
        assert(s.push(t)[0] == t);
        assert(s.push(t).subrange(1, 1) =~= Seq::<TagModel>::empty());
        assert(tags_bytes(Seq::<TagModel>::empty()) == Seq::<u8>::empty());
        assert(tags_bytes(s.push(t)) =~= tags_bytes(s) + tag_bytes(t));
    } else {
        let rest = s.subrange(1, s.len() as int);
        assert(s.push(t)[0] == s[0]);
        assert(s.push(t).subrange(1, s.push(t).len() as int) =~= rest.push(t));
        lemma_tags_bytes_push(rest, t);
        assert(tags_bytes(s.push(t)) == tag_bytes(s[0]) + tags_bytes(rest.push(t)));
        assert(tags_bytes(s) == tag_bytes(s[0]) + tags_bytes(rest));
        assert(tag_bytes(s[0]) + (tags_bytes(rest) + tag_bytes(t)) =~= (tag_bytes(s[0]) + tags_bytes(rest)) + tag_bytes(t));
    }
}

pub proof fn lemma_entries_bytes_push(s: Seq<EntryModel>, e: EntryModel)
    ensures
        entries_bytes(s.push(e)) == entries_bytes(s) + entry_bytes(e),
    decreases s,
{
    if s.len() == 0 {
        assert(s.push(e)[0] == e);
        assert(s.push(e).subrange(1, 1) =~= Seq::<EntryModel>::empty());
        assert(entries_bytes(Seq::<EntryModel>::empty()) == Seq::<u8>::empty());
        assert(entries_bytes(s.push(e)) =~= entries_bytes(s) + entry_bytes(e));
    } else {
        let rest = s.subrange(1, s.len() as int);
        assert(s.push(e)[0] == s[0]);
        assert(s.push(e).subrange(1, s.push(e).len() as int) =~= rest.push(e));
        lemma_entries_bytes_push(rest, e);
        assert(entries_bytes(s.push(e)) == entry_bytes(s[0]) + entries_bytes(rest.push(e)));
        assert(entries_bytes(s) == entry_bytes(s[0]) + entries_bytes(rest));
        assert(entry_bytes(s[0]) + (entries_bytes(rest) + entry_bytes(e)) =~= (entry_bytes(s[0]) + entries_bytes(rest)) + entry_bytes(e));
    }
}

/// Appends the canonical bytes of one tag.
fn encode_tag(out: &mut Vec<u8>, t: &StructTag)
    requires
        encodable_tag(tag_model(*t)),
    ensures
        final(out)@ == old(out)@ + tag_bytes(tag_model(*t)),
    decreases *t,
{
    let ghost tm = tag_model(*t);
    let ghost base = out@;
    write_bytes(out, &t.address.bytes);
    write_u64(out, t.module.len() as u64);
    write_bytes(out, &t.module);
    write_u64(out, t.name.len() as u64);
    write_bytes(out, &t.name);
    write_u64(out, t.type_args.len() as u64);
    proof {
        lemma_tags_model(t.type_args@);
    }
    let ghost mid = out@;
    let ghost argms = tags_model(t.type_args@);
    let n = t.type_args.len();
    let mut j: usize = 0;
    proof {
        assert(argms.subrange(0, 0) =~= Seq::<TagModel>::empty());
    }
    while j < n
        invariant
            j <= n,
            n == t.type_args@.len(),
            argms == tags_model(t.type_args@),
            argms.len() == n,
            forall|k: int| 0 <= k < n ==> argms[k] == tag_model(#[trigger] t.type_args@[k]),
            forall|k: int| 0 <= k < n ==> encodable_tag(#[trigger] argms[k]),
            out@ == mid + tags_bytes(argms.subrange(0, j as int)),
        decreases n - j,
    {
        encode_tag(out, &t.type_args[j]);
        proof {
            lemma_tags_bytes_push(argms.subrange(0, j as int), argms[j as int]);
            assert(argms.subrange(0, j + 1) =~= argms.subrange(0, j as int).push(argms[j as int]));
        }
        j = j + 1;
    }
    proof {
        assert(argms.subrange(0, n as int) =~= argms);
        assert(tm.module.len() == t.module@.len());
        assert(out@ =~= base + tag_bytes(tm));
    }
}

/// Decode failure: the stored bytes are not a canonical group encoding.
#[derive(Clone, Copy, Debug, PartialEq, Eq, Structural)]
pub struct CorruptBlob;

/// Serializes a member map into its unique canonical blob.
#[verifier::rlimit(50)]
pub fn encode(m: &MemberMap) -> (r: Vec<u8>)
    requires
        m.wf(),
    ensures
        r@ == blob_bytes(m.model()),
{
    let ghost es = m.model();
    let mut out: Vec<u8> = Vec::new();
    write_u64(&mut out, m.entries.len() as u64);
    let n = m.entries.len();
    let mut i: usize = 0;
    proof {
        assert(Seq::<u8>::empty() + le_bytes(es.len(), 8) =~= le_bytes(es.len(), 8));
        assert(es.subrange(0, 0) =~= Seq::<EntryModel>::empty());
        assert(entries_bytes(Seq::<EntryModel>::empty()) == Seq::<u8>::empty());
        assert(out@ =~= le_bytes(es.len(), 8) + entries_bytes(es.subrange(0, 0)));
    }
    while i < n
        invariant
            i <= n,
            n == m.entries@.len(),
            es == m.model(),
            es.len() == n,
            m.wf(),
            out@ == le_bytes(es.len(), 8) + entries_bytes(es.subrange(0, i as int)),
        decreases n - i,
    {
        let ghost pre = out@;
        proof {
            assert(m.model()[i as int] == entry_model(m.entries@[i as int]));
        }
        encode_tag(&mut out, &m.entries[i].0);
        write_u64(&mut out, m.entries[i].1.len() as u64);
        write_bytes(&mut out, &m.entries[i].1);
        proof {
            let e = es[i as int];
            assert(e == entry_model(m.entries@[i as int]));
            assert(out@ =~= pre + entry_bytes(e));
            lemma_entries_bytes_push(es.subrange(0, i as int), e);
            assert(es.subrange(0, i + 1) =~= es.subrange(0, i as int).push(e));
            assert(out@ =~= le_bytes(es.len(), 8) + entries_bytes(es.subrange(0, i + 1)));
        }
        i = i + 1;
    }
    proof {
        assert(es.subrange(0, n as int) =~= es);
    }
    out
}

/// What one finished stretch of tag parsing means for the whole list.
pub open spec fn tags_tail_ok(
    b: Seq<u8>,
    start: int,
    total: nat,
    done: Seq<TagModel>,
    cur: int,
    remaining: nat,
) -> bool {
    match parse_tags(b, cur, remaining) {
        None => parse_tags(b, start, total) is None,
        Some((ts, p)) => parse_tags(b, start, total) == Some((done + ts, p)),
    }
}

/// Reads the tag starting at `pos`, as the parser specifies.
#[verifier::loop_isolation(false)]
fn decode_tag(b: &Vec<u8>, pos: usize) -> (r: Option<(StructTag, usize)>)
    ensures
        match r {
            Some((t, p)) => {
                &&& parse_tag(b@, pos as int) == Some((tag_model(t), p as int))
                &&& encodable_tag(tag_model(t))
                &&& pos < p <= b@.len()
            },
            None => parse_tag(b@, pos as int) is None,
        },
    decreases b@.len() - pos,
{
    proof {
        assert(vstd::std_specs::vec::spec_vec_len(b) == b@.len());
    }
    if pos > b.len() || b.len() - pos < ADDRESS_LEN {
        return None;
    }
    let p1 = pos + ADDRESS_LEN;
    let addr_bytes = copy_range(b, pos, p1);
    let (mlen64, p2) = match read_u64(b, p1) {
        None => {
            return None;
        },
        Some(x) => x,
    };
    if ((b.len() - p2) as u64) < mlen64 {
        return None;
    }
    let mlen = mlen64 as usize;
    let p3 = p2 + mlen;
    let module = copy_range(b, p2, p3);
    let (nlen64, p4) = match read_u64(b, p3) {
        None => {
            return None;
        },
        Some(x) => x,
    };
    if ((b.len() - p4) as u64) < nlen64 {
        return None;
    }
    let nlen = nlen64 as usize;
    let p5 = p4 + nlen;
    let name = copy_range(b, p4, p5);
    let (argc64, p6) = match read_u64(b, p5) {
        None => {
            return None;
        },
        Some(x) => x,
    };
    let ghost total = argc64 as nat;
    proof {
        assert(parse_bytes(b@, pos as int, ADDRESS_LEN as nat) == Some((b@.subrange(pos as int, p1 as int), p1 as int)));
        assert(parse_bytes(b@, p2 as int, mlen64 as nat) == Some((b@.subrange(p2 as int, p3 as int), p3 as int)));
        assert(parse_bytes(b@, p4 as int, nlen64 as nat) == Some((b@.subrange(p4 as int, p5 as int), p5 as int)));
    }
    let mut args: Vec<StructTag> = Vec::new();
    let mut cur = p6;
    let mut j: u64 = 0;
    proof {
        lemma_tags_model(args@);
        assert(tags_model(args@) =~= Seq::<TagModel>::empty());
        if parse_tags(b@, p6 as int, total) is Some {
            let (ts, p) = parse_tags(b@, p6 as int, total)->Some_0;
            assert(Seq::<TagModel>::empty() + ts =~= ts);
        }
        assert(tags_tail_ok(b@, p6 as int, total, tags_model(args@), cur as int, total));
    }
    while j < argc64
        invariant
            j <= argc64,
            pos < p6 <= cur <= b@.len(),
            args@.len() == j,
            forall|k: int| 0 <= k < j ==> encodable_tag(tag_model(#[trigger] args@[k])),
            tags_tail_ok(b@, p6 as int, total, tags_model(args@), cur as int, (argc64 - j) as nat),
            total == argc64 as nat,
        decreases argc64 - j,
    {
        let ghost done = tags_model(args@);
        let ghost rem = (argc64 - j) as nat;
        match decode_tag(b, cur) {
            None => {
                proof {
                    assert(parse_tags(b@, cur as int, rem) is None);
                    assert(tags_tail_ok(b@, p6 as int, total, done, cur as int, rem));
                    assert(parse_tags(b@, p6 as int, total) is None);
                    assert(parse_tag(b@, pos as int) is None);
                }
                return None;
            },
            Some((t, np)) => {
                proof {
                    let tm = tag_model(t);
                    assert(parse_tags(b@, cur as int, rem) == (
                        match parse_tags(b@, np as int, (rem - 1) as nat) {
                            None => None::<(Seq<TagModel>, int)>,
                            Some((ts, p)) => Some((seq![tm] + ts, p)),
                        }
                    ));
                    lemma_tags_model(args@);
                    lemma_tags_model(args@.push(t));
                    assert forall|k: int| 0 <= k < args@.len() + 1 implies
                        tags_model(args@.push(t))[k] == done.push(tm)[k] by {
                        if k < args@.len() {
                            assert(args@.push(t)[k] == args@[k]);
                        } else {
                            assert(args@.push(t)[k] == t);
                        }
                    }
                    assert(tags_model(args@.push(t)) =~= done.push(tm));
                    if parse_tags(b@, np as int, (rem - 1) as nat) is Some {
                        let (ts, p) = parse_tags(b@, np as int, (rem - 1) as nat)->Some_0;
                        assert(done + (seq![tm] + ts) =~= done.push(tm) + ts);
                    }
                }
                args.push(t);
                cur = np;
                j = j + 1;
            },
        }
    }
    proof {
        assert(parse_tags(b@, cur as int, 0) == Some((Seq::<TagModel>::empty(), cur as int)));
        assert(tags_model(args@) + Seq::<TagModel>::empty() =~= tags_model(args@));
        assert(parse_tags(b@, p6 as int, total) == Some((tags_model(args@), cur as int)));
    }
    let st = StructTag {
        address: Address { bytes: addr_bytes },
        module,
        name,
        type_args: args,
    };
    proof {
        let tm = tag_model(st);
        assert(tm.addr == b@.subrange(pos as int, p1 as int));
        assert(parse_bytes(b@, pos as int, ADDRESS_LEN as nat) == Some((tm.addr, p1 as int)));
        assert(parse_bytes(b@, p2 as int, mlen64 as nat) == Some((tm.module, p3 as int)));
        assert(parse_bytes(b@, p4 as int, nlen64 as nat) == Some((tm.name, p5 as int)));
        assert(parse_tag(b@, pos as int) == Some((tm, cur as int)));
        lemma_tags_model(st.type_args@);
        lemma_pow256_8();
        assert forall|k: int| 0 <= k < tm.args.len() implies
            encodable_tag(#[trigger] tm.args[k]) by {
            assert(tm.args[k] == tag_model(st.type_args@[k]));
        }
        assert(encodable_tag(tm));
    }
    Some((st, cur))
}

/// Canonical rejection, order: a blob laying out well-formed entries
/// whose tags are not in strictly ascending order never decodes.
pub proof fn lemma_unsorted_rejected(es: Seq<EntryModel>)
    requires
        entries_encodable(es),
        es.len() >= 1,
        !entries_sorted(es),
    ensures
        spec_decode(blob_bytes(es)) is None,
{
    let b = blob_bytes(es);
    let lc = le_bytes(es.len(), 8);
    lemma_le_bytes_len(es.len(), 8);
    assert(b == lc + entries_bytes(es));
    assert(b.subrange(0, b.len() as int) =~= b);
    lemma_concat_extract(b, 0, lc, entries_bytes(es));
    lemma_parse_u64_at(b, 0, es.len());
    lemma_parse_entries_inverts(b, 8, es);
}

/// Canonical rejection, duplicates: a blob laying out well-formed entries
/// in which some tag occurs twice never decodes.
pub proof fn lemma_duplicate_rejected(es: Seq<EntryModel>, i: int, j: int)
    requires
        entries_encodable(es),
        0 <= i < j < es.len(),
        es[i].0 == es[j].0,
    ensures
        spec_decode(blob_bytes(es)) is None,
{
    if entries_sorted(es) {
        crate::member_map::lemma_sorted_chain(es, i, j);
        crate::tag::lemma_tag_lt_irrefl(es[i].0);
    }
    lemma_unsorted_rejected(es);
}

pub proof fn lemma_parse_tags_min(b: Seq<u8>, pos: int, n: nat)
    requires
        parse_tags(b, pos, n) is Some,
    ensures
        parse_tags(b, pos, n)->Some_0.1 >= pos,
    decreases b.len() - pos, 1int,
{
    if n != 0 {
        let (t, p1) = parse_tag(b, pos)->Some_0;
        lemma_parse_tags_min(b, p1, (n - 1) as nat);
    }
}

pub proof fn lemma_parse_entries_min(b: Seq<u8>, pos: int, n: nat)
    requires
        parse_entries(b, pos, n) is Some,
    ensures
        parse_entries(b, pos, n)->Some_0.1 >= pos,
    decreases b.len() - pos,
{
    if n != 0 {
        let (e, p1) = parse_entry(b, pos)->Some_0;
        lemma_parse_entries_min(b, p1, (n - 1) as nat);
    }
}

/// Cutting the input short of where a tag parse ended makes it fail.
pub proof fn lemma_parse_tag_prefix(b: Seq<u8>, k: int, pos: int)
    requires
        0 <= k <= b.len(),
        parse_tag(b, pos) is Some,
    ensures
        ({
            let (t, end) = parse_tag(b, pos)->Some_0;
            if end <= k {
                parse_tag(b.subrange(0, k), pos) == parse_tag(b, pos)
            } else {
                parse_tag(b.subrange(0, k), pos) is None
            }
        }),
    decreases b.len() - pos, 0int,
{
    let b2 = b.subrange(0, k);
    let (addr, p1) = parse_bytes(b, pos, ADDRESS_LEN as nat)->Some_0;
    let (mlen, p2) = parse_u64(b, p1)->Some_0;
    let (module, p3) = parse_bytes(b, p2, mlen)->Some_0;
    let (nlen, p4) = parse_u64(b, p3)->Some_0;
    let (name, p5) = parse_bytes(b, p4, nlen)->Some_0;
    let (argc, p6) = parse_u64(b, p5)->Some_0;
    let (args, p7) = parse_tags(b, p6, argc)->Some_0;
    lemma_parse_tags_min(b, p6, argc);
    if p1 > k {
    } else {
        assert(b2.subrange(pos, p1) =~= b.subrange(pos, p1));
        if p2 > k {
        } else {
            assert(b2.subrange(p1, p2) =~= b.subrange(p1, p2));
            if p3 > k {
            } else {
                assert(b2.subrange(p2, p3) =~= b.subrange(p2, p3));
                if p4 > k {
                } else {
                    assert(b2.subrange(p3, p4) =~= b.subrange(p3, p4));
                    if p5 > k {
                    } else {
                        assert(b2.subrange(p4, p5) =~= b.subrange(p4, p5));
                        if p6 > k {
                        } else {
                            assert(b2.subrange(p5, p6) =~= b.subrange(p5, p6));
                            lemma_parse_tags_prefix(b, k, p6, argc);
                        }
                    }
                }
            }
        }
    }
}

/// Cutting the input short of where a tag-list parse ended makes it fail.
pub proof fn lemma_parse_tags_prefix(b: Seq<u8>, k: int, pos: int, n: nat)
    requires
        0 <= k <= b.len(),
        parse_tags(b, pos, n) is Some,
    ensures
        ({
            let (ts, end) = parse_tags(b, pos, n)->Some_0;
            if end <= k {
                parse_tags(b.subrange(0, k), pos, n) == parse_tags(b, pos, n)
            } else {
                parse_tags(b.subrange(0, k), pos, n) is None
            }
        }),
    decreases b.len() - pos, 1int,
{
    let b2 = b.subrange(0, k);
    if n == 0 {
    } else {
        let (t, p1) = parse_tag(b, pos)->Some_0;
        let (ts, p2) = parse_tags(b, p1, (n - 1) as nat)->Some_0;
        lemma_parse_tags_min(b, p1, (n - 1) as nat);
        lemma_parse_tag_prefix(b, k, pos);
        if p1 > k {
        } else {
            lemma_parse_tags_prefix(b, k, p1, (n - 1) as nat);
        }
    }
}

/// Cutting the input short of where an entry parse ended makes it fail.
pub proof fn lemma_parse_entry_prefix(b: Seq<u8>, k: int, pos: int)
    requires
        0 <= k <= b.len(),
        parse_entry(b, pos) is Some,
    ensures
        ({
            let (e, end) = parse_entry(b, pos)->Some_0;
            if end <= k {
                parse_entry(b.subrange(0, k), pos) == parse_entry(b, pos)
            } else {
                parse_entry(b.subrange(0, k), pos) is None
            }
        }),
{
    let b2 = b.subrange(0, k);
    let (t, p1) = parse_tag(b, pos)->Some_0;
    let (vlen, p2) = parse_u64(b, p1)->Some_0;
    let (value, p3) = parse_bytes(b, p2, vlen)->Some_0;
    lemma_parse_tag_prefix(b, k, pos);
    if p1 > k {
    } else {
        if p2 > k {
        } else {
            assert(b2.subrange(p1, p2) =~= b.subrange(p1, p2));
            if p3 > k {
            } else {
                assert(b2.subrange(p2, p3) =~= b.subrange(p2, p3));
            }
        }
    }
}

/// Cutting the input short of where an entry-list parse ended makes it fail.
pub proof fn lemma_parse_entries_prefix(b: Seq<u8>, k: int, pos: int, n: nat)
    requires
        0 <= k <= b.len(),
        parse_entries(b, pos, n) is Some,
    ensures
        ({
            let (es, end) = parse_entries(b, pos, n)->Some_0;
            if end <= k {
                parse_entries(b.subrange(0, k), pos, n) == parse_entries(b, pos, n)
            } else {
                parse_entries(b.subrange(0, k), pos, n) is None
            }
        }),
    decreases b.len() - pos,
{
    let b2 = b.subrange(0, k);
    if n == 0 {
    } else {
        let (e, p1) = parse_entry(b, pos)->Some_0;
        let (es, p2) = parse_entries(b, p1, (n - 1) as nat)->Some_0;
        lemma_parse_entries_min(b, p1, (n - 1) as nat);
        lemma_parse_entry_prefix(b, k, pos);
        if p1 > k {
        } else {
            lemma_parse_entries_prefix(b, k, p1, (n - 1) as nat);
        }
    }
}

/// Canonical rejection, truncation: a proper prefix of a canonical blob
/// never decodes.
pub proof fn lemma_truncation_rejected(es: Seq<EntryModel>, k: int)
    requires
        entries_encodable(es),
        entries_sorted(es),
        es.len() >= 1,
        0 <= k < blob_bytes(es).len(),
    ensures
        spec_decode(blob_bytes(es).subrange(0, k)) is None,
{
    let b = blob_bytes(es);
    let b2 = b.subrange(0, k);
    let lc = le_bytes(es.len(), 8);
    lemma_le_bytes_len(es.len(), 8);
    assert(b == lc + entries_bytes(es));
    assert(b.subrange(0, b.len() as int) =~= b);
    lemma_concat_extract(b, 0, lc, entries_bytes(es));
    lemma_parse_u64_at(b, 0, es.len());
    lemma_parse_entries_inverts(b, 8, es);
    if k < 8 {
    } else {
        assert(b2.subrange(0, 8) =~= b.subrange(0, 8));
        lemma_parse_u64_at(b2, 0, es.len());
        lemma_parse_entries_prefix(b, k, 8, es.len());
    }
}

/// What one finished stretch of entry parsing means for the whole list.
pub open spec fn entries_tail_ok(
    b: Seq<u8>,
    start: int,
    total: nat,
    done: Seq<EntryModel>,
    cur: int,
    remaining: nat,
) -> bool {
    match parse_entries(b, cur, remaining) {
        None => parse_entries(b, start, total) is None,
        Some((es, p)) => parse_entries(b, start, total) == Some((done + es, p)),
    }
}

/// Deserializes a blob, accepting only the canonical encoding of a
/// non-empty member map: anything truncated, with trailing bytes, or with
/// tags out of order or duplicated is rejected as corrupt.
#[verifier::loop_isolation(false)]
#[verifier::rlimit(100)]
pub fn decode(b: &Vec<u8>) -> (r: Result<MemberMap, CorruptBlob>)
    ensures
        match r {
            Ok(m) => {
                &&& m.wf()
                &&& m.model().len() >= 1
                &&& spec_decode(b@) == Some(m.model())
            },
            Err(_) => spec_decode(b@) is None,
        },
{
    proof {
        assert(vstd::std_specs::vec::spec_vec_len(b) == b@.len());
    }
    let (count64, p0) = match read_u64(b, 0) {
        None => {
            return Err(CorruptBlob);
        },
        Some(x) => x,
    };
    let ghost total = count64 as nat;
    let mut items: Vec<(StructTag, Vec<u8>)> = Vec::new();
    let mut cur = p0;
    let mut j: u64 = 0;
    proof {
        assert(entries_model(items@) =~= Seq::<EntryModel>::empty());
        if parse_entries(b@, p0 as int, total) is Some {
            let (ts, p) = parse_entries(b@, p0 as int, total)->Some_0;
            assert(Seq::<EntryModel>::empty() + ts =~= ts);
        }
    }
    while j < count64
        invariant
            j <= count64,
            p0 as int <= cur as int <= b@.len(),
            items@.len() == j,
            entries_sorted(entries_model(items@)),
            forall|k: int| 0 <= k < j ==>
                encodable_tag((#[trigger] entries_model(items@)[k]).0),
            entries_tail_ok(b@, p0 as int, total, entries_model(items@), cur as int,
                (count64 - j) as nat),
        decreases count64 - j,
    {
        let ghost done = entries_model(items@);
        let ghost rem = (count64 - j) as nat;
        let (t, p1) = match decode_tag(b, cur) {
            None => {
                proof {
                    assert(parse_entry(b@, cur as int) is None);
                    assert(parse_entries(b@, cur as int, rem) is None);
                }
                return Err(CorruptBlob);
            },
            Some(x) => x,
        };
        let (vlen64, p2) = match read_u64(b, p1) {
            None => {
                proof {
                    assert(parse_entry(b@, cur as int) is None);
                    assert(parse_entries(b@, cur as int, rem) is None);
                }
                return Err(CorruptBlob);
            },
            Some(x) => x,
        };
        if ((b.len() - p2) as u64) < vlen64 {
            proof {
                assert(parse_bytes(b@, p2 as int, vlen64 as nat) is None);
                assert(parse_entry(b@, cur as int) is None);
                assert(parse_entries(b@, cur as int, rem) is None);
            }
            return Err(CorruptBlob);
        }
        let vlen = vlen64 as usize;
        let p3 = p2 + vlen;
        let value = copy_range(b, p2, p3);
        let ghost em = (tag_model(t), value@);
        proof {
            assert(parse_bytes(b@, p2 as int, vlen64 as nat) == Some((value@, p3 as int)));
            assert(parse_entry(b@, cur as int) == Some((em, p3 as int)));
            assert(parse_entries(b@, cur as int, rem) == (
                match parse_entries(b@, p3 as int, (rem - 1) as nat) {
                    None => None::<(Seq<EntryModel>, int)>,
                    Some((ts, p)) => Some((seq![em] + ts, p)),
                }
            ));
        }
        if items.len() > 0 {
            let last = items.len() - 1;
            let c = tag_cmp(&items[last].0, &t);
            if c != TagOrder::Less {
                proof {
                    assert(done[last as int].0 == tag_model(items@[last as int].0));
                    assert(!tag_lt(done[last as int].0, em.0));
                    match parse_entries(b@, p3 as int, (rem - 1) as nat) {
                        None => {
                            assert(parse_entries(b@, p0 as int, total) is None);
                        },
                        Some((ts, p)) => {
                            let es = done + (seq![em] + ts);
                            assert(parse_entries(b@, p0 as int, total) == Some((es, p)));
                            assert(es[last as int] == done[last as int]);
                            assert(es[j as int] == em);
                            assert(!entries_sorted(es));
                        },
                    }
                }
                return Err(CorruptBlob);
            }
        }
        items.push((t, value));
        proof {
            assert forall|k: int| 0 <= k < items@.len() implies
                entries_model(items@)[k] == done.push(em)[k] by {
                if k < done.len() {
                }
            }
            assert(entries_model(items@) =~= done.push(em));
            assert(entries_sorted(done.push(em))) by {
                assert forall|k: int| 0 <= k < done.push(em).len() - 1 implies
                    tag_lt((#[trigger] done.push(em)[k]).0, done.push(em)[k + 1].0) by {
                    if k + 1 < done.len() {
                        assert(done.push(em)[k] == done[k] && done.push(em)[k + 1] == done[k + 1]);
                    } else {
                        assert(done.push(em)[k] == done[k] && done.push(em)[k + 1] == em);
                    }
                }
            }
            if parse_entries(b@, p3 as int, (rem - 1) as nat) is Some {
                let (ts, p) = parse_entries(b@, p3 as int, (rem - 1) as nat)->Some_0;
                assert(done + (seq![em] + ts) =~= done.push(em) + ts);
            }
        }
        cur = p3;
        j = j + 1;
    }
    proof {
        assert(parse_entries(b@, cur as int, 0) == Some((Seq::<EntryModel>::empty(), cur as int)));
        assert(entries_model(items@) + Seq::<EntryModel>::empty() =~= entries_model(items@));
        assert(parse_entries(b@, p0 as int, total) == Some((entries_model(items@), cur as int)));
    }
    if count64 == 0 {
        return Err(CorruptBlob);
    }
    if cur != b.len() {
        return Err(CorruptBlob);
    }
    let m = MemberMap { entries: items };
    Ok(m)
}

} // verus!

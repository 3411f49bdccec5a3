//! The byte encoding of the tag model, and the laws that tie it to the parse.

use vstd::prelude::*;
use vstd::utf8::{
    decode_utf8_encode_utf8, encode_utf8, encode_utf8_decode_utf8, encode_utf8_valid_utf8,
    };
use crate::cursor::{
    be_at, be_bytes, be_value, lemma_be_round_trip, lemma_be_value_bound, lemma_pow256_values, lemma_signed_round_trip, pow256,
    signed_of, unsigned_of, NbtError,
};
use crate::nbt::nbt_of;
use crate::tag::{
    id_of, ints_at, longs_at, p_compound, p_list, p_payload, p_tag, type_of, type_of_id, PayloadV,
    TagType, TagV,
};

verus! {

/// A tag that the encoding can carry: names and strings under 64 KiB of
/// UTF-8, arrays and lists under 2^31 elements, list elements of the
/// list's type, and compounds that end with their one End tag.
pub open spec fn wf_tag(t: TagV) -> bool
    decreases t,
{
    match t.payload {
        PayloadV::End => t.name.len() == 0,
        p => encode_utf8(t.name).len() < 0x1_0000 && wf_payload(p),
    }
}

pub open spec fn wf_payload(p: PayloadV) -> bool
    decreases p,
{
    match p {
        PayloadV::End => false,
        PayloadV::ByteArray(b) => b.len() < 0x8000_0000,
        PayloadV::String(c) => encode_utf8(c).len() < 0x1_0000,
        PayloadV::List(t, items) => items.len() < 0x8000_0000 && (t == TagType::End ==> items.len() == 0)
            && wf_items(items, t),
        PayloadV::Compound(c) => wf_children(c),
        PayloadV::IntArray(v) => v.len() < 0x8000_0000,
        PayloadV::LongArray(v) => v.len() < 0x8000_0000,
        _ => true,
    }
}

pub open spec fn wf_items(items: Seq<PayloadV>, t: TagType) -> bool
    decreases items,
{
    if items.len() == 0 {
        true
    } else {
        type_of(items[0]) == t && wf_payload(items[0]) && wf_items(items.subrange(1, items.len() as int), t)
    }
}

pub open spec fn wf_children(c: Seq<TagV>) -> bool
    decreases c,
{
    if c.len() == 0 {
        false
    } else if c.len() == 1 {
        c[0].payload is End && wf_tag(c[0])
    } else {
        !(c[0].payload is End) && wf_tag(c[0]) && wf_children(c.subrange(1, c.len() as int))
    }
}

pub open spec fn ser_tag(t: TagV) -> Seq<u8>
    decreases t,
{
    match t.payload {
        PayloadV::End => seq![0u8],
        p => seq![id_of(type_of(p))] + be_bytes(encode_utf8(t.name).len(), 2) + encode_utf8(t.name)
            + ser_payload(p),
    }
}

pub open spec fn ser_payload(p: PayloadV) -> Seq<u8>
    decreases p,
{
    match p {
        PayloadV::End => Seq::empty(),
        PayloadV::Byte(v) => be_bytes(unsigned_of(v as int, 1), 1),
        PayloadV::Short(v) => be_bytes(unsigned_of(v as int, 2), 2),
        PayloadV::Int(v) => be_bytes(unsigned_of(v as int, 4), 4),
        PayloadV::Long(v) => be_bytes(unsigned_of(v as int, 8), 8),
        PayloadV::Float(v) => be_bytes(v as nat, 4),
        PayloadV::Double(v) => be_bytes(v as nat, 8),
        PayloadV::ByteArray(b) => be_bytes(b.len(), 4) + b,
        PayloadV::String(c) => be_bytes(encode_utf8(c).len(), 2) + encode_utf8(c),
        PayloadV::List(t, items) => seq![id_of(t)] + be_bytes(items.len(), 4) + ser_items(items),
        PayloadV::Compound(c) => ser_tags(c),
        PayloadV::IntArray(v) => be_bytes(v.len(), 4) + ser_ints(v),
        PayloadV::LongArray(v) => be_bytes(v.len(), 4) + ser_longs(v),
    }
}

pub open spec fn ser_items(s: Seq<PayloadV>) -> Seq<u8>
    decreases s,
{
    if s.len() == 0 {
        Seq::empty()
    } else {
        ser_payload(s[0]) + ser_items(s.subrange(1, s.len() as int))
    }
}

pub open spec fn ser_tags(s: Seq<TagV>) -> Seq<u8>
    decreases s,
{
    if s.len() == 0 {
        Seq::empty()
    } else {
        ser_tag(s[0]) + ser_tags(s.subrange(1, s.len() as int))
    }
}

pub open spec fn ser_ints(v: Seq<i32>) -> Seq<u8>
    decreases v.len(),
{
    if v.len() == 0 {
        Seq::empty()
    } else {
        be_bytes(unsigned_of(v[0] as int, 4), 4) + ser_ints(v.subrange(1, v.len() as int))
    }
}

pub open spec fn ser_longs(v: Seq<i64>) -> Seq<u8>
    decreases v.len(),
{
    if v.len() == 0 {
        Seq::empty()
    } else {
        be_bytes(unsigned_of(v[0] as int, 8), 8) + ser_longs(v.subrange(1, v.len() as int))
    }
}

// ---------------------------------------------------------------------------
// Helpers

/// A window of a window is a window of the whole.
proof fn lemma_window(s: Seq<u8>, pos: int, w: Seq<u8>, off: int, len: int)
    requires
        0 <= pos,
        pos + w.len() <= s.len(),
        s.subrange(pos, pos + w.len()) == w,
        0 <= off,
        0 <= len,
        off + len <= w.len(),
    ensures
        s.subrange(pos + off, pos + off + len) == w.subrange(off, off + len),
{
    assert(s.subrange(pos + off, pos + off + len) =~= w.subrange(off, off + len)) by {
        assert forall|i: int| 0 <= i < len implies #[trigger] s.subrange(pos + off, pos + off + len)[i] == w.subrange(
            off,
            off + len,
        )[i] by {
            assert(s.subrange(pos, pos + w.len())[off + i] == s[pos + off + i]);
        }
    }
}

/// Reading back `n` big-endian bytes of an unsigned value.
proof fn lemma_read_back(s: Seq<u8>, pos: int, u: nat, n: nat)
    requires
        u < pow256(n),
        0 <= pos,
        pos + n <= s.len(),
        s.subrange(pos, pos + n) == be_bytes(u, n),
    ensures
        be_at(s, pos, n) == u,
{
    lemma_be_round_trip(u, n);
}

proof fn lemma_ids()
    ensures
        forall|t: TagType| #[trigger] id_of(t) < 13 && type_of_id(id_of(t)) == t && (id_of(t) == 0 <==> t
            == TagType::End),
{
}

proof fn lemma_ints_round_trip(v: Seq<i32>, s: Seq<u8>, q: int)
    requires
        0 <= q,
        q + ser_ints(v).len() <= s.len(),
        s.subrange(q, q + ser_ints(v).len()) == ser_ints(v),
    ensures
        ser_ints(v).len() == 4 * v.len(),
        ints_at(s, q, v.len()) == v,
    decreases v.len(),
{
    lemma_pow256_values();
    if v.len() > 0 {
        let rest = v.subrange(1, v.len() as int);
        let u = unsigned_of(v[0] as int, 4);
        lemma_signed_round_trip(v[0] as int, 4);
        lemma_be_round_trip(u, 4);
        let w = ser_ints(v);
        lemma_window(s, q, w, 0, 4);
        assert(w.subrange(0, 4) =~= be_bytes(u, 4));
        lemma_window(s, q, w, 4, ser_ints(rest).len() as int);
        assert(w.subrange(4, 4 + ser_ints(rest).len() as int) =~= ser_ints(rest));
        lemma_ints_round_trip(rest, s, q + 4);
        assert(ints_at(s, q, v.len()) =~= v) by {
            assert forall|i: int| 0 <= i < v.len() implies ints_at(s, q, v.len())[i] == v[i] by {
                if i > 0 {
                    assert(ints_at(s, q + 4, rest.len())[i - 1] == rest[i - 1]);
                }
            }
        }
    }
}

proof fn lemma_longs_round_trip(v: Seq<i64>, s: Seq<u8>, q: int)
    requires
        0 <= q,
        q + ser_longs(v).len() <= s.len(),
        s.subrange(q, q + ser_longs(v).len()) == ser_longs(v),
    ensures
        ser_longs(v).len() == 8 * v.len(),
        longs_at(s, q, v.len()) == v,
    decreases v.len(),
{
    lemma_pow256_values();
    if v.len() > 0 {
        let rest = v.subrange(1, v.len() as int);
        let u = unsigned_of(v[0] as int, 8);
        lemma_signed_round_trip(v[0] as int, 8);
        lemma_be_round_trip(u, 8);
        let w = ser_longs(v);
        lemma_window(s, q, w, 0, 8);
        assert(w.subrange(0, 8) =~= be_bytes(u, 8));
        lemma_window(s, q, w, 8, ser_longs(rest).len() as int);
        assert(w.subrange(8, 8 + ser_longs(rest).len() as int) =~= ser_longs(rest));
        lemma_longs_round_trip(rest, s, q + 8);
        assert(longs_at(s, q, v.len()) =~= v) by {
            assert forall|i: int| 0 <= i < v.len() implies longs_at(s, q, v.len())[i] == v[i] by {
                if i > 0 {
                    assert(longs_at(s, q + 8, rest.len())[i - 1] == rest[i - 1]);
                }
            }
        }
    }
}

proof fn lemma_payload_round_trip(p: PayloadV, s: Seq<u8>, pos: int)
    requires
        wf_payload(p),
        0 <= pos,
        pos + ser_payload(p).len() <= s.len(),
        s.subrange(pos, pos + ser_payload(p).len()) == ser_payload(p),
    ensures
        ser_payload(p).len() >= 1,
        p_payload(s, pos, id_of(type_of(p))) == Ok::<(PayloadV, int), NbtError>((p, pos + ser_payload(p).len())),
    decreases p,
{
    lemma_pow256_values();
    broadcast use encode_utf8_valid_utf8, encode_utf8_decode_utf8;

    let w = ser_payload(p);
    match p {
        PayloadV::End => {},
        PayloadV::Byte(v) => {
            lemma_signed_round_trip(v as int, 1);
            lemma_be_round_trip(unsigned_of(v as int, 1), 1);
        },
        PayloadV::Short(v) => {
            lemma_signed_round_trip(v as int, 2);
            lemma_be_round_trip(unsigned_of(v as int, 2), 2);
        },
        PayloadV::Int(v) => {
            lemma_signed_round_trip(v as int, 4);
            lemma_be_round_trip(unsigned_of(v as int, 4), 4);
        },
        PayloadV::Long(v) => {
            lemma_signed_round_trip(v as int, 8);
            lemma_be_round_trip(unsigned_of(v as int, 8), 8);
        },
        PayloadV::Float(v) => {
            lemma_be_round_trip(v as nat, 4);
        },
        PayloadV::Double(v) => {
            lemma_be_round_trip(v as nat, 8);
        },
        PayloadV::ByteArray(b) => {
            lemma_be_round_trip(b.len(), 4);
            lemma_window(s, pos, w, 0, 4);
            assert(w.subrange(0, 4) =~= be_bytes(b.len(), 4));
            lemma_window(s, pos, w, 4, b.len() as int);
            assert(w.subrange(4, (4 + b.len()) as int) =~= b);
        },
        PayloadV::String(c) => {
            let e = encode_utf8(c);
            lemma_be_round_trip(e.len(), 2);
            lemma_window(s, pos, w, 0, 2);
            assert(w.subrange(0, 2) =~= be_bytes(e.len(), 2));
            lemma_window(s, pos, w, 2, e.len() as int);
            assert(w.subrange(2, (2 + e.len()) as int) =~= e);
        },
        PayloadV::List(t, items) => {
            let body = ser_items(items);
            lemma_be_round_trip(items.len(), 4);
            lemma_window(s, pos, w, 0, 1);
            assert(w.subrange(0, 1) =~= seq![id_of(t)]);
            assert(s[pos] == s.subrange(pos, pos + 1)[0]);
            lemma_window(s, pos, w, 1, 4);
            assert(w.subrange(1, 5) =~= be_bytes(items.len(), 4));
            lemma_window(s, pos, w, 5, body.len() as int);
            assert(w.subrange(5, (5 + body.len()) as int) =~= body);
            lemma_ids();
            lemma_items_round_trip(items, t, s, pos + 5);
        },
        PayloadV::Compound(c) => {
            lemma_children_round_trip(c, s, pos);
        },
        PayloadV::IntArray(v) => {
            let body = ser_ints(v);
            lemma_be_round_trip(v.len(), 4);
            lemma_window(s, pos, w, 0, 4);
            assert(w.subrange(0, 4) =~= be_bytes(v.len(), 4));
            lemma_window(s, pos, w, 4, body.len() as int);
            assert(w.subrange(4, (4 + body.len()) as int) =~= body);
            lemma_ints_round_trip(v, s, pos + 4);
        },
        PayloadV::LongArray(v) => {
            let body = ser_longs(v);
            lemma_be_round_trip(v.len(), 4);
            lemma_window(s, pos, w, 0, 4);
            assert(w.subrange(0, 4) =~= be_bytes(v.len(), 4));
            lemma_window(s, pos, w, 4, body.len() as int);
            assert(w.subrange(4, (4 + body.len()) as int) =~= body);
            lemma_longs_round_trip(v, s, pos + 4);
        },
    }
}

proof fn lemma_items_round_trip(items: Seq<PayloadV>, t: TagType, s: Seq<u8>, pos: int)
    requires
        wf_items(items, t),
        t == TagType::End ==> items.len() == 0,
        0 <= pos,
        pos + ser_items(items).len() <= s.len(),
        s.subrange(pos, pos + ser_items(items).len()) == ser_items(items),
    ensures
        p_list(s, pos, id_of(t), items.len()) == Ok::<(Seq<PayloadV>, int), NbtError>(
            (items, pos + ser_items(items).len()),
        ),
    decreases items,
{
    if items.len() > 0 {
        let rest = items.subrange(1, items.len() as int);
        let w = ser_items(items);
        let a = ser_payload(items[0]);
        let b = ser_items(rest);
        lemma_window(s, pos, w, 0, a.len() as int);
        assert(w.subrange(0, a.len() as int) =~= a);
        lemma_window(s, pos, w, a.len() as int, b.len() as int);
        assert(w.subrange(a.len() as int, (a.len() + b.len()) as int) =~= b);
        lemma_payload_round_trip(items[0], s, pos);
        lemma_items_round_trip(rest, t, s, pos + a.len());
        assert(seq![items[0]] + rest =~= items);
        assert(type_of(items[0]) == t);
        assert(rest.len() == (items.len() - 1) as nat);
        assert(w.len() == a.len() + b.len());
    } else {
        assert(items =~= Seq::<PayloadV>::empty());
    }
}

proof fn lemma_children_round_trip(c: Seq<TagV>, s: Seq<u8>, pos: int)
    requires
        wf_children(c),
        0 <= pos,
        pos + ser_tags(c).len() <= s.len(),
        s.subrange(pos, pos + ser_tags(c).len()) == ser_tags(c),
    ensures
        ser_tags(c).len() >= 1,
        p_compound(s, pos) == Ok::<(Seq<TagV>, int), NbtError>((c, pos + ser_tags(c).len())),
    decreases c,
{
    let rest = c.subrange(1, c.len() as int);
    let w = ser_tags(c);
    let a = ser_tag(c[0]);
    let b = ser_tags(rest);
    lemma_window(s, pos, w, 0, a.len() as int);
    assert(w.subrange(0, a.len() as int) =~= a);
    lemma_tag_round_trip(c[0], s, pos);
    if c.len() == 1 {
        assert(rest.len() == 0);
        assert(seq![c[0]] =~= c);
    } else {
        lemma_window(s, pos, w, a.len() as int, b.len() as int);
        assert(w.subrange(a.len() as int, (a.len() + b.len()) as int) =~= b);
        lemma_children_round_trip(rest, s, pos + a.len());
        assert(seq![c[0]] + rest =~= c);
    }
}

proof fn lemma_tag_round_trip(t: TagV, s: Seq<u8>, pos: int)
    requires
        wf_tag(t),
        0 <= pos,
        pos + ser_tag(t).len() <= s.len(),
        s.subrange(pos, pos + ser_tag(t).len()) == ser_tag(t),
    ensures
        ser_tag(t).len() >= 1,
        p_tag(s, pos) == Ok::<(TagV, int), NbtError>((t, pos + ser_tag(t).len())),
    decreases t,
{
    lemma_pow256_values();
    broadcast use encode_utf8_valid_utf8, encode_utf8_decode_utf8;

    let w = ser_tag(t);
    assert(s[pos] == s.subrange(pos, pos + w.len())[0]);
    match t.payload {
        PayloadV::End => {
            assert(t.name =~= Seq::<char>::empty());
        },
        p => {
            let e = encode_utf8(t.name);
            let body = ser_payload(p);
            lemma_ids();
            lemma_be_round_trip(e.len(), 2);
            lemma_window(s, pos, w, 1, 2);
            assert(w.subrange(1, 3) =~= be_bytes(e.len(), 2));
            lemma_window(s, pos, w, 3, e.len() as int);
            assert(w.subrange(3, (3 + e.len()) as int) =~= e);
            lemma_window(s, pos, w, (3 + e.len()) as int, body.len() as int);
            assert(w.subrange((3 + e.len()) as int, (3 + e.len() + body.len()) as int) =~= body);
            lemma_payload_round_trip(p, s, pos + 3 + e.len());
        },
    }
}

/// Re-parsing the encoding of a well-formed tag gives the same tag back.
pub proof fn law_round_trip(t: TagV)
    requires
        wf_tag(t),
    ensures
        nbt_of(ser_tag(t)) == Ok::<TagV, NbtError>(t),
{
    let b = ser_tag(t);
    assert(b.subrange(0, b.len() as int) =~= b);
    lemma_tag_round_trip(t, b, 0);
}

/// A buffer that holds exactly one well-formed tag parses, and the tag
/// that comes out encodes to as many bytes as the buffer holds.
pub proof fn law_parse_length(b: Seq<u8>, t: TagV)
    requires
        wf_tag(t),
        b == ser_tag(t),
    ensures
        nbt_of(b) is Ok,
        ser_tag(nbt_of(b)->Ok_0).len() == b.len(),
{
    law_round_trip(t);
}

/// A tag followed by other bytes still parses to that tag, ending where its
/// encoding ends.
pub proof fn law_parse_prefix(t: TagV, rest: Seq<u8>)
    requires
        wf_tag(t),
    ensures
        p_tag(ser_tag(t) + rest, 0) == Ok::<(TagV, int), NbtError>((t, ser_tag(t).len() as int)),
{
    let b = ser_tag(t) + rest;
    assert(b.subrange(0, ser_tag(t).len() as int) =~= ser_tag(t));
    lemma_tag_round_trip(t, b, 0);
}

// ---------------------------------------------------------------------------
// What the parse returns encodes to exactly the bytes it read

proof fn lemma_be_inverse(x: Seq<u8>)
    ensures
        be_bytes(be_value(x), x.len()) == x,
    decreases x.len(),
{
    if x.len() > 0 {
        let d = x.drop_last();
        lemma_be_inverse(d);
        let v = be_value(x);
        assert(v / 256 == be_value(d));
        assert(v % 256 == x.last());
        assert(be_bytes(v, x.len()) =~= x);
    }
}

proof fn lemma_read_bytes_back(s: Seq<u8>, pos: int, n: nat)
    requires
        0 <= pos,
        pos + n <= s.len(),
    ensures
        be_bytes(be_at(s, pos, n), n) == s.subrange(pos, pos + n),
        be_at(s, pos, n) < pow256(n),
{
    lemma_be_inverse(s.subrange(pos, pos + n));
    lemma_be_value_bound(s.subrange(pos, pos + n));
}

proof fn lemma_unsigned_of_signed(u: nat, n: nat)
    requires
        n > 0,
        u < pow256(n),
    ensures
        unsigned_of(signed_of(u, n), n) == u,
        -pow256(n) <= 2 * signed_of(u, n) < pow256(n),
{
}

proof fn lemma_ints_sound(s: Seq<u8>, q: int, n: nat)
    requires
        0 <= q,
        q + 4 * n <= s.len(),
    ensures
        ser_ints(ints_at(s, q, n)) == s.subrange(q, q + 4 * n),
    decreases n,
{
    lemma_pow256_values();
    let v = ints_at(s, q, n);
    if n > 0 {
        lemma_ints_sound(s, q + 4, (n - 1) as nat);
        assert(v.subrange(1, v.len() as int) =~= ints_at(s, q + 4, (n - 1) as nat));
        lemma_read_bytes_back(s, q, 4);
        lemma_unsigned_of_signed(be_at(s, q, 4), 4);
        assert(s.subrange(q, q + 4) + s.subrange(q + 4, q + 4 * n) =~= s.subrange(q, q + 4 * n));
    } else {
        assert(s.subrange(q, q) =~= Seq::<u8>::empty());
    }
}

proof fn lemma_longs_sound(s: Seq<u8>, q: int, n: nat)
    requires
        0 <= q,
        q + 8 * n <= s.len(),
    ensures
        ser_longs(longs_at(s, q, n)) == s.subrange(q, q + 8 * n),
    decreases n,
{
    lemma_pow256_values();
    let v = longs_at(s, q, n);
    if n > 0 {
        lemma_longs_sound(s, q + 8, (n - 1) as nat);
        assert(v.subrange(1, v.len() as int) =~= longs_at(s, q + 8, (n - 1) as nat));
        lemma_read_bytes_back(s, q, 8);
        lemma_unsigned_of_signed(be_at(s, q, 8), 8);
        assert(s.subrange(q, q + 8) + s.subrange(q + 8, q + 8 * n) =~= s.subrange(q, q + 8 * n));
    } else {
        assert(s.subrange(q, q) =~= Seq::<u8>::empty());
    }
}

proof fn lemma_tag_sound(s: Seq<u8>, pos: int)
    requires
        p_tag(s, pos) is Ok,
    ensures
        ({
            let (t, e) = p_tag(s, pos)->Ok_0;
            &&& wf_tag(t)
            &&& 0 <= pos < e <= s.len()
            &&& s.subrange(pos, e) == ser_tag(t)
        }),
    decreases s.len() - pos, 1int,
{
    lemma_pow256_values();
    lemma_ids();
    if s[pos] == 0 {
        assert(s.subrange(pos, pos + 1) =~= seq![0u8]);
    } else {
        let n = be_at(s, pos + 1, 2);
        let start = pos + 3;
        let end = start + n;
        let nb = s.subrange(start, end);
        lemma_read_bytes_back(s, pos + 1, 2);
        decode_utf8_encode_utf8(nb);
        lemma_payload_sound(s, end, s[pos]);
        let (p, e) = p_payload(s, end, s[pos])->Ok_0;
        assert(s.subrange(pos, e) =~= seq![s[pos]] + s.subrange(pos + 1, pos + 3) + nb + s.subrange(end, e));
    }
}

proof fn lemma_payload_sound(s: Seq<u8>, pos: int, id: u8)
    requires
        p_payload(s, pos, id) is Ok,
    ensures
        ({
            let (p, e) = p_payload(s, pos, id)->Ok_0;
            &&& wf_payload(p)
            &&& id == id_of(type_of(p))
            &&& 0 <= pos < e <= s.len()
            &&& s.subrange(pos, e) == ser_payload(p)
        }),
    decreases s.len() - pos, 3int,
{
    lemma_pow256_values();
    lemma_ids();
    if 1 <= id <= 4 {
        let w: nat = if id == 1 { 1 } else if id == 2 { 2 } else if id == 3 { 4 } else { 8 };
        lemma_read_bytes_back(s, pos, w);
        lemma_unsigned_of_signed(be_at(s, pos, w), w);
    } else if id == 5 {
        lemma_read_bytes_back(s, pos, 4);
    } else if id == 6 {
        lemma_read_bytes_back(s, pos, 8);
    } else if id == 7 || id == 11 || id == 12 {
        let n = len_at_sound(s, pos);
        let e = p_payload(s, pos, id)->Ok_0.1;
        if id == 7 {
            assert(s.subrange(pos, e) =~= s.subrange(pos, pos + 4) + s.subrange(pos + 4, e));
        } else if id == 11 {
            lemma_ints_sound(s, pos + 4, n);
            assert(s.subrange(pos, e) =~= s.subrange(pos, pos + 4) + s.subrange(pos + 4, e));
        } else {
            lemma_longs_sound(s, pos + 4, n);
            assert(s.subrange(pos, e) =~= s.subrange(pos, pos + 4) + s.subrange(pos + 4, e));
        }
    } else if id == 8 {
        let n = be_at(s, pos, 2);
        let end = pos + 2 + n;
        lemma_read_bytes_back(s, pos, 2);
        decode_utf8_encode_utf8(s.subrange(pos + 2, end));
        assert(s.subrange(pos, end) =~= s.subrange(pos, pos + 2) + s.subrange(pos + 2, end));
    } else if id == 9 {
        let elem = s[pos];
        let n = len_at_sound(s, pos + 1);
        lemma_list_sound(s, pos + 5, elem, n);
        let (items, e) = p_list(s, pos + 5, elem, n)->Ok_0;
        assert(s.subrange(pos, pos + 1) =~= seq![elem]);
        assert(s.subrange(pos, e) =~= s.subrange(pos, pos + 1) + s.subrange(pos + 1, pos + 5) + s.subrange(
            pos + 5,
            e,
        ));
    } else if id == 10 {
        lemma_compound_sound(s, pos);
    }
}

/// A non-negative length field read back as its four bytes.
proof fn len_at_sound(s: Seq<u8>, pos: int) -> (n: nat)
    requires
        0 <= pos,
        pos + 4 <= s.len(),
        crate::tag::len_at(s, pos) >= 0,
    ensures
        n == crate::tag::len_at(s, pos),
        n < 0x8000_0000,
        be_bytes(n, 4) == s.subrange(pos, pos + 4),
{
    lemma_pow256_values();
    lemma_read_bytes_back(s, pos, 4);
    crate::tag::len_at(s, pos) as nat
}

proof fn lemma_list_sound(s: Seq<u8>, pos: int, elem: u8, n: nat)
    requires
        p_list(s, pos, elem, n) is Ok,
        elem < 13,
        elem == 0 ==> n == 0,
    ensures
        ({
            let (items, f) = p_list(s, pos, elem, n)->Ok_0;
            &&& items.len() == n
            &&& wf_items(items, type_of_id(elem))
            &&& 0 <= pos <= f <= s.len()
            &&& s.subrange(pos, f) == ser_items(items)
        }),
    decreases s.len() - pos, 4int,
{
    lemma_ids();
    if n == 0 {
        assert(s.subrange(pos, pos) =~= Seq::<u8>::empty());
    } else {
        lemma_payload_sound(s, pos, elem);
        let (p, e) = p_payload(s, pos, elem)->Ok_0;
        lemma_list_sound(s, e, elem, (n - 1) as nat);
        let (rest, f) = p_list(s, e, elem, (n - 1) as nat)->Ok_0;
        let items = seq![p] + rest;
        assert(items.subrange(1, items.len() as int) =~= rest);
        assert(s.subrange(pos, f) =~= s.subrange(pos, e) + s.subrange(e, f));
    }
}

proof fn lemma_compound_sound(s: Seq<u8>, pos: int)
    requires
        p_compound(s, pos) is Ok,
    ensures
        ({
            let (c, f) = p_compound(s, pos)->Ok_0;
            &&& wf_children(c)
            &&& 0 <= pos < f <= s.len()
            &&& s.subrange(pos, f) == ser_tags(c)
        }),
    decreases s.len() - pos, 2int,
{
    lemma_tag_sound(s, pos);
    let (t, e) = p_tag(s, pos)->Ok_0;
    if t.payload is End {
        let c = seq![t];
        assert(c.subrange(1, c.len() as int) =~= Seq::<TagV>::empty());
        assert(c[0] == t);
        assert(ser_tags(Seq::<TagV>::empty()) == Seq::<u8>::empty());
        assert(ser_tags(c) == ser_tag(t) + ser_tags(c.subrange(1, c.len() as int)));
        assert(ser_tags(c) =~= ser_tag(t));
    } else {
        lemma_compound_sound(s, e);
        let (rest, f) = p_compound(s, e)->Ok_0;
        let c = seq![t] + rest;
        assert(c.subrange(1, c.len() as int) =~= rest);
        assert(s.subrange(pos, f) =~= s.subrange(pos, e) + s.subrange(e, f));
    }
}

/// Whatever a parse returns is well formed, and its encoding is exactly the
/// bytes the parse consumed from the start of the buffer.
pub proof fn law_parse_encodes_input(b: Seq<u8>)
    requires
        nbt_of(b) is Ok,
    ensures
        wf_tag(nbt_of(b)->Ok_0),
        ser_tag(nbt_of(b)->Ok_0) == b.subrange(0, ser_tag(nbt_of(b)->Ok_0).len() as int),
{
    lemma_tag_sound(b, 0);
}

// ---------------------------------------------------------------------------
// Cutting an encoding short

/// The bytes from `pos` to the end of `s` start the encoding `w`, which
/// does not fit.
pub open spec fn cut_short(s: Seq<u8>, pos: int, w: Seq<u8>) -> bool {
    &&& 0 <= pos <= s.len() < pos + w.len()
    &&& s.subrange(pos, s.len() as int) == w.subrange(0, s.len() - pos)
}

/// A piece of `w` that lies wholly in the available bytes can be read in place.
proof fn lemma_piece(s: Seq<u8>, pos: int, w: Seq<u8>, off: int, len: int)
    requires
        cut_short(s, pos, w),
        0 <= off,
        0 <= len,
        pos + off + len <= s.len(),
    ensures
        s.subrange(pos + off, pos + off + len) == w.subrange(off, off + len),
{
    let avail = w.subrange(0, s.len() - pos);
    lemma_window(s, pos, avail, off, len);
    assert(avail.subrange(off, off + len) =~= w.subrange(off, off + len));
}

/// The rest of a cut-short encoding, from a piece boundary on.
proof fn lemma_cut_rest(s: Seq<u8>, pos: int, w: Seq<u8>, off: int, rest: Seq<u8>)
    requires
        cut_short(s, pos, w),
        0 <= off,
        pos + off <= s.len(),
        off + rest.len() == w.len(),
        w.subrange(off, w.len() as int) == rest,
    ensures
        cut_short(s, pos + off, rest),
{
    let n = s.len() - pos - off;
    let avail = w.subrange(0, s.len() - pos);
    assert(s.subrange(pos + off, s.len() as int) =~= s.subrange(pos, s.len() as int).subrange(off, s.len() - pos));
    assert(avail.subrange(off, s.len() - pos) =~= w.subrange(off, off + n));
    assert(rest.subrange(0, n) =~= w.subrange(off, off + n));
}

proof fn lemma_tag_cut(t: TagV, s: Seq<u8>, pos: int)
    requires
        wf_tag(t),
        cut_short(s, pos, ser_tag(t)),
    ensures
        p_tag(s, pos) == Err::<(TagV, int), NbtError>(NbtError::UnexpectedEof),
    decreases t,
{
    lemma_pow256_values();
    lemma_ids();
    broadcast use encode_utf8_valid_utf8, encode_utf8_decode_utf8;

    let w = ser_tag(t);
    if pos < s.len() {
        lemma_piece(s, pos, w, 0, 1);
        assert(s[pos] == s.subrange(pos, pos + 1)[0]);
        match t.payload {
            PayloadV::End => {},
            p => {
                let e = encode_utf8(t.name);
                let body = ser_payload(p);
                if pos + 3 <= s.len() {
                    lemma_piece(s, pos, w, 1, 2);
                    lemma_be_round_trip(e.len(), 2);
                    assert(w.subrange(1, 3) =~= be_bytes(e.len(), 2));
                    let end = pos + 3 + e.len();
                    if end <= s.len() {
                        lemma_piece(s, pos, w, 3, e.len() as int);
                        assert(w.subrange(3, (3 + e.len()) as int) =~= e);
                        assert(w.subrange((3 + e.len()) as int, w.len() as int) =~= body);
                        lemma_cut_rest(s, pos, w, (3 + e.len()) as int, body);
                        lemma_payload_cut(p, s, end);
                    }
                }
            },
        }
    }
}

proof fn lemma_payload_cut(p: PayloadV, s: Seq<u8>, pos: int)
    requires
        wf_payload(p),
        cut_short(s, pos, ser_payload(p)),
    ensures
        p_payload(s, pos, id_of(type_of(p))) == Err::<(PayloadV, int), NbtError>(NbtError::UnexpectedEof),
    decreases p,
{
    lemma_pow256_values();
    lemma_ids();
    broadcast use encode_utf8_valid_utf8, encode_utf8_decode_utf8;

    let w = ser_payload(p);
    match p {
        PayloadV::ByteArray(b) => {
            lemma_be_round_trip(b.len(), 4);
            if pos + 4 <= s.len() {
                lemma_piece(s, pos, w, 0, 4);
                assert(w.subrange(0, 4) =~= be_bytes(b.len(), 4));
            }
        },
        PayloadV::String(c) => {
            let e = encode_utf8(c);
            if pos + 2 <= s.len() {
                lemma_piece(s, pos, w, 0, 2);
                lemma_be_round_trip(e.len(), 2);
                assert(w.subrange(0, 2) =~= be_bytes(e.len(), 2));
            }
        },
        PayloadV::List(t, items) => {
            let body = ser_items(items);
            if pos + 5 <= s.len() {
                lemma_piece(s, pos, w, 0, 1);
                assert(w.subrange(0, 1) =~= seq![id_of(t)]);
                assert(s[pos] == s.subrange(pos, pos + 1)[0]);
                lemma_piece(s, pos, w, 1, 4);
                lemma_be_round_trip(items.len(), 4);
                assert(w.subrange(1, 5) =~= be_bytes(items.len(), 4));
                assert(w.subrange(5, w.len() as int) =~= body);
                lemma_cut_rest(s, pos, w, 5, body);
                lemma_items_cut(items, t, s, pos + 5);
            }
        },
        PayloadV::Compound(c) => {
            lemma_children_cut(c, s, pos);
        },
        PayloadV::IntArray(v) => {
            lemma_ints_round_trip_len(v);
            if pos + 4 <= s.len() {
                lemma_piece(s, pos, w, 0, 4);
                lemma_be_round_trip(v.len(), 4);
                assert(w.subrange(0, 4) =~= be_bytes(v.len(), 4));
            }
        },
        PayloadV::LongArray(v) => {
            lemma_longs_round_trip_len(v);
            if pos + 4 <= s.len() {
                lemma_piece(s, pos, w, 0, 4);
                lemma_be_round_trip(v.len(), 4);
                assert(w.subrange(0, 4) =~= be_bytes(v.len(), 4));
            }
        },
        PayloadV::Byte(v) => {
            lemma_signed_round_trip(v as int, 1);
            lemma_be_round_trip(unsigned_of(v as int, 1), 1);
        },
        PayloadV::Short(v) => {
            lemma_signed_round_trip(v as int, 2);
            lemma_be_round_trip(unsigned_of(v as int, 2), 2);
        },
        PayloadV::Int(v) => {
            lemma_signed_round_trip(v as int, 4);
            lemma_be_round_trip(unsigned_of(v as int, 4), 4);
        },
        PayloadV::Long(v) => {
            lemma_signed_round_trip(v as int, 8);
            lemma_be_round_trip(unsigned_of(v as int, 8), 8);
        },
        PayloadV::Float(v) => {
            lemma_be_round_trip(v as nat, 4);
        },
        PayloadV::Double(v) => {
            lemma_be_round_trip(v as nat, 8);
        },
        PayloadV::End => {},
    }
}

proof fn lemma_ints_round_trip_len(v: Seq<i32>)
    ensures
        ser_ints(v).len() == 4 * v.len(),
    decreases v.len(),
{
    lemma_pow256_values();
    if v.len() > 0 {
        lemma_ints_round_trip_len(v.subrange(1, v.len() as int));
        lemma_be_round_trip(unsigned_of(v[0] as int, 4), 4);
        lemma_signed_round_trip(v[0] as int, 4);
    }
}

proof fn lemma_longs_round_trip_len(v: Seq<i64>)
    ensures
        ser_longs(v).len() == 8 * v.len(),
    decreases v.len(),
{
    lemma_pow256_values();
    if v.len() > 0 {
        lemma_longs_round_trip_len(v.subrange(1, v.len() as int));
        lemma_be_round_trip(unsigned_of(v[0] as int, 8), 8);
        lemma_signed_round_trip(v[0] as int, 8);
    }
}

proof fn lemma_items_cut(items: Seq<PayloadV>, t: TagType, s: Seq<u8>, pos: int)
    requires
        wf_items(items, t),
        t == TagType::End ==> items.len() == 0,
        cut_short(s, pos, ser_items(items)),
    ensures
        p_list(s, pos, id_of(t), items.len()) == Err::<(Seq<PayloadV>, int), NbtError>(NbtError::UnexpectedEof),
    decreases items,
{
    let rest = items.subrange(1, items.len() as int);
    let w = ser_items(items);
    let a = ser_payload(items[0]);
    let b = ser_items(rest);
    if s.len() < pos + a.len() {
        assert(s.subrange(pos, s.len() as int) =~= w.subrange(0, s.len() - pos));
        assert(a.subrange(0, s.len() - pos) =~= w.subrange(0, s.len() - pos));
        lemma_payload_cut(items[0], s, pos);
    } else {
        lemma_piece(s, pos, w, 0, a.len() as int);
        assert(w.subrange(0, a.len() as int) =~= a);
        lemma_payload_round_trip(items[0], s, pos);
        assert(w.subrange(a.len() as int, w.len() as int) =~= b);
        lemma_cut_rest(s, pos, w, a.len() as int, b);
        lemma_items_cut(rest, t, s, pos + a.len());
        assert(rest.len() == (items.len() - 1) as nat);
    }
}

proof fn lemma_children_cut(c: Seq<TagV>, s: Seq<u8>, pos: int)
    requires
        wf_children(c),
        cut_short(s, pos, ser_tags(c)),
    ensures
        p_compound(s, pos) == Err::<(Seq<TagV>, int), NbtError>(NbtError::UnexpectedEof),
    decreases c,
{
    let rest = c.subrange(1, c.len() as int);
    let w = ser_tags(c);
    let a = ser_tag(c[0]);
    let b = ser_tags(rest);
    if s.len() < pos + a.len() {
        assert(a.subrange(0, s.len() - pos) =~= w.subrange(0, s.len() - pos));
        lemma_tag_cut(c[0], s, pos);
    } else {
        lemma_piece(s, pos, w, 0, a.len() as int);
        assert(w.subrange(0, a.len() as int) =~= a);
        lemma_tag_round_trip(c[0], s, pos);
        if c.len() == 1 {
            assert(rest.len() == 0);
            assert(b.len() == 0);
        } else {
            assert(w.subrange(a.len() as int, w.len() as int) =~= b);
            lemma_cut_rest(s, pos, w, a.len() as int, b);
            lemma_children_cut(rest, s, pos + a.len());
        }
    }
}

/// Cutting the encoding of a well-formed tag short, by any number of bytes,
/// makes the parse fail with `UnexpectedEof`.
pub proof fn law_truncation_is_eof(t: TagV, k: int)
    requires
        wf_tag(t),
        0 <= k < ser_tag(t).len(),
    ensures
        nbt_of(ser_tag(t).subrange(0, k)) == Err::<TagV, NbtError>(NbtError::UnexpectedEof),
{
    let b = ser_tag(t).subrange(0, k);
    assert(b.subrange(0, b.len() as int) =~= ser_tag(t).subrange(0, b.len() as int));
    lemma_tag_cut(t, b, 0);
}

} // verus!

//! Recursive parse of an NBT tag tree out of a byte buffer.

use vstd::prelude::*;
use vstd::slice::slice_to_vec;
use crate::cursor::{Cursor, NbtError};
use crate::tag::{
    ints_at, lemma_payloads_view_push, lemma_tags_view_push, longs_at, p_compound, p_list, p_payload,
    p_tag, payloads_view, tags_view, type_of_id, Payload, PayloadV, Tag, TagType, TagV,
};

verus! {

pub open spec fn tag_matches(r: Result<(Tag, usize), NbtError>, sp: Result<(TagV, int), NbtError>) -> bool {
    match r {
        Ok((t, e)) => sp == Ok::<(TagV, int), NbtError>((t@, e as int)),
        Err(x) => sp == Err::<(TagV, int), NbtError>(x),
    }
}

pub open spec fn payload_matches(
    r: Result<(Payload, usize), NbtError>,
    sp: Result<(PayloadV, int), NbtError>,
) -> bool {
    match r {
        Ok((p, e)) => sp == Ok::<(PayloadV, int), NbtError>((p@, e as int)),
        Err(x) => sp == Err::<(PayloadV, int), NbtError>(x),
    }
}

pub open spec fn prepend_payloads(
    acc: Seq<PayloadV>,
    r: Result<(Seq<PayloadV>, int), NbtError>,
) -> Result<(Seq<PayloadV>, int), NbtError> {
    match r {
        Ok((rest, f)) => Ok((acc + rest, f)),
        Err(x) => Err(x),
    }
}

pub open spec fn prepend_tags(
    acc: Seq<TagV>,
    r: Result<(Seq<TagV>, int), NbtError>,
) -> Result<(Seq<TagV>, int), NbtError> {
    match r {
        Ok((rest, f)) => Ok((acc + rest, f)),
        Err(x) => Err(x),
    }
}

/// The tag that a whole buffer starts with.
pub open spec fn nbt_of(s: Seq<u8>) -> Result<TagV, NbtError> {
    match p_tag(s, 0) {
        Ok((t, _)) => Ok(t),
        Err(x) => Err(x),
    }
}

/// Parses one tag at `pos`, returning it and the position after it.
pub fn parse_tag(bytes: &[u8], pos: usize) -> (r: Result<(Tag, usize), NbtError>)
    requires
        pos <= bytes@.len(),
    ensures
        tag_matches(r, p_tag(bytes@, pos as int)),
        r is Ok ==> pos < r->Ok_0.1 <= bytes@.len(),
    decreases bytes@.len() - pos, 1int,
{
    let mut c = Cursor { bytes, pos };
    let id = c.read_u8()?;
    if id == 0 {
        return Ok((Tag { name: String::new(), payload: Payload::End }, c.pos));
    }
    let n = c.read_u16()?;
    let name = c.read_utf8(n as usize)?;
    let (payload, e) = parse_payload(bytes, c.pos, id)?;
    Ok((Tag { name, payload }, e))
}

/// Parses the payload of type `id` at `pos`.
#[verifier::rlimit(80)]
pub fn parse_payload(bytes: &[u8], pos: usize, id: u8) -> (r: Result<(Payload, usize), NbtError>)
    requires
        pos <= bytes@.len(),
    ensures
        payload_matches(r, p_payload(bytes@, pos as int, id)),
        r is Ok ==> pos < r->Ok_0.1 <= bytes@.len(),
    decreases bytes@.len() - pos, 3int,
{
    let mut c = Cursor { bytes, pos };
    if id == 1 {
        let v = c.read_i8()?;
        Ok((Payload::Byte(v), c.pos))
    } else if id == 2 {
        let v = c.read_i16()?;
        Ok((Payload::Short(v), c.pos))
    } else if id == 3 {
        let v = c.read_i32()?;
        Ok((Payload::Int(v), c.pos))
    } else if id == 4 {
        let v = c.read_i64()?;
        Ok((Payload::Long(v), c.pos))
    } else if id == 5 {
        let v = c.read_u32()?;
        Ok((Payload::Float(v), c.pos))
    } else if id == 6 {
        let v = c.read_u64()?;
        Ok((Payload::Double(v), c.pos))
    } else if id == 7 {
        let n = c.read_i32()?;
        if n < 0 {
            return Err(NbtError::NegativeLength(n));
        }
        let b = c.read_bytes(n as usize)?;
        Ok((Payload::ByteArray(slice_to_vec(b)), c.pos))
    } else if id == 11 || id == 12 {
        let n = c.read_i32()?;
        if n < 0 {
            return Err(NbtError::NegativeLength(n));
        }
        let w: usize = if id == 11 { 4 } else { 8 };
        if (bytes.len() - c.pos) / w < n as usize {
            return Err(NbtError::UnexpectedEof);
        }
        if id == 11 {
            let v = read_ints(&mut c, n as usize);
            Ok((Payload::IntArray(v), c.pos))
        } else {
            let v = read_longs(&mut c, n as usize);
            Ok((Payload::LongArray(v), c.pos))
        }
    } else if id == 8 {
        let n = c.read_u16()?;
        let s = c.read_utf8(n as usize)?;
        Ok((Payload::String(s), c.pos))
    } else if id == 9 {
        let elem = c.read_u8()?;
        let n = c.read_i32()?;
        if n < 0 {
            return Err(NbtError::NegativeLength(n));
        }
        if elem >= 13 || (elem == 0 && n > 0) {
            return Err(NbtError::InvalidTagType(elem));
        }
        let (items, e) = parse_list(bytes, c.pos, elem, n as usize)?;
        Ok((Payload::List(Tag::id_type(elem), items), e))
    } else if id == 10 {
        let (children, e) = parse_compound(bytes, pos)?;
        Ok((Payload::Compound(children), e))
    } else {
        Err(NbtError::InvalidTagType(id))
    }
}

fn read_ints(c: &mut Cursor, n: usize) -> (v: Vec<i32>)
    requires
        old(c).wf(),
        old(c).pos + 4 * n <= old(c).bytes@.len(),
    ensures
        final(c).bytes@ == old(c).bytes@,
        final(c).wf(),
        final(c).pos == old(c).pos + 4 * n,
        v@ == ints_at(old(c).bytes@, old(c).pos as int, n as nat),
{
    let ghost start = c.pos as int;
    let mut v: Vec<i32> = Vec::new();
    let mut i: usize = 0;
    while i < n
        invariant
            c.wf(),
            c.bytes@ == old(c).bytes@,
            start == old(c).pos,
            start + 4 * n <= c.bytes@.len(),
            i <= n,
            c.pos == start + 4 * i,
            v@ == ints_at(c.bytes@, start, i as nat),
        decreases n - i,
    {
        let x = c.read_i32();
        match x {
            Ok(x) => {
                v.push(x);
            },
            Err(_) => {},
        }
        i = i + 1;
        assert(v@ =~= ints_at(c.bytes@, start, i as nat));
    }
    v
}

fn read_longs(c: &mut Cursor, n: usize) -> (v: Vec<i64>)
    requires
        old(c).wf(),
        old(c).pos + 8 * n <= old(c).bytes@.len(),
    ensures
        final(c).bytes@ == old(c).bytes@,
        final(c).wf(),
        final(c).pos == old(c).pos + 8 * n,
        v@ == longs_at(old(c).bytes@, old(c).pos as int, n as nat),
{
    let ghost start = c.pos as int;
    let mut v: Vec<i64> = Vec::new();
    let mut i: usize = 0;
    while i < n
        invariant
            c.wf(),
            c.bytes@ == old(c).bytes@,
            start == old(c).pos,
            start + 8 * n <= c.bytes@.len(),
            i <= n,
            c.pos == start + 8 * i,
            v@ == longs_at(c.bytes@, start, i as nat),
        decreases n - i,
    {
        let x = c.read_i64();
        match x {
            Ok(x) => {
                v.push(x);
            },
            Err(_) => {},
        }
        i = i + 1;
        assert(v@ =~= longs_at(c.bytes@, start, i as nat));
    }
    v
}

/// Parses `n` payloads of type `elem` from `pos` on.
fn parse_list(bytes: &[u8], pos: usize, elem: u8, n: usize) -> (r: Result<(Vec<Payload>, usize), NbtError>)
    requires
        pos <= bytes@.len(),
    ensures
        match r {
            Ok((v, e)) => p_list(bytes@, pos as int, elem, n as nat) == Ok::<(Seq<PayloadV>, int), NbtError>(
                (payloads_view(v@), e as int),
            ) && pos <= e <= bytes@.len(),
            Err(x) => p_list(bytes@, pos as int, elem, n as nat) == Err::<(Seq<PayloadV>, int), NbtError>(x),
        },
    decreases bytes@.len() - pos, 4int,
{
    let ghost s = bytes@;
    let mut items: Vec<Payload> = Vec::new();
    let mut cur = pos;
    let mut i: usize = 0;
    while i < n
        invariant
            s == bytes@,
            pos <= cur <= s.len(),
            i <= n,
            p_list(s, pos as int, elem, n as nat) == prepend_payloads(
                payloads_view(items@),
                p_list(s, cur as int, elem, (n - i) as nat),
            ),
        decreases n - i,
    {
        let (p, e) = parse_payload(bytes, cur, elem)?;
        proof {
            lemma_payloads_view_push(items@, p);
            let acc = payloads_view(items@);
            match p_list(s, e as int, elem, (n - i - 1) as nat) {
                Ok((rest, f)) => {
                    assert(acc + (seq![p@] + rest) =~= acc.push(p@) + rest);
                },
                Err(_) => {},
            }
        }
        items.push(p);
        cur = e;
        i = i + 1;
    }
    proof {
        assert(payloads_view(items@) + Seq::<PayloadV>::empty() =~= payloads_view(items@));
    }
    Ok((items, cur))
}

/// Parses compound children from `pos` on, through the terminating End.
fn parse_compound(bytes: &[u8], pos: usize) -> (r: Result<(Vec<Tag>, usize), NbtError>)
    requires
        pos <= bytes@.len(),
    ensures
        match r {
            Ok((v, e)) => p_compound(bytes@, pos as int) == Ok::<(Seq<TagV>, int), NbtError>(
                (tags_view(v@), e as int),
            ) && pos < e <= bytes@.len(),
            Err(x) => p_compound(bytes@, pos as int) == Err::<(Seq<TagV>, int), NbtError>(x),
        },
    decreases bytes@.len() - pos, 2int,
{
    let ghost s = bytes@;
    let mut children: Vec<Tag> = Vec::new();
    let mut cur = pos;
    loop
        invariant
            s == bytes@,
            pos <= cur <= s.len(),
            p_compound(s, pos as int) == prepend_tags(tags_view(children@), p_compound(s, cur as int)),
        decreases s.len() - cur,
    {
        let (t, e) = parse_tag(bytes, cur)?;
        let is_end = match t.payload {
            Payload::End => true,
            _ => false,
        };
        proof {
            lemma_tags_view_push(children@, t);
            let acc = tags_view(children@);
            if is_end {
                assert(acc + seq![t@] =~= acc.push(t@));
            } else {
                match p_compound(s, e as int) {
                    Ok((rest, f)) => {
                        assert(acc + (seq![t@] + rest) =~= acc.push(t@) + rest);
                    },
                    Err(_) => {},
                }
            }
        }
        children.push(t);
        if is_end {
            return Ok((children, e));
        }
        cur = e;
    }
}

/// Parses the tag that `bytes` starts with.
pub fn parse_nbt(bytes: &[u8]) -> (r: Result<Tag, NbtError>)
    ensures
        match r {
            Ok(t) => nbt_of(bytes@) == Ok::<TagV, NbtError>(t@),
            Err(x) => nbt_of(bytes@) == Err::<TagV, NbtError>(x),
        },
{
    let (t, _) = parse_tag(bytes, 0)?;
    Ok(t)
}

impl Tag {
    /// The tag type with on-disk id `id`, if there is one.
    pub fn id_type(id: u8) -> (r: TagType)
        requires
            id < 13,
        ensures
            r == type_of_id(id),
    {
        match id {
            0 => TagType::End,
            1 => TagType::Byte,
            2 => TagType::Short,
            3 => TagType::Int,
            4 => TagType::Long,
            5 => TagType::Float,
            6 => TagType::Double,
            7 => TagType::ByteArray,
            8 => TagType::String,
            9 => TagType::List,
            10 => TagType::Compound,
            11 => TagType::IntArray,
            _ => TagType::LongArray,
        }
    }
}

/// A parsed NBT document: its root tag.
#[derive(Debug)]
pub struct NBT {
    pub tags: Tag,
}

impl NBT {
    pub fn new(bytes: &Vec<u8>) -> (r: Result<NBT, NbtError>)
        ensures
            match r {
                Ok(n) => nbt_of(bytes@) == Ok::<TagV, NbtError>(n.tags@),
                Err(x) => nbt_of(bytes@) == Err::<TagV, NbtError>(x),
            },
    {
        let tags = parse_nbt(bytes.as_slice())?;
        Ok(NBT { tags })
    }
}

impl Tag {
    /// Parses the tag that `bytes` starts with.
    pub fn new(bytes: &[u8]) -> (r: Result<Tag, NbtError>)
        ensures
            match r {
                Ok(t) => nbt_of(bytes@) == Ok::<TagV, NbtError>(t@),
                Err(x) => nbt_of(bytes@) == Err::<TagV, NbtError>(x),
            },
    {
        parse_nbt(bytes)
    }
}

} // verus!

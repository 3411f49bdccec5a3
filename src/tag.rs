//! The NBT tag tree: executable types, their mathematical model, the byte
//! encoding of the model, and the parse of bytes into the model.

use vstd::prelude::*;
use vstd::slice::slice_to_vec;
use vstd::utf8::{decode_utf8, encode_utf8, encode_utf8_decode_utf8, valid_utf8};
use crate::cursor::{be_at, signed_of, NbtError};

verus! {

/// The thirteen kinds of tag payload, in on-disk id order.
#[derive(Debug, Clone, Copy, PartialEq, Eq, Structural)]
pub enum TagType {
    End,
    Byte,
    Short,
    Int,
    Long,
    Float,
    Double,
    ByteArray,
    String,
    List,
    Compound,
    IntArray,
    LongArray,
}

/// A payload. Floating-point payloads keep their IEEE-754 bit pattern.
#[derive(Debug)]
pub enum Payload {
    End,
    Byte(i8),
    Short(i16),
    Int(i32),
    Long(i64),
    Float(u32),
    Double(u64),
    ByteArray(Vec<u8>),
    String(String),
    List(TagType, Vec<Payload>),
    Compound(Vec<Tag>),
    IntArray(Vec<i32>),
    LongArray(Vec<i64>),
}

/// A named payload.
#[derive(Debug)]
pub struct Tag {
    pub name: String,
    pub payload: Payload,
}

/// Mathematical model of a payload.
pub enum PayloadV {
    End,
    Byte(i8),
    Short(i16),
    Int(i32),
    Long(i64),
    Float(u32),
    Double(u64),
    ByteArray(Seq<u8>),
    String(Seq<char>),
    List(TagType, Seq<PayloadV>),
    Compound(Seq<TagV>),
    IntArray(Seq<i32>),
    LongArray(Seq<i64>),
}

/// Mathematical model of a tag.
pub struct TagV {
    pub name: Seq<char>,
    pub payload: PayloadV,
}

pub open spec fn type_of_id(id: u8) -> TagType {
    match id {
        0 => TagType::End,
        1 => TagType::Byte,
        2 => TagType::Short,
        3 => TagType::Int,
        4 => TagType::Long,
        5 => TagType::Float,
        6 => TagType::Double,
        7 => TagType::ByteArray,
        8 => TagType::String,
        9 => TagType::List,
        10 => TagType::Compound,
        11 => TagType::IntArray,
        _ => TagType::LongArray,
    }
}

pub open spec fn id_of(t: TagType) -> u8 {
    match t {
        TagType::End => 0,
        TagType::Byte => 1,
        TagType::Short => 2,
        TagType::Int => 3,
        TagType::Long => 4,
        TagType::Float => 5,
        TagType::Double => 6,
        TagType::ByteArray => 7,
        TagType::String => 8,
        TagType::List => 9,
        TagType::Compound => 10,
        TagType::IntArray => 11,
        TagType::LongArray => 12,
    }
}

pub open spec fn type_of(p: PayloadV) -> TagType {
    match p {
        PayloadV::End => TagType::End,
        PayloadV::Byte(_) => TagType::Byte,
        PayloadV::Short(_) => TagType::Short,
        PayloadV::Int(_) => TagType::Int,
        PayloadV::Long(_) => TagType::Long,
        PayloadV::Float(_) => TagType::Float,
        PayloadV::Double(_) => TagType::Double,
        PayloadV::ByteArray(_) => TagType::ByteArray,
        PayloadV::String(_) => TagType::String,
        PayloadV::List(_, _) => TagType::List,
        PayloadV::Compound(_) => TagType::Compound,
        PayloadV::IntArray(_) => TagType::IntArray,
        PayloadV::LongArray(_) => TagType::LongArray,
    }
}

// ---------------------------------------------------------------------------
// Views

pub open spec fn tag_view(t: Tag) -> TagV
    decreases t,
{
    TagV { name: t.name@, payload: payload_view(t.payload) }
}

pub open spec fn payload_view(p: Payload) -> PayloadV
    decreases p,
{
    match p {
        Payload::End => PayloadV::End,
        Payload::Byte(v) => PayloadV::Byte(v),
        Payload::Short(v) => PayloadV::Short(v),
        Payload::Int(v) => PayloadV::Int(v),
        Payload::Long(v) => PayloadV::Long(v),
        Payload::Float(v) => PayloadV::Float(v),
        Payload::Double(v) => PayloadV::Double(v),
        Payload::ByteArray(v) => PayloadV::ByteArray(v@),
        Payload::String(v) => PayloadV::String(v@),
        Payload::List(t, v) => PayloadV::List(t, payloads_view(v@)),
        Payload::Compound(v) => PayloadV::Compound(tags_view(v@)),
        Payload::IntArray(v) => PayloadV::IntArray(v@),
        Payload::LongArray(v) => PayloadV::LongArray(v@),
    }
}

pub open spec fn payloads_view(s: Seq<Payload>) -> Seq<PayloadV>
    decreases s,
{
    if s.len() == 0 {
        Seq::empty()
    } else {
        seq![payload_view(s[0])] + payloads_view(s.subrange(1, s.len() as int))
    }
}

pub open spec fn tags_view(s: Seq<Tag>) -> Seq<TagV>
    decreases s,
{
    if s.len() == 0 {
        Seq::empty()
    } else {
        seq![tag_view(s[0])] + tags_view(s.subrange(1, s.len() as int))
    }
}

impl View for Tag {
    type V = TagV;

    open spec fn view(&self) -> TagV {
        tag_view(*self)
    }
}

impl View for Payload {
    type V = PayloadV;

    open spec fn view(&self) -> PayloadV {
        payload_view(*self)
    }
}

pub proof fn lemma_payloads_view(s: Seq<Payload>)
    ensures
        payloads_view(s).len() == s.len(),
        forall|i: int| 0 <= i < s.len() ==> #[trigger] payloads_view(s)[i] == payload_view(s[i]),
    decreases s.len(),
{
    if s.len() > 0 {
        let r = s.subrange(1, s.len() as int);
        lemma_payloads_view(r);
        assert forall|i: int| 0 <= i < s.len() implies #[trigger] payloads_view(s)[i] == payload_view(s[i]) by {
            if i > 0 {
                assert(r[i - 1] == s[i]);
            }
        }
    }
}

pub proof fn lemma_tags_view(s: Seq<Tag>)
    ensures
        tags_view(s).len() == s.len(),
        forall|i: int| 0 <= i < s.len() ==> #[trigger] tags_view(s)[i] == tag_view(s[i]),
    decreases s.len(),
{
    if s.len() > 0 {
        let r = s.subrange(1, s.len() as int);
        lemma_tags_view(r);
        assert forall|i: int| 0 <= i < s.len() implies #[trigger] tags_view(s)[i] == tag_view(s[i]) by {
            if i > 0 {
                assert(r[i - 1] == s[i]);
            }
        }
    }
}

pub proof fn lemma_payloads_view_push(s: Seq<Payload>, p: Payload)
    ensures
        payloads_view(s.push(p)) == payloads_view(s).push(payload_view(p)),
{
    lemma_payloads_view(s);
    lemma_payloads_view(s.push(p));
    assert(payloads_view(s.push(p)) =~= payloads_view(s).push(payload_view(p)));
}

pub proof fn lemma_tags_view_push(s: Seq<Tag>, t: Tag)
    ensures
        tags_view(s.push(t)) == tags_view(s).push(tag_view(t)),
{
    lemma_tags_view(s);
    lemma_tags_view(s.push(t));
    assert(tags_view(s.push(t)) =~= tags_view(s).push(tag_view(t)));
}

// ---------------------------------------------------------------------------
// Parse of bytes into the model

pub open spec fn tag_eof<A>() -> Result<A, NbtError> {
    Err(NbtError::UnexpectedEof)
}

/// The tag at `pos`, and the position after it.
pub open spec fn p_tag(s: Seq<u8>, pos: int) -> Result<(TagV, int), NbtError>
    decreases s.len() - pos, 1int,
{
    if pos < 0 || pos >= s.len() {
        tag_eof()
    } else if s[pos] == 0 {
        Ok((TagV { name: Seq::empty(), payload: PayloadV::End }, pos + 1))
    } else if pos + 3 > s.len() {
        tag_eof()
    } else {
        let start = pos + 3;
        let end = start + be_at(s, pos + 1, 2);
        if end > s.len() {
            tag_eof()
        } else if !valid_utf8(s.subrange(start, end)) {
            Err(NbtError::BadUtf8)
        } else {
            match p_payload(s, end, s[pos]) {
                Ok((p, e)) => Ok((TagV { name: decode_utf8(s.subrange(start, end)), payload: p }, e)),
                Err(x) => Err(x),
            }
        }
    }
}

/// A signed 32-bit length at `pos` (meaningful when four bytes remain).
pub open spec fn len_at(s: Seq<u8>, pos: int) -> int {
    signed_of(be_at(s, pos, 4), 4)
}

pub open spec fn ints_at(s: Seq<u8>, pos: int, n: nat) -> Seq<i32> {
    Seq::new(n, |i: int| signed_of(be_at(s, pos + 4 * i, 4), 4) as i32)
}

pub open spec fn longs_at(s: Seq<u8>, pos: int, n: nat) -> Seq<i64> {
    Seq::new(n, |i: int| signed_of(be_at(s, pos + 8 * i, 8), 8) as i64)
}

/// The payload of type `id` at `pos`, and the position after it.
pub open spec fn p_payload(s: Seq<u8>, pos: int, id: u8) -> Result<(PayloadV, int), NbtError>
    decreases s.len() - pos, 3int,
{
    if pos < 0 || pos > s.len() {
        tag_eof()
    } else if id == 1 {
        if pos + 1 > s.len() {
            tag_eof()
        } else {
            Ok((PayloadV::Byte(signed_of(be_at(s, pos, 1), 1) as i8), pos + 1))
        }
    } else if id == 2 {
        if pos + 2 > s.len() {
            tag_eof()
        } else {
            Ok((PayloadV::Short(signed_of(be_at(s, pos, 2), 2) as i16), pos + 2))
        }
    } else if id == 3 {
        if pos + 4 > s.len() {
            tag_eof()
        } else {
            Ok((PayloadV::Int(signed_of(be_at(s, pos, 4), 4) as i32), pos + 4))
        }
    } else if id == 4 {
        if pos + 8 > s.len() {
            tag_eof()
        } else {
            Ok((PayloadV::Long(signed_of(be_at(s, pos, 8), 8) as i64), pos + 8))
        }
    } else if id == 5 {
        if pos + 4 > s.len() {
            tag_eof()
        } else {
            Ok((PayloadV::Float(be_at(s, pos, 4) as u32), pos + 4))
        }
    } else if id == 6 {
        if pos + 8 > s.len() {
            tag_eof()
        } else {
            Ok((PayloadV::Double(be_at(s, pos, 8) as u64), pos + 8))
        }
    } else if id == 7 || id == 11 || id == 12 {
        let w: int = if id == 7 { 1 } else if id == 11 { 4 } else { 8 };
        if pos + 4 > s.len() {
            tag_eof()
        } else if len_at(s, pos) < 0 {
            Err(NbtError::NegativeLength(len_at(s, pos) as i32))
        } else if pos + 4 + w * len_at(s, pos) > s.len() {
            tag_eof()
        } else {
            let n = len_at(s, pos);
            let e = pos + 4 + w * n;
            if id == 7 {
                Ok((PayloadV::ByteArray(s.subrange(pos + 4, e)), e))
            } else if id == 11 {
                Ok((PayloadV::IntArray(ints_at(s, pos + 4, n as nat)), e))
            } else {
                Ok((PayloadV::LongArray(longs_at(s, pos + 4, n as nat)), e))
            }
        }
    } else if id == 8 {
        if pos + 2 > s.len() {
            tag_eof()
        } else {
            let end = pos + 2 + be_at(s, pos, 2);
            if end > s.len() {
                tag_eof()
            } else if !valid_utf8(s.subrange(pos + 2, end)) {
                Err(NbtError::BadUtf8)
            } else {
                Ok((PayloadV::String(decode_utf8(s.subrange(pos + 2, end))), end))
            }
        }
    } else if id == 9 {
        if pos + 5 > s.len() {
            tag_eof()
        } else {
            let elem = s[pos];
            let n = len_at(s, pos + 1);
            if n < 0 {
                Err(NbtError::NegativeLength(n as i32))
            } else if elem >= 13 || (elem == 0 && n > 0) {
                Err(NbtError::InvalidTagType(elem))
            } else {
                match p_list(s, pos + 5, elem, n as nat) {
                    Ok((items, e)) => Ok((PayloadV::List(type_of_id(elem), items), e)),
                    Err(x) => Err(x),
                }
            }
        }
    } else if id == 10 {
        match p_compound(s, pos) {
            Ok((c, e)) => Ok((PayloadV::Compound(c), e)),
            Err(x) => Err(x),
        }
    } else {
        Err(NbtError::InvalidTagType(id))
    }
}

/// `n` payloads of type `elem` from `pos` on.
pub open spec fn p_list(s: Seq<u8>, pos: int, elem: u8, n: nat) -> Result<(Seq<PayloadV>, int), NbtError>
    decreases s.len() - pos, 4int,
{
    if pos < 0 || pos > s.len() {
        tag_eof()
    } else if n == 0 {
        Ok((Seq::empty(), pos))
    } else {
        match p_payload(s, pos, elem) {
            Err(x) => Err(x),
            Ok((p, e)) => if e <= pos || e > s.len() {
                tag_eof()
            } else {
                match p_list(s, e, elem, (n - 1) as nat) {
                    Ok((rest, f)) => Ok((seq![p] + rest, f)),
                    Err(x) => Err(x),
                }
            },
        }
    }
}

/// Children from `pos` on, up to and including the terminating End.
pub open spec fn p_compound(s: Seq<u8>, pos: int) -> Result<(Seq<TagV>, int), NbtError>
    decreases s.len() - pos, 2int,
{
    if pos < 0 || pos > s.len() {
        tag_eof()
    } else {
        match p_tag(s, pos) {
            Err(x) => Err(x),
            Ok((t, e)) => if t.payload is End {
                Ok((seq![t], e))
            } else if e <= pos || e > s.len() {
                tag_eof()
            } else {
                match p_compound(s, e) {
                    Ok((rest, f)) => Ok((seq![t] + rest, f)),
                    Err(x) => Err(x),
                }
            },
        }
    }
}

// ---------------------------------------------------------------------------
// Accessors

/// A payload read as the wrong variant.
#[derive(Debug, Clone, Copy, PartialEq, Eq, Structural)]
pub enum TagError {
    WrongTagType { expected: TagType, actual: TagType },
}

pub open spec fn wrong<A>(expected: TagType, p: PayloadV) -> Result<A, TagError> {
    Err(TagError::WrongTagType { expected, actual: type_of(p) })
}

/// The first tag of `s` named `name`.
pub open spec fn first_named(s: Seq<TagV>, name: Seq<char>) -> Option<TagV>
    decreases s.len(),
{
    if s.len() == 0 {
        None
    } else if s[0].name == name {
        Some(s[0])
    } else {
        first_named(s.subrange(1, s.len() as int), name)
    }
}

/// The children of a compound payload; nothing for any other payload.
pub open spec fn children_of(p: PayloadV) -> Seq<TagV> {
    match p {
        PayloadV::Compound(c) => c,
        _ => Seq::empty(),
    }
}

/// Equality of two strings, by their UTF-8 bytes.
pub fn same_str(a: &str, b: &str) -> (r: bool)
    ensures
        r == (a@ == b@),
{
    let x = a.as_bytes();
    let y = b.as_bytes();
    proof {
        encode_utf8_decode_utf8(a@);
        encode_utf8_decode_utf8(b@);
    }
    if x.len() != y.len() {
        return false;
    }
    let mut i: usize = 0;
    while i < x.len()
        invariant
            x@.len() == y@.len(),
            x@ == encode_utf8(a@),
            y@ == encode_utf8(b@),
            a@ == decode_utf8(x@),
            b@ == decode_utf8(y@),
            i <= x@.len(),
            forall|j: int| 0 <= j < i ==> x@[j] == y@[j],
        decreases x@.len() - i,
    {
        if x[i] != y[i] {
            return false;
        }
        i = i + 1;
    }
    assert(x@ =~= y@);
    true
}

/// The display name of each tag type.
pub open spec fn tag_type_label(t: TagType) -> Seq<char> {
    match t {
        TagType::End => "End"@,
        TagType::Byte => "Byte"@,
        TagType::Short => "Short"@,
        TagType::Int => "Int"@,
        TagType::Long => "Long"@,
        TagType::Float => "Float"@,
        TagType::Double => "Double"@,
        TagType::ByteArray => "ByteArray"@,
        TagType::String => "String"@,
        TagType::List => "List"@,
        TagType::Compound => "Compound"@,
        TagType::IntArray => "IntArray"@,
        TagType::LongArray => "LongArray"@,
    }
}

impl Tag {
    pub fn tag_type(&self) -> (r: TagType)
        ensures
            r == type_of(self@.payload),
    {
        match &self.payload {
            Payload::End => TagType::End,
            Payload::Byte(_) => TagType::Byte,
            Payload::Short(_) => TagType::Short,
            Payload::Int(_) => TagType::Int,
            Payload::Long(_) => TagType::Long,
            Payload::Float(_) => TagType::Float,
            Payload::Double(_) => TagType::Double,
            Payload::ByteArray(_) => TagType::ByteArray,
            Payload::String(_) => TagType::String,
            Payload::List(_, _) => TagType::List,
            Payload::Compound(_) => TagType::Compound,
            Payload::IntArray(_) => TagType::IntArray,
            Payload::LongArray(_) => TagType::LongArray,
        }
    }

    /// The display name of a tag type.
    pub fn id_string(tag_type: TagType) -> (r: &'static str)
        ensures
            r@ == tag_type_label(tag_type),
    {
        proof {
            reveal_strlit("End");
            reveal_strlit("Byte");
            reveal_strlit("Short");
            reveal_strlit("Int");
            reveal_strlit("Long");
            reveal_strlit("Float");
            reveal_strlit("Double");
            reveal_strlit("ByteArray");
            reveal_strlit("String");
            reveal_strlit("List");
            reveal_strlit("Compound");
            reveal_strlit("IntArray");
            reveal_strlit("LongArray");
        }
        match tag_type {
            TagType::End => "End",
            TagType::Byte => "Byte",
            TagType::Short => "Short",
            TagType::Int => "Int",
            TagType::Long => "Long",
            TagType::Float => "Float",
            TagType::Double => "Double",
            TagType::ByteArray => "ByteArray",
            TagType::String => "String",
            TagType::List => "List",
            TagType::Compound => "Compound",
            TagType::IntArray => "IntArray",
            TagType::LongArray => "LongArray",
        }
    }

    pub fn payload_byte(&self) -> (r: Result<i8, TagError>)
        ensures
            match self@.payload {
                PayloadV::Byte(v) => r == Ok::<i8, TagError>(v),
                p => r == wrong::<i8>(TagType::Byte, p),
            },
    {
        match &self.payload {
            Payload::Byte(v) => Ok(*v),
            _ => Err(TagError::WrongTagType { expected: TagType::Byte, actual: self.tag_type() }),
        }
    }

    pub fn payload_short(&self) -> (r: Result<i16, TagError>)
        ensures
            match self@.payload {
                PayloadV::Short(v) => r == Ok::<i16, TagError>(v),
                p => r == wrong::<i16>(TagType::Short, p),
            },
    {
        match &self.payload {
            Payload::Short(v) => Ok(*v),
            _ => Err(TagError::WrongTagType { expected: TagType::Short, actual: self.tag_type() }),
        }
    }

    pub fn payload_int(&self) -> (r: Result<i32, TagError>)
        ensures
            match self@.payload {
                PayloadV::Int(v) => r == Ok::<i32, TagError>(v),
                p => r == wrong::<i32>(TagType::Int, p),
            },
    {
        match &self.payload {
            Payload::Int(v) => Ok(*v),
            _ => Err(TagError::WrongTagType { expected: TagType::Int, actual: self.tag_type() }),
        }
    }

    pub fn payload_long(&self) -> (r: Result<i64, TagError>)
        ensures
            match self@.payload {
                PayloadV::Long(v) => r == Ok::<i64, TagError>(v),
                p => r == wrong::<i64>(TagType::Long, p),
            },
    {
        match &self.payload {
            Payload::Long(v) => Ok(*v),
            _ => Err(TagError::WrongTagType { expected: TagType::Long, actual: self.tag_type() }),
        }
    }

    /// The IEEE-754 binary32 bit pattern of a Float payload.
    pub fn payload_float_bits(&self) -> (r: Result<u32, TagError>)
        ensures
            match self@.payload {
                PayloadV::Float(v) => r == Ok::<u32, TagError>(v),
                p => r == wrong::<u32>(TagType::Float, p),
            },
    {
        match &self.payload {
            Payload::Float(v) => Ok(*v),
            _ => Err(TagError::WrongTagType { expected: TagType::Float, actual: self.tag_type() }),
        }
    }

    /// The IEEE-754 binary64 bit pattern of a Double payload.
    pub fn payload_double_bits(&self) -> (r: Result<u64, TagError>)
        ensures
            match self@.payload {
                PayloadV::Double(v) => r == Ok::<u64, TagError>(v),
                p => r == wrong::<u64>(TagType::Double, p),
            },
    {
        match &self.payload {
            Payload::Double(v) => Ok(*v),
            _ => Err(TagError::WrongTagType { expected: TagType::Double, actual: self.tag_type() }),
        }
    }

    pub fn payload_byte_array(&self) -> (r: Result<Vec<u8>, TagError>)
        ensures
            match self@.payload {
                PayloadV::ByteArray(v) => r is Ok && r->Ok_0@ == v,
                p => r == wrong::<Vec<u8>>(TagType::ByteArray, p),
            },
    {
        match &self.payload {
            Payload::ByteArray(v) => Ok(slice_to_vec(v.as_slice())),
            _ => Err(TagError::WrongTagType { expected: TagType::ByteArray, actual: self.tag_type() }),
        }
    }

    pub fn payload_string(&self) -> (r: Result<String, TagError>)
        ensures
            match self@.payload {
                PayloadV::String(v) => r is Ok && r->Ok_0@ == v,
                p => r == wrong::<String>(TagType::String, p),
            },
    {
        match &self.payload {
            Payload::String(v) => Ok(v.clone()),
            _ => Err(TagError::WrongTagType { expected: TagType::String, actual: self.tag_type() }),
        }
    }

    pub fn payload_int_array(&self) -> (r: Result<Vec<i32>, TagError>)
        ensures
            match self@.payload {
                PayloadV::IntArray(v) => r is Ok && r->Ok_0@ == v,
                p => r == wrong::<Vec<i32>>(TagType::IntArray, p),
            },
    {
        match &self.payload {
            Payload::IntArray(v) => Ok(slice_to_vec(v.as_slice())),
            _ => Err(TagError::WrongTagType { expected: TagType::IntArray, actual: self.tag_type() }),
        }
    }

    pub fn payload_long_array(&self) -> (r: Result<Vec<i64>, TagError>)
        ensures
            match self@.payload {
                PayloadV::LongArray(v) => r is Ok && r->Ok_0@ == v,
                p => r == wrong::<Vec<i64>>(TagType::LongArray, p),
            },
    {
        match &self.payload {
            Payload::LongArray(v) => Ok(slice_to_vec(v.as_slice())),
            _ => Err(TagError::WrongTagType { expected: TagType::LongArray, actual: self.tag_type() }),
        }
    }

    /// The element type and elements of a List payload.
    pub fn payload_list(&self) -> (r: Result<(TagType, &Vec<Payload>), TagError>)
        ensures
            match self@.payload {
                PayloadV::List(t, items) => r is Ok && r->Ok_0.0 == t && payloads_view(r->Ok_0.1@) == items,
                p => r == wrong::<(TagType, &Vec<Payload>)>(TagType::List, p),
            },
    {
        match &self.payload {
            Payload::List(t, items) => Ok((*t, items)),
            _ => Err(TagError::WrongTagType { expected: TagType::List, actual: self.tag_type() }),
        }
    }

    /// The children of a Compound payload, the terminating End included.
    pub fn payload_compound(&self) -> (r: Result<&Vec<Tag>, TagError>)
        ensures
            match self@.payload {
                PayloadV::Compound(c) => r is Ok && tags_view(r->Ok_0@) == c,
                p => r == wrong::<&Vec<Tag>>(TagType::Compound, p),
            },
    {
        match &self.payload {
            Payload::Compound(c) => Ok(c),
            _ => Err(TagError::WrongTagType { expected: TagType::Compound, actual: self.tag_type() }),
        }
    }

    /// The first child named `name` of a Compound; `None` for any other payload.
    pub fn find(&self, name: &str) -> (r: Option<&Tag>)
        ensures
            match first_named(children_of(self@.payload), name@) {
                Some(t) => r is Some && r->Some_0@ == t,
                None => r is None,
            },
    {
        match &self.payload {
            Payload::Compound(c) => find_in(c, name),
            _ => None,
        }
    }
}

/// The first tag of `tags` named `name`.
pub fn find_in<'a>(tags: &'a Vec<Tag>, name: &str) -> (r: Option<&'a Tag>)
    ensures
        match first_named(tags_view(tags@), name@) {
            Some(t) => r is Some && r->Some_0@ == t,
            None => r is None,
        },
{
    let ghost s = tags_view(tags@);
    proof {
        lemma_tags_view(tags@);
    }
    assert(s.subrange(0, s.len() as int) =~= s);
    let mut i: usize = 0;
    while i < tags.len()
        invariant
            s == tags_view(tags@),
            s.len() == tags@.len(),
            forall|j: int| 0 <= j < s.len() ==> #[trigger] s[j] == tag_view(tags@[j]),
            i <= tags@.len(),
            first_named(s, name@) == first_named(s.subrange(i as int, s.len() as int), name@),
        decreases tags@.len() - i,
    {
        let ghost rest = s.subrange(i as int, s.len() as int);
        assert(rest.subrange(1, rest.len() as int) =~= s.subrange(i + 1, s.len() as int));
        assert(rest[0] == s[i as int]);
        if same_str(tags[i].name.as_str(), name) {
            return Some(&tags[i]);
        }
        i = i + 1;
    }
    None
}

} // verus!

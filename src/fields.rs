//! Typed reads of named children of a compound, with defaults for absent ones.

use vstd::prelude::*;
use crate::error::ChunkError;
use crate::tag::{find_in, first_named, tags_view, wrong, PayloadV, Tag, TagError, TagType, TagV};

verus! {

pub open spec fn lift<A>(r: Result<A, TagError>) -> Result<A, ChunkError> {
    match r {
        Ok(v) => Ok(v),
        Err(e) => Err(ChunkError::Tag(e)),
    }
}

pub open spec fn byte_field(c: Seq<TagV>, name: Seq<char>, d: i8) -> Result<i8, ChunkError> {
    match first_named(c, name) {
        None => Ok(d),
        Some(t) => match t.payload {
            PayloadV::Byte(v) => Ok(v),
            p => lift(wrong(TagType::Byte, p)),
        },
    }
}

pub open spec fn int_field(c: Seq<TagV>, name: Seq<char>, d: i32) -> Result<i32, ChunkError> {
    match first_named(c, name) {
        None => Ok(d),
        Some(t) => match t.payload {
            PayloadV::Int(v) => Ok(v),
            p => lift(wrong(TagType::Int, p)),
        },
    }
}

pub open spec fn long_field(c: Seq<TagV>, name: Seq<char>, d: i64) -> Result<i64, ChunkError> {
    match first_named(c, name) {
        None => Ok(d),
        Some(t) => match t.payload {
            PayloadV::Long(v) => Ok(v),
            p => lift(wrong(TagType::Long, p)),
        },
    }
}

/// A String child; the empty string when absent.
pub open spec fn string_field(c: Seq<TagV>, name: Seq<char>) -> Result<Seq<char>, ChunkError> {
    match first_named(c, name) {
        None => Ok(Seq::empty()),
        Some(t) => match t.payload {
            PayloadV::String(v) => Ok(v),
            p => lift(wrong(TagType::String, p)),
        },
    }
}

/// A LongArray child, if present.
pub open spec fn longs_field(c: Seq<TagV>, name: Seq<char>) -> Result<Option<Seq<i64>>, ChunkError> {
    match first_named(c, name) {
        None => Ok(None),
        Some(t) => match t.payload {
            PayloadV::LongArray(v) => Ok(Some(v)),
            p => lift(wrong(TagType::LongArray, p)),
        },
    }
}

/// A ByteArray child; empty when absent.
pub open spec fn bytes_field(c: Seq<TagV>, name: Seq<char>) -> Result<Seq<u8>, ChunkError> {
    match first_named(c, name) {
        None => Ok(Seq::empty()),
        Some(t) => match t.payload {
            PayloadV::ByteArray(v) => Ok(v),
            p => lift(wrong(TagType::ByteArray, p)),
        },
    }
}

/// The children of a Compound child; none when absent.
pub open spec fn compound_field(c: Seq<TagV>, name: Seq<char>) -> Result<Seq<TagV>, ChunkError> {
    match first_named(c, name) {
        None => Ok(Seq::empty()),
        Some(t) => match t.payload {
            PayloadV::Compound(v) => Ok(v),
            p => lift(wrong(TagType::Compound, p)),
        },
    }
}

/// The element type and elements of a List child; an empty list when absent.
pub open spec fn list_field(c: Seq<TagV>, name: Seq<char>) -> Result<(TagType, Seq<PayloadV>), ChunkError> {
    match first_named(c, name) {
        None => Ok((TagType::End, Seq::empty())),
        Some(t) => match t.payload {
            PayloadV::List(e, v) => Ok((e, v)),
            p => lift(wrong(TagType::List, p)),
        },
    }
}

pub fn read_byte(c: &Vec<Tag>, name: &str, d: i8) -> (r: Result<i8, ChunkError>)
    ensures
        r == byte_field(tags_view(c@), name@, d),
{
    match find_in(c, name) {
        None => Ok(d),
        Some(t) => match t.payload_byte() {
            Ok(v) => Ok(v),
            Err(e) => Err(ChunkError::Tag(e)),
        },
    }
}

pub fn read_int(c: &Vec<Tag>, name: &str, d: i32) -> (r: Result<i32, ChunkError>)
    ensures
        r == int_field(tags_view(c@), name@, d),
{
    match find_in(c, name) {
        None => Ok(d),
        Some(t) => match t.payload_int() {
            Ok(v) => Ok(v),
            Err(e) => Err(ChunkError::Tag(e)),
        },
    }
}

pub fn read_long(c: &Vec<Tag>, name: &str, d: i64) -> (r: Result<i64, ChunkError>)
    ensures
        r == long_field(tags_view(c@), name@, d),
{
    match find_in(c, name) {
        None => Ok(d),
        Some(t) => match t.payload_long() {
            Ok(v) => Ok(v),
            Err(e) => Err(ChunkError::Tag(e)),
        },
    }
}

pub fn read_string(c: &Vec<Tag>, name: &str) -> (r: Result<String, ChunkError>)
    ensures
        match r {
            Ok(s) => string_field(tags_view(c@), name@) == Ok::<Seq<char>, ChunkError>(s@),
            Err(e) => string_field(tags_view(c@), name@) == Err::<Seq<char>, ChunkError>(e),
        },
{
    match find_in(c, name) {
        None => Ok(String::new()),
        Some(t) => match t.payload_string() {
            Ok(v) => Ok(v),
            Err(e) => Err(ChunkError::Tag(e)),
        },
    }
}

pub fn read_longs(c: &Vec<Tag>, name: &str) -> (r: Result<Option<Vec<i64>>, ChunkError>)
    ensures
        match r {
            Ok(Some(v)) => longs_field(tags_view(c@), name@) == Ok::<Option<Seq<i64>>, ChunkError>(Some(v@)),
            Ok(None) => longs_field(tags_view(c@), name@) == Ok::<Option<Seq<i64>>, ChunkError>(None),
            Err(e) => longs_field(tags_view(c@), name@) == Err::<Option<Seq<i64>>, ChunkError>(e),
        },
{
    match find_in(c, name) {
        None => Ok(None),
        Some(t) => match t.payload_long_array() {
            Ok(v) => Ok(Some(v)),
            Err(e) => Err(ChunkError::Tag(e)),
        },
    }
}

pub fn read_bytes(c: &Vec<Tag>, name: &str) -> (r: Result<Vec<u8>, ChunkError>)
    ensures
        match r {
            Ok(v) => bytes_field(tags_view(c@), name@) == Ok::<Seq<u8>, ChunkError>(v@),
            Err(e) => bytes_field(tags_view(c@), name@) == Err::<Seq<u8>, ChunkError>(e),
        },
{
    match find_in(c, name) {
        None => Ok(Vec::new()),
        Some(t) => match t.payload_byte_array() {
            Ok(v) => Ok(v),
            Err(e) => Err(ChunkError::Tag(e)),
        },
    }
}

pub fn read_compound<'a>(c: &'a Vec<Tag>, name: &str, none: &'a Vec<Tag>) -> (r: Result<&'a Vec<Tag>, ChunkError>)
    requires
        none@.len() == 0,
    ensures
        match r {
            Ok(v) => compound_field(tags_view(c@), name@) == Ok::<Seq<TagV>, ChunkError>(tags_view(v@)),
            Err(e) => compound_field(tags_view(c@), name@) == Err::<Seq<TagV>, ChunkError>(e),
        },
{
    match find_in(c, name) {
        None => Ok(none),
        Some(t) => match t.payload_compound() {
            Ok(v) => Ok(v),
            Err(e) => Err(ChunkError::Tag(e)),
        },
    }
}

} // verus!

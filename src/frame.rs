//! Chunk frames: the slice of a region file that one slot names, and the
//! decompression of its payload.

use std::io::Read;
use vstd::prelude::*;
use vstd::slice::slice_to_vec;
use crate::cursor::{be_at, Cursor};
use crate::error::ChunkError;

verus! {

/// Largest decompressed chunk accepted, in bytes.
pub const MAX_CHUNK_BYTES: u64 = 16 * 1024 * 1024;

/// What a gzip decoder over `data` yields when at most `limit` bytes are
/// read from it; `None` when it reports an error first.
pub uninterp spec fn gunzip_of(data: Seq<u8>, limit: nat) -> Option<Seq<u8>>;

/// What a zlib decoder over `data` yields when at most `limit` bytes are
/// read from it; `None` when it reports an error first.
pub uninterp spec fn inflate_of(data: Seq<u8>, limit: nat) -> Option<Seq<u8>>;

/// Relies on `flate2::read::GzDecoder` read through `std::io::Read::take`:
/// the output is determined by the input, and `take` stops at `limit` bytes.
#[verifier::external_body]
fn gunzip_at_most(data: &[u8], limit: u64) -> (r: Option<Vec<u8>>)
    ensures
        r is Some <==> gunzip_of(data@, limit as nat) is Some,
        r is Some ==> r->Some_0@ == gunzip_of(data@, limit as nat)->Some_0,
        r is Some ==> r->Some_0@.len() <= limit,
{
    let mut out = Vec::new();
    match flate2::read::GzDecoder::new(data).take(limit).read_to_end(&mut out) {
        Ok(_) => Some(out),
        Err(_) => None,
    }
}

/// Relies on `flate2::read::ZlibDecoder` read through `std::io::Read::take`:
/// the output is determined by the input, and `take` stops at `limit` bytes.
#[verifier::external_body]
fn inflate_at_most(data: &[u8], limit: u64) -> (r: Option<Vec<u8>>)
    ensures
        r is Some <==> inflate_of(data@, limit as nat) is Some,
        r is Some ==> r->Some_0@ == inflate_of(data@, limit as nat)->Some_0,
        r is Some ==> r->Some_0@.len() <= limit,
{
    let mut out = Vec::new();
    match flate2::read::ZlibDecoder::new(data).take(limit).read_to_end(&mut out) {
        Ok(_) => Some(out),
        Err(_) => None,
    }
}

/// The outcome of decompression, given what the decoder produced when read
/// up to one byte past the cap.
pub open spec fn capped(out: Option<Seq<u8>>) -> Result<Seq<u8>, ChunkError> {
    match out {
        None => Err(ChunkError::DecompressFailed),
        Some(v) => if v.len() > MAX_CHUNK_BYTES {
            Err(ChunkError::ChunkTooLarge)
        } else {
            Ok(v)
        },
    }
}

pub open spec fn decompressed(payload: Seq<u8>, compression: u8) -> Result<Seq<u8>, ChunkError> {
    if compression == 1 {
        capped(gunzip_of(payload, (MAX_CHUNK_BYTES + 1) as nat))
    } else if compression == 2 {
        capped(inflate_of(payload, (MAX_CHUNK_BYTES + 1) as nat))
    } else if compression == 3 {
        if payload.len() > MAX_CHUNK_BYTES {
            Err(ChunkError::ChunkTooLarge)
        } else {
            Ok(payload)
        }
    } else {
        Err(ChunkError::UnknownCompression(compression))
    }
}

pub open spec fn bytes_result(r: Result<Vec<u8>, ChunkError>, sp: Result<Seq<u8>, ChunkError>) -> bool {
    match r {
        Ok(v) => sp == Ok::<Seq<u8>, ChunkError>(v@),
        Err(e) => sp == Err::<Seq<u8>, ChunkError>(e),
    }
}

/// Applies the cap to what a decoder produced.
pub fn finish_decompress(out: Option<Vec<u8>>) -> (r: Result<Vec<u8>, ChunkError>)
    ensures
        bytes_result(
            r,
            capped(
                match out {
                    Some(v) => Some(v@),
                    None => None,
                },
            ),
        ),
{
    match out {
        None => Err(ChunkError::DecompressFailed),
        Some(v) => if v.len() as u64 > MAX_CHUNK_BYTES {
            Err(ChunkError::ChunkTooLarge)
        } else {
            Ok(v)
        },
    }
}

/// Decompresses a chunk payload: 1 is gzip, 2 is zlib, 3 is stored as is.
pub fn decompress(payload: &[u8], compression: u8) -> (r: Result<Vec<u8>, ChunkError>)
    ensures
        bytes_result(r, decompressed(payload@, compression)),
{
    if compression == 1 {
        finish_decompress(gunzip_at_most(payload, MAX_CHUNK_BYTES + 1))
    } else if compression == 2 {
        finish_decompress(inflate_at_most(payload, MAX_CHUNK_BYTES + 1))
    } else if compression == 3 {
        if payload.len() as u64 > MAX_CHUNK_BYTES {
            Err(ChunkError::ChunkTooLarge)
        } else {
            Ok(slice_to_vec(payload))
        }
    } else {
        Err(ChunkError::UnknownCompression(compression))
    }
}

/// The frame of a chunk that starts at `start` and may extend to `end`:
/// a big-endian length, the compression byte, then `length - 1` bytes.
pub open spec fn frame_of(file: Seq<u8>, start: int, end: int) -> Result<(u8, Seq<u8>), ChunkError> {
    if start + 5 > end {
        Err(ChunkError::BadFrameLength)
    } else {
        let length = be_at(file, start, 4);
        if length == 0 || start + 4 + length > end {
            Err(ChunkError::BadFrameLength)
        } else {
            Ok((file[start + 4], file.subrange(start + 5, start + 4 + length)))
        }
    }
}

/// Splits the frame between `start` and `end` into compression byte and payload.
pub fn read_frame(file: &[u8], start: usize, end: usize) -> (r: Result<(u8, &[u8]), ChunkError>)
    requires
        start <= end <= file@.len(),
    ensures
        match r {
            Ok((c, p)) => frame_of(file@, start as int, end as int) == Ok::<(u8, Seq<u8>), ChunkError>((c, p@)),
            Err(e) => frame_of(file@, start as int, end as int) == Err::<(u8, Seq<u8>), ChunkError>(e),
        },
{
    if end - start < 5 {
        return Err(ChunkError::BadFrameLength);
    }
    let mut c = Cursor::new(file);
    c.pos = start;
    let length = match c.read_u32() {
        Ok(v) => v,
        Err(_) => {
            return Err(ChunkError::BadFrameLength);
        },
    };
    if length == 0 || (length as usize) > end - start - 4 {
        return Err(ChunkError::BadFrameLength);
    }
    let compression = file[start + 4];
    let stop: usize = start + 4 + length as usize;
    Ok((compression, &file[start + 5..stop]))
}

} // verus!

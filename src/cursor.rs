//! A positioned view over a byte buffer with big-endian reads.

use vstd::prelude::*;
use vstd::utf8::{decode_utf8, valid_utf8};

verus! {

/// Errors of the NBT layer.
#[derive(Debug, Clone, Copy, PartialEq, Eq, Structural)]
pub enum NbtError {
    /// Fewer bytes remain than a read asks for.
    UnexpectedEof,
    /// A name or string payload is not valid UTF-8.
    BadUtf8,
    /// A type id of 13 or more, or an element type that cannot carry payloads.
    InvalidTagType(u8),
    /// A negative array or list length.
    NegativeLength(i32),
}

/// 256 to the power `n`.
pub open spec fn pow256(n: nat) -> nat
    decreases n,
{
    if n == 0 {
        1
    } else {
        256 * pow256((n - 1) as nat)
    }
}

/// The unsigned big-endian value of a byte sequence.
pub open spec fn be_value(s: Seq<u8>) -> nat
    decreases s.len(),
{
    if s.len() == 0 {
        0
    } else {
        be_value(s.drop_last()) * 256 + s.last() as nat
    }
}

/// The `n` low bytes of `u`, most significant first.
pub open spec fn be_bytes(u: nat, n: nat) -> Seq<u8>
    decreases n,
{
    if n == 0 {
        Seq::empty()
    } else {
        be_bytes(u / 256, (n - 1) as nat).push((u % 256) as u8)
    }
}

/// Two's complement reading of an `n`-byte unsigned value.
pub open spec fn signed_of(u: nat, n: nat) -> int {
    if 2 * u >= pow256(n) {
        u - pow256(n)
    } else {
        u as int
    }
}

/// The `n`-byte two's complement pattern of `v`, as an unsigned value.
pub open spec fn unsigned_of(v: int, n: nat) -> nat {
    if v < 0 {
        (v + pow256(n)) as nat
    } else {
        v as nat
    }
}

/// The big-endian value of `n` bytes at `pos`.
pub open spec fn be_at(s: Seq<u8>, pos: int, n: nat) -> nat {
    be_value(s.subrange(pos, pos + n))
}

pub proof fn lemma_pow256_values()
    ensures
        pow256(1) == 256,
        pow256(2) == 0x1_0000,
        pow256(3) == 0x100_0000,
        pow256(4) == 0x1_0000_0000,
        pow256(8) == 0x1_0000_0000_0000_0000,
{
    reveal_with_fuel(pow256, 9);
}

pub proof fn lemma_pow256_positive(n: nat)
    ensures
        pow256(n) >= 1,
    decreases n,
{
    if n > 0 {
        lemma_pow256_positive((n - 1) as nat);
    }
}

pub proof fn lemma_be_value_bound(s: Seq<u8>)
    ensures
        be_value(s) < pow256(s.len()),
    decreases s.len(),
{
    if s.len() > 0 {
        lemma_be_value_bound(s.drop_last());
        let a = be_value(s.drop_last());
        let p = pow256((s.len() - 1) as nat);
        assert(a * 256 + s.last() < p * 256) by (nonlinear_arith)
            requires
                a < p,
                s.last() < 256,
        ;
    }
}

/// Encoding a value in `n` bytes and reading it back gives the value.
pub proof fn lemma_be_round_trip(u: nat, n: nat)
    requires
        u < pow256(n),
    ensures
        be_bytes(u, n).len() == n,
        be_value(be_bytes(u, n)) == u,
    decreases n,
{
    if n > 0 {
        let p = pow256((n - 1) as nat);
        assert(u / 256 < p) by (nonlinear_arith)
            requires
                u < 256 * p,
        ;
        lemma_be_round_trip(u / 256, (n - 1) as nat);
        let s = be_bytes(u, n);
        assert(s.drop_last() =~= be_bytes(u / 256, (n - 1) as nat));
    }
}

pub proof fn lemma_signed_round_trip(v: int, n: nat)
    requires
        n > 0,
        -pow256(n) <= 2 * v < pow256(n),
    ensures
        unsigned_of(v, n) < pow256(n),
        signed_of(unsigned_of(v, n), n) == v,
{
}

/// Relies on `std::str::from_utf8`: it accepts exactly the valid UTF-8 byte
/// sequences and then yields the characters they encode.
#[verifier::external_body]
fn utf8_string(b: &[u8]) -> (r: Option<String>)
    ensures
        r is Some <==> valid_utf8(b@),
        r is Some ==> r->Some_0@ == decode_utf8(b@),
{
    match std::str::from_utf8(b) {
        Ok(s) => Some(s.to_owned()),
        Err(_) => None,
    }
}

/// A stateful reader over an immutable byte buffer.
pub struct Cursor<'a> {
    pub bytes: &'a [u8],
    pub pos: usize,
}

impl<'a> Cursor<'a> {
    pub open spec fn wf(&self) -> bool {
        self.pos <= self.bytes@.len()
    }

    pub open spec fn remaining(&self) -> int {
        self.bytes@.len() - self.pos
    }

    pub fn new(bytes: &'a [u8]) -> (r: Cursor<'a>)
        ensures
            r.bytes@ == bytes@,
            r.pos == 0,
    {
        Cursor { bytes, pos: 0 }
    }

    /// Reads `n` bytes (at most eight) as an unsigned big-endian value.
    pub fn read_uint(&mut self, n: usize) -> (r: Result<u64, NbtError>)
        requires
            old(self).wf(),
            n <= 8,
        ensures
            final(self).bytes@ == old(self).bytes@,
            final(self).wf(),
            old(self).remaining() < n ==> r == Err::<u64, NbtError>(NbtError::UnexpectedEof)
                && final(self).pos == old(self).pos,
            old(self).remaining() >= n ==> r is Ok
                && final(self).pos == old(self).pos + n,
            r is Ok ==> r->Ok_0 == be_at(old(self).bytes@, old(self).pos as int, n as nat),
            r is Ok ==> r->Ok_0 < pow256(n as nat),
    {
        if self.bytes.len() - self.pos < n {
            return Err(NbtError::UnexpectedEof);
        }
        let start = self.pos;
        let end: usize = start + n;
        let ghost s = self.bytes@;
        let mut acc: u64 = 0;
        let mut i: usize = 0;
        while i < n
            invariant
                self.bytes@ == s,
                start + n <= s.len(),
                end == start + n,
                i <= n,
                n <= 8,
                acc == be_value(s.subrange(start as int, start + i)),
            decreases n - i,
        {
            proof {
                lemma_be_value_bound(s.subrange(start as int, start + i));
                lemma_pow256_values();
                lemma_pow256_mono(i as nat, 7);
                assert(s.subrange(start as int, start + i + 1).drop_last() =~= s.subrange(start as int, start + i));
            }
            acc = acc * 256 + self.bytes[start + i] as u64;
            i = i + 1;
        }
        proof {
            lemma_be_value_bound(s.subrange(start as int, start + n));
        }
        self.pos = end;
        Ok(acc)
    }

    /// Reads `n` bytes and returns them without copying.
    pub fn read_bytes(&mut self, n: usize) -> (r: Result<&'a [u8], NbtError>)
        requires
            old(self).wf(),
        ensures
            final(self).bytes@ == old(self).bytes@,
            final(self).wf(),
            old(self).remaining() < n ==> r == Err::<&'a [u8], NbtError>(NbtError::UnexpectedEof)
                && final(self).pos == old(self).pos,
            old(self).remaining() >= n ==> r is Ok && r->Ok_0@ == old(self).bytes@.subrange(
                old(self).pos as int,
                old(self).pos + n,
            ) && final(self).pos == old(self).pos + n,
    {
        if self.bytes.len() - self.pos < n {
            return Err(NbtError::UnexpectedEof);
        }
        let start = self.pos;
        let end: usize = start + n;
        self.pos = end;
        Ok(&self.bytes[start..end])
    }

    /// Reads `n` bytes and decodes them as UTF-8.
    pub fn read_utf8(&mut self, n: usize) -> (r: Result<String, NbtError>)
        requires
            old(self).wf(),
        ensures
            final(self).bytes@ == old(self).bytes@,
            final(self).wf(),
            old(self).remaining() < n ==> r == Err::<String, NbtError>(NbtError::UnexpectedEof)
                && final(self).pos == old(self).pos,
            old(self).remaining() >= n ==> final(self).pos == old(self).pos + n && ({
                let b = old(self).bytes@.subrange(old(self).pos as int, old(self).pos + n);
                &&& valid_utf8(b) ==> r is Ok && r->Ok_0@ == decode_utf8(b)
                &&& !valid_utf8(b) ==> r == Err::<String, NbtError>(NbtError::BadUtf8)
            }),
    {
        let b = self.read_bytes(n)?;
        match utf8_string(b) {
            Some(s) => Ok(s),
            None => Err(NbtError::BadUtf8),
        }
    }

    pub fn read_u16(&mut self) -> (r: Result<u16, NbtError>)
        requires
            old(self).wf(),
        ensures
            final(self).bytes@ == old(self).bytes@,
            final(self).wf(),
            old(self).remaining() < 2 ==> r == Err::<u16, NbtError>(NbtError::UnexpectedEof)
                && final(self).pos == old(self).pos,
            old(self).remaining() >= 2 ==> r is Ok
                && final(self).pos == old(self).pos + 2,
            r is Ok ==> r->Ok_0 == be_at(old(self).bytes@, old(self).pos as int, 2),
    {
        proof {
            lemma_pow256_values();
        }
        let v = self.read_uint(2)?;
        Ok(v as u16)
    }

    pub fn read_u32(&mut self) -> (r: Result<u32, NbtError>)
        requires
            old(self).wf(),
        ensures
            final(self).bytes@ == old(self).bytes@,
            final(self).wf(),
            old(self).remaining() < 4 ==> r == Err::<u32, NbtError>(NbtError::UnexpectedEof)
                && final(self).pos == old(self).pos,
            old(self).remaining() >= 4 ==> r is Ok
                && final(self).pos == old(self).pos + 4,
            r is Ok ==> r->Ok_0 == be_at(old(self).bytes@, old(self).pos as int, 4),
    {
        proof {
            lemma_pow256_values();
        }
        let v = self.read_uint(4)?;
        Ok(v as u32)
    }

    pub fn read_u64(&mut self) -> (r: Result<u64, NbtError>)
        requires
            old(self).wf(),
        ensures
            final(self).bytes@ == old(self).bytes@,
            final(self).wf(),
            old(self).remaining() < 8 ==> r == Err::<u64, NbtError>(NbtError::UnexpectedEof)
                && final(self).pos == old(self).pos,
            old(self).remaining() >= 8 ==> r is Ok
                && final(self).pos == old(self).pos + 8,
            r is Ok ==> r->Ok_0 == be_at(old(self).bytes@, old(self).pos as int, 8),
    {
        proof {
            lemma_pow256_values();
        }
        self.read_uint(8)
    }

    pub fn read_i8(&mut self) -> (r: Result<i8, NbtError>)
        requires
            old(self).wf(),
        ensures
            final(self).bytes@ == old(self).bytes@,
            final(self).wf(),
            old(self).remaining() < 1 ==> r == Err::<i8, NbtError>(NbtError::UnexpectedEof)
                && final(self).pos == old(self).pos,
            old(self).remaining() >= 1 ==> r is Ok && final(self).pos == old(self).pos + 1,
            r is Ok ==> r->Ok_0 == signed_of(be_at(old(self).bytes@, old(self).pos as int, 1), 1),
    {
        proof {
            lemma_pow256_values();
        }
        let v = self.read_uint(1)?;
        if v >= 0x80 {
            Ok((v as i64 - 0x100) as i8)
        } else {
            Ok(v as i8)
        }
    }

    pub fn read_i16(&mut self) -> (r: Result<i16, NbtError>)
        requires
            old(self).wf(),
        ensures
            final(self).bytes@ == old(self).bytes@,
            final(self).wf(),
            old(self).remaining() < 2 ==> r == Err::<i16, NbtError>(NbtError::UnexpectedEof)
                && final(self).pos == old(self).pos,
            old(self).remaining() >= 2 ==> r is Ok && final(self).pos == old(self).pos + 2,
            r is Ok ==> r->Ok_0 == signed_of(be_at(old(self).bytes@, old(self).pos as int, 2), 2),
    {
        proof {
            lemma_pow256_values();
        }
        let v = self.read_uint(2)?;
        if v >= 0x8000 {
            Ok((v as i64 - 0x1_0000) as i16)
        } else {
            Ok(v as i16)
        }
    }

    pub fn read_i32(&mut self) -> (r: Result<i32, NbtError>)
        requires
            old(self).wf(),
        ensures
            final(self).bytes@ == old(self).bytes@,
            final(self).wf(),
            old(self).remaining() < 4 ==> r == Err::<i32, NbtError>(NbtError::UnexpectedEof)
                && final(self).pos == old(self).pos,
            old(self).remaining() >= 4 ==> r is Ok && final(self).pos == old(self).pos + 4,
            r is Ok ==> r->Ok_0 == signed_of(be_at(old(self).bytes@, old(self).pos as int, 4), 4),
    {
        proof {
            lemma_pow256_values();
        }
        let v = self.read_uint(4)?;
        if v >= 0x8000_0000 {
            Ok((v as i64 - 0x1_0000_0000) as i32)
        } else {
            Ok(v as i32)
        }
    }

    pub fn read_i64(&mut self) -> (r: Result<i64, NbtError>)
        requires
            old(self).wf(),
        ensures
            final(self).bytes@ == old(self).bytes@,
            final(self).wf(),
            old(self).remaining() < 8 ==> r == Err::<i64, NbtError>(NbtError::UnexpectedEof)
                && final(self).pos == old(self).pos,
            old(self).remaining() >= 8 ==> r is Ok && final(self).pos == old(self).pos + 8,
            r is Ok ==> r->Ok_0 == signed_of(be_at(old(self).bytes@, old(self).pos as int, 8), 8),
    {
        proof {
            lemma_pow256_values();
        }
        let v = self.read_uint(8)?;
        if v >= 0x8000_0000_0000_0000 {
            Ok(-((0xffff_ffff_ffff_ffff - v) as i64) - 1)
        } else {
            Ok(v as i64)
        }
    }

    pub fn read_u8(&mut self) -> (r: Result<u8, NbtError>)
        requires
            old(self).wf(),
        ensures
            final(self).bytes@ == old(self).bytes@,
            final(self).wf(),
            old(self).remaining() < 1 ==> r == Err::<u8, NbtError>(NbtError::UnexpectedEof)
                && final(self).pos == old(self).pos,
            old(self).remaining() >= 1 ==> r == Ok::<u8, NbtError>(old(self).bytes@[old(self).pos as int])
                && final(self).pos == old(self).pos + 1,
    {
        if self.pos < self.bytes.len() {
            let b = self.bytes[self.pos];
            self.pos = self.pos + 1;
            Ok(b)
        } else {
            Err(NbtError::UnexpectedEof)
        }
    }
}

pub proof fn lemma_pow256_mono(a: nat, b: nat)
    requires
        a <= b,
    ensures
        pow256(a) <= pow256(b),
    decreases b,
{
    if a < b {
        lemma_pow256_mono(a, (b - 1) as nat);
        lemma_pow256_positive((b - 1) as nat);
    }
}

} // verus!

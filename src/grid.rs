//! Decoding of palette-indexed grids from bit-packed long arrays.
//!
//! Each 64-bit long holds `64 / B` entries of `B` bits, the first entry in
//! the lowest bits; entries never span two longs and the high bits left over
//! are padding.

use vstd::prelude::*;
use vstd::arithmetic::div_mod::{
    lemma_div_is_ordered_by_denominator, lemma_fundamental_div_mod, lemma_mod_breakdown, lemma_mod_mod,
};
use vstd::arithmetic::power2::{lemma2_to64, lemma_pow2_adds, lemma_pow2_pos, lemma_pow2_strictly_increases, pow2};
use vstd::bits::{
    lemma_u64_low_bits_mask_is_mod, lemma_u64_pow2_no_overflow, lemma_u64_shl_is_mul,
    lemma_u64_shr_is_div, low_bits_mask,
};
use crate::cursor::unsigned_of;

verus! {

/// Errors of the grid unpacker.
#[derive(Debug, Clone, Copy, PartialEq, Eq, Structural)]
pub enum UnpackError {
    /// The long array holds fewer entries than the grid has cells.
    InsufficientPackedData,
    /// The entry of `cell` is `index`, which is not below the palette size.
    PaletteIndexOutOfRange { cell: usize, index: u32 },
    /// Bits per entry outside `1..=32`.
    BadBitsPerEntry,
}

/// The 64-bit pattern of a long, as an unsigned value.
pub open spec fn word_of(l: i64) -> nat {
    unsigned_of(l as int, 8)
}

pub open spec fn per_long(b: nat) -> nat {
    64nat / b
}

/// Entry `k` of the packed array, `b` bits per entry.
pub open spec fn entry_at(longs: Seq<i64>, b: nat, k: int) -> nat {
    let per = per_long(b) as int;
    (word_of(longs[k / per]) / pow2((b * (k % per)) as nat)) % pow2(b)
}

pub open spec fn bits_ok(b: nat) -> bool {
    1 <= b <= 32
}

pub open spec fn enough_data(len: nat, b: nat, c: nat) -> bool {
    c <= len * per_long(b)
}

pub open spec fn all_in_palette(longs: Seq<i64>, b: nat, c: nat, p: nat) -> bool {
    forall|k: int| 0 <= k < c ==> #[trigger] entry_at(longs, b, k) < p
}

/// The exact outcome of unpacking `c` cells against a palette of `p` entries.
pub open spec fn unpack_ok(r: Result<Vec<u32>, UnpackError>, longs: Seq<i64>, b: nat, c: nat, p: nat) -> bool {
    &&& (r == Err::<Vec<u32>, UnpackError>(UnpackError::BadBitsPerEntry) <==> !bits_ok(b))
    &&& (r == Err::<Vec<u32>, UnpackError>(UnpackError::InsufficientPackedData) <==> bits_ok(b)
        && !enough_data(longs.len(), b, c))
    &&& (r is Ok <==> bits_ok(b) && enough_data(longs.len(), b, c) && all_in_palette(longs, b, c, p))
    &&& (r is Ok ==> r->Ok_0@.len() == c && forall|k: int|
        0 <= k < c ==> #[trigger] r->Ok_0@[k] == entry_at(longs, b, k))
    &&& (r matches Err(UnpackError::PaletteIndexOutOfRange { cell, index }) ==> {
        &&& bits_ok(b) && enough_data(longs.len(), b, c)
        &&& cell < c
        &&& index == entry_at(longs, b, cell as int)
        &&& index >= p
        &&& forall|j: int| 0 <= j < cell ==> #[trigger] entry_at(longs, b, j) < p
    })
}

/// The one error that unpacking `c` cells against a palette of `p` entries
/// can end with.
pub open spec fn unpack_failure(e: UnpackError, longs: Seq<i64>, b: nat, c: nat, p: nat) -> bool {
    match e {
        UnpackError::BadBitsPerEntry => !bits_ok(b),
        UnpackError::InsufficientPackedData => bits_ok(b) && !enough_data(longs.len(), b, c),
        UnpackError::PaletteIndexOutOfRange { cell, index } => {
            &&& bits_ok(b) && enough_data(longs.len(), b, c)
            &&& cell < c
            &&& index == entry_at(longs, b, cell as int)
            &&& index >= p
            &&& forall|j: int| 0 <= j < cell ==> #[trigger] entry_at(longs, b, j) < p
        },
    }
}

/// The bit pattern of a long.
pub fn word(l: i64) -> (r: u64)
    ensures
        r == word_of(l),
{
    proof {
        crate::cursor::lemma_pow256_values();
    }
    if l < 0 {
        ((l + 0x7fff_ffff_ffff_ffff + 1) as u64) + 0x8000_0000_0000_0000
    } else {
        l as u64
    }
}

proof fn lemma_cell_position(k: int, c: int, len: int, b: int, per: int)
    requires
        1 <= b <= 32,
        per == 64int / b as int,
        0 <= k < c,
        c <= len * per,
    ensures
        per >= 2,
        0 <= k / per < len,
        0 <= k % per < per,
        b * (k % per) + b <= 64,
{
    lemma_div_is_ordered_by_denominator(64, b, 32);
    lemma_fundamental_div_mod(64, b);
    assert(per >= 2);
    assert(b * per <= 64);
    assert(k / per < len) by (nonlinear_arith)
        requires
            0 <= k < c,
            c <= len * per,
            per >= 2,
    ;
    assert(0 <= k / per) by (nonlinear_arith)
        requires
            0 <= k,
            per >= 2,
    ;
    assert(b * (k % per) + b <= 64) by (nonlinear_arith)
        requires
            0 <= k % per < per,
            b * per <= 64,
            b >= 1,
    ;
}

proof fn lemma_needed(c: int, len: int, per: int, needed: int)
    requires
        per >= 1,
        c >= 0,
        len >= 0,
        needed == c / per + (if c % per == 0 { 0int } else { 1int }),
    ensures
        (len < needed) <==> (len * per < c),
{
    assert(c == per * (c / per) + c % per) by (nonlinear_arith)
        requires
            per >= 1,
    ;
    assert((len < needed) <==> (len * per < c)) by (nonlinear_arith)
        requires
            per >= 1,
            c >= 0,
            len >= 0,
            c == per * (c / per) + c % per,
            0 <= c % per < per,
            needed == c / per + (if c % per == 0 { 0int } else { 1int }),
    ;
}

/// Unpacks `cell_count` entries of `bits_per_entry` bits from `longs` and
/// checks each against a palette of `palette_len` entries.
pub fn unpack_palette_grid(bits_per_entry: u32, cell_count: usize, palette_len: usize, longs: &[i64]) -> (r: Result<
    Vec<u32>,
    UnpackError,
>)
    ensures
        unpack_ok(r, longs@, bits_per_entry as nat, cell_count as nat, palette_len as nat),
        r is Err ==> unpack_failure(r->Err_0, longs@, bits_per_entry as nat, cell_count as nat, palette_len as nat),
{
    if bits_per_entry == 0 || bits_per_entry > 32 {
        return Err(UnpackError::BadBitsPerEntry);
    }
    let b = bits_per_entry as usize;
    let per: usize = 64 / b;
    proof {
        lemma_div_is_ordered_by_denominator(64, b as int, 32);
        lemma_div_is_ordered_by_denominator(cell_count as int, 2, per as int);
    }
    let needed: usize = cell_count / per + if cell_count % per == 0 {
        0
    } else {
        1
    };
    proof {
        lemma_needed(cell_count as int, longs@.len() as int, per as int, needed as int);
    }
    if longs.len() < needed {
        return Err(UnpackError::InsufficientPackedData);
    }
    proof {
        lemma_u64_pow2_no_overflow(b as nat);
        lemma_u64_shl_is_mul(1, b as u64);
        lemma_pow2_pos(b as nat);
        lemma2_to64();
        if b < 32 {
            lemma_pow2_strictly_increases(b as nat, 32);
        }
    }
    let mask: u64 = (1u64 << (b as u64)) - 1;
    assert(mask == low_bits_mask(b as nat));
    let mut out: Vec<u32> = Vec::new();
    let mut k: usize = 0;
    while k < cell_count
        invariant
            1 <= b <= 32,
            b == bits_per_entry,
            per == 64int / b as int,
            enough_data(longs@.len(), b as nat, cell_count as nat),
            mask == low_bits_mask(b as nat),
            0 < pow2(b as nat) <= 0x1_0000_0000,
            k <= cell_count,
            out@.len() == k,
            forall|j: int| 0 <= j < k ==> #[trigger] out@[j] == entry_at(longs@, b as nat, j),
            forall|j: int| 0 <= j < k ==> #[trigger] entry_at(longs@, b as nat, j) < palette_len,
        decreases cell_count - k,
    {
        proof {
            lemma_cell_position(k as int, cell_count as int, longs@.len() as int, b as int, per as int);
        }
        let w = word(longs[k / per]);
        let shift: u64 = (b * (k % per)) as u64;
        let v: u64 = (w >> shift) & mask;
        proof {
            lemma_u64_shr_is_div(w, shift);
            lemma_u64_low_bits_mask_is_mod(w >> shift, b as nat);
            assert(mask == low_bits_mask(b as nat) as u64);
            assert(v == (w >> shift) % (pow2(b as nat) as u64));
            assert(v == entry_at(longs@, b as nat, k as int));
            assert(v < pow2(b as nat));
        }
        if v >= palette_len as u64 {
            return Err(UnpackError::PaletteIndexOutOfRange { cell: k, index: v as u32 });
        }
        out.push(v as u32);
        k = k + 1;
    }
    Ok(out)
}

/// The least `n` with `2^n >= p`.
pub open spec fn ceil_log2(p: nat) -> nat
    decreases p,
{
    if p <= 1 {
        0
    } else {
        1 + ceil_log2(((p + 1) / 2) as nat)
    }
}

/// Bits per entry for a palette of `p` entries, at least `min_bits`.
pub open spec fn bits_for(p: nat, min_bits: nat) -> nat {
    if ceil_log2(p) > min_bits {
        ceil_log2(p)
    } else {
        min_bits
    }
}

proof fn lemma_ceil_log2_bound(p: nat, k: nat)
    requires
        p <= pow2(k),
    ensures
        ceil_log2(p) <= k,
    decreases p,
{
    if p > 1 {
        if k == 0 {
            lemma2_to64();
        } else {
            vstd::arithmetic::power2::lemma_pow2_unfold(k);
            lemma_ceil_log2_bound(((p + 1) / 2) as nat, (k - 1) as nat);
        }
    }
}

/// Bits per entry for a palette of `palette_len` entries: the width of the
/// largest index, but never below `min_bits`.
pub fn bits_per_entry(palette_len: usize, min_bits: u32) -> (r: u32)
    ensures
        r == bits_for(palette_len as nat, min_bits as nat),
{
    proof {
        lemma2_to64();
        lemma_ceil_log2_bound(palette_len as nat, 64);
    }
    let mut q: usize = palette_len;
    let mut n: u32 = 0;
    while q > 1
        invariant
            n + ceil_log2(q as nat) == ceil_log2(palette_len as nat),
            ceil_log2(palette_len as nat) <= 64,
        decreases q,
    {
        q = q / 2 + q % 2;
        n = n + 1;
    }
    if n > min_bits {
        n
    } else {
        min_bits
    }
}

/// Decodes a grid of `cell_count` palette indices. A single-entry palette
/// gives all zeros whatever the data; otherwise absent data counts as an
/// empty long array.
pub fn decode_grid(palette_len: usize, cell_count: usize, min_bits: u32, data: Option<&[i64]>) -> (r: Result<
    Vec<u32>,
    UnpackError,
>)
    requires
        1 <= min_bits <= 32,
    ensures
        palette_len == 1 ==> r is Ok && r->Ok_0@ == Seq::new(cell_count as nat, |i: int| 0u32),
        palette_len != 1 ==> unpack_ok(
            r,
            match data {
                Some(d) => d@,
                None => Seq::<i64>::empty(),
            },
            bits_for(palette_len as nat, min_bits as nat),
            cell_count as nat,
            palette_len as nat,
        ),
        r is Err ==> palette_len != 1 && unpack_failure(
            r->Err_0,
            match data {
                Some(d) => d@,
                None => Seq::<i64>::empty(),
            },
            bits_for(palette_len as nat, min_bits as nat),
            cell_count as nat,
            palette_len as nat,
        ),
{
    if palette_len == 1 {
        let mut out: Vec<u32> = Vec::new();
        let mut i: usize = 0;
        while i < cell_count
            invariant
                i <= cell_count,
                out@ == Seq::new(i as nat, |j: int| 0u32),
            decreases cell_count - i,
        {
            out.push(0);
            i = i + 1;
            assert(out@ =~= Seq::new(i as nat, |j: int| 0u32));
        }
        return Ok(out);
    }
    let b = bits_per_entry(palette_len, min_bits);
    let empty: Vec<i64> = Vec::new();
    let longs: &[i64] = match data {
        Some(d) => d,
        None => empty.as_slice(),
    };
    unpack_palette_grid(b, cell_count, palette_len, longs)
}

/// A successful unpack yields exactly `c` entries, each below the palette size.
pub proof fn law_grid_in_palette(r: Result<Vec<u32>, UnpackError>, longs: Seq<i64>, b: nat, c: nat, p: nat)
    requires
        unpack_ok(r, longs, b, c, p),
        r is Ok,
    ensures
        r->Ok_0@.len() == c,
        forall|k: int| 0 <= k < c ==> 0 <= #[trigger] r->Ok_0@[k] < p,
{
    assert forall|k: int| 0 <= k < c implies 0 <= #[trigger] r->Ok_0@[k] < p by {
        assert(entry_at(longs, b, k) < p);
    }
}

/// Two values that agree below bit `big` agree below every lower bit `t`.
proof fn lemma_low_bits_agree(w1: nat, w2: nat, t: nat, big: nat)
    requires
        t <= big,
        w1 % pow2(big) == w2 % pow2(big),
    ensures
        w1 % pow2(t) == w2 % pow2(t),
{
    lemma_pow2_pos(t);
    lemma_pow2_pos((big - t) as nat);
    lemma_pow2_adds(t, (big - t) as nat);
    lemma_mod_mod(w1 as int, pow2(t) as int, pow2((big - t) as nat) as int);
    lemma_mod_mod(w2 as int, pow2(t) as int, pow2((big - t) as nat) as int);
}

/// The `b` bits from bit `s` on depend only on the bits below `s + b`.
proof fn lemma_field_from_low_bits(w1: nat, w2: nat, s: nat, b: nat)
    requires
        w1 % pow2(s + b) == w2 % pow2(s + b),
    ensures
        (w1 / pow2(s)) % pow2(b) == (w2 / pow2(s)) % pow2(b),
{
    lemma_pow2_pos(s);
    lemma_pow2_pos(b);
    lemma_pow2_adds(s, b);
    lemma_low_bits_agree(w1, w2, s, s + b);
    lemma_mod_breakdown(w1 as int, pow2(s) as int, pow2(b) as int);
    lemma_mod_breakdown(w2 as int, pow2(s) as int, pow2(b) as int);
    let y = pow2(s) as int;
    let q1 = (w1 / pow2(s)) % pow2(b);
    let q2 = (w2 / pow2(s)) % pow2(b);
    assert(y * q1 == y * q2);
    assert(q1 == q2) by (nonlinear_arith)
        requires
            y > 0,
            y * q1 == y * q2,
    ;
}

/// Padding bits are never read: two long arrays whose longs agree on their
/// low `b * (64 / b)` bits (the ones that hold entries) unpack to the same
/// entries, whatever their high padding bits hold.
pub proof fn law_padding_ignored(l1: Seq<i64>, l2: Seq<i64>, b: nat, k: int)
    requires
        bits_ok(b),
        l1.len() == l2.len(),
        0 <= k < l1.len() * per_long(b),
        forall|j: int|
            0 <= j < l1.len() ==> #[trigger] (word_of(l1[j]) % pow2(b * per_long(b))) == word_of(l2[j]) % pow2(
                b * per_long(b),
            ),
    ensures
        entry_at(l1, b, k) == entry_at(l2, b, k),
{
    let per = per_long(b) as int;
    lemma_cell_position(k, l1.len() * per, l1.len() as int, b as int, per);
    let j = k / per;
    let m = k % per;
    let sh = (b * m) as nat;
    assert(sh + b <= b * per) by (nonlinear_arith)
        requires
            0 <= m < per,
            sh == b * m,
    ;
    assert(word_of(l1[j]) % pow2(b * per_long(b)) == word_of(l2[j]) % pow2(b * per_long(b)));
    lemma_low_bits_agree(word_of(l1[j]), word_of(l2[j]), sh + b, b * per_long(b));
    lemma_field_from_low_bits(word_of(l1[j]), word_of(l2[j]), sh, b);
}

/// When `b` divides 64 the entries of a long fill it: there is no padding.
pub proof fn law_no_padding(b: nat)
    requires
        bits_ok(b),
        64nat % b == 0,
    ensures
        b * per_long(b) == 64,
{
    lemma_fundamental_div_mod(64, b as int);
}

} // verus!

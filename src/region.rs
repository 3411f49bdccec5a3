//! Region files: the 8 KiB index header and the chunk slots it describes.
//!
//! The first 4096 bytes hold one location per slot: a three-byte sector
//! offset and a one-byte sector count. The next 4096 bytes hold one
//! four-byte modification time per slot. Slot `i` is the chunk at
//! `(i % 32, i / 32)` within the region.

use vstd::prelude::*;
use vstd::utf8::encode_utf8;
use crate::cursor::{be_at, Cursor};
use crate::error::{ChunkError, RegionError};
use crate::chunk::{pipeline_result, Chunk};
use crate::frame::{frame_of, read_frame};

verus! {

pub const SECTOR_BYTES: usize = 4096;

pub const HEADER_BYTES: usize = 8192;

pub const SLOT_COUNT: usize = 1024;

/// One slot of the region index.
#[derive(Debug, Clone, Copy, PartialEq, Eq, Structural)]
pub struct RegionHeader {
    /// Start of the chunk, in 4 KiB sectors from the start of the file.
    pub offset: u32,
    /// Length of the chunk, in sectors.
    pub sectors: u8,
    /// Last modification, in epoch seconds.
    pub updated: u32,
}

impl RegionHeader {
    pub open spec fn present(&self) -> bool {
        self.offset > 0 && self.sectors > 0
    }

    /// Whether the slot holds a chunk.
    pub fn is_present(&self) -> (r: bool)
        ensures
            r == self.present(),
    {
        self.offset > 0 && self.sectors > 0
    }
}

/// The slot that the header bytes `h` give for index `i`.
pub open spec fn slot_of(h: Seq<u8>, i: int) -> RegionHeader {
    RegionHeader {
        offset: be_at(h, 4 * i, 3) as u32,
        sectors: h[4 * i + 3],
        updated: be_at(h, 4096 + 4 * i, 4) as u32,
    }
}

/// Reads the 1024 slots of a region index from the start of a file.
pub fn read_region_index(file: &[u8]) -> (r: Result<Vec<RegionHeader>, RegionError>)
    ensures
        file@.len() < HEADER_BYTES <==> r == Err::<Vec<RegionHeader>, RegionError>(
            RegionError::TruncatedRegionHeader,
        ),
        r is Ok ==> r->Ok_0@.len() == SLOT_COUNT && forall|i: int|
            0 <= i < SLOT_COUNT ==> #[trigger] r->Ok_0@[i] == slot_of(file@, i),
        r is Ok || r == Err::<Vec<RegionHeader>, RegionError>(RegionError::TruncatedRegionHeader),
{
    if file.len() < HEADER_BYTES {
        return Err(RegionError::TruncatedRegionHeader);
    }
    let mut slots: Vec<RegionHeader> = Vec::new();
    let mut c = Cursor::new(file);
    let mut i: usize = 0;
    while i < SLOT_COUNT
        invariant
            c.bytes@ == file@,
            file@.len() >= HEADER_BYTES,
            i <= SLOT_COUNT,
            slots@.len() == i,
            forall|j: int| 0 <= j < i ==> #[trigger] slots@[j] == slot_of(file@, j),
        decreases SLOT_COUNT - i,
    {
        c.pos = 4 * i;
        let offset = c.read_uint(3);
        let sectors = c.read_u8();
        c.pos = 4096 + 4 * i;
        let updated = c.read_u32();
        match (offset, sectors, updated) {
            (Ok(offset), Ok(sectors), Ok(updated)) => {
                slots.push(RegionHeader { offset: offset as u32, sectors, updated });
            },
            _ => {
                return Err(RegionError::TruncatedRegionHeader);
            },
        }
        i = i + 1;
    }
    Ok(slots)
}

/// Indices below `n` of the present slots, in order.
pub open spec fn present_indices(h: Seq<RegionHeader>, n: int) -> Seq<usize>
    decreases n,
{
    if n <= 0 {
        Seq::empty()
    } else if h[n - 1].present() {
        present_indices(h, n - 1).push((n - 1) as usize)
    } else {
        present_indices(h, n - 1)
    }
}

/// The indices of the present slots, in slot order.
pub fn present_slots(slots: &Vec<RegionHeader>) -> (r: Vec<usize>)
    ensures
        r@ == present_indices(slots@, slots@.len() as int),
{
    let mut out: Vec<usize> = Vec::new();
    let mut i: usize = 0;
    while i < slots.len()
        invariant
            i <= slots@.len(),
            out@ == present_indices(slots@, i as int),
        decreases slots@.len() - i,
    {
        if slots[i].is_present() {
            out.push(i);
        }
        i = i + 1;
    }
    out
}

/// The set of slots reported as present is exactly the set of slots whose
/// sector offset and sector count are both non-zero.
pub proof fn lemma_present_slots_exact(h: Seq<RegionHeader>, n: int, i: usize)
    requires
        0 <= n <= h.len(),
        h.len() <= usize::MAX,
    ensures
        present_indices(h, n).contains(i) <==> (i < n && h[i as int].present()),
    decreases n,
{
    if n > 0 {
        lemma_present_slots_exact(h, n - 1, i);
        let p = present_indices(h, n - 1);
        let x = (n - 1) as usize;
        if h[n - 1].present() {
            let q = p.push(x);
            assert(q[p.len() as int] == x);
            if q.contains(i) && i != x {
                let k = choose|k: int| 0 <= k < q.len() && #[trigger] q[k] == i;
                assert(p[k] == i);
            }
            if p.contains(i) {
                let k = choose|k: int| 0 <= k < p.len() && #[trigger] p[k] == i;
                assert(q[k] == i);
            }
        }
    }
}

/// The byte range of a present slot, when it lies past the header and inside the file.
pub open spec fn slot_range(file_len: nat, h: RegionHeader) -> Option<(int, int)> {
    let start = h.offset * 4096;
    let end = (h.offset + h.sectors) * 4096;
    if h.offset < 2 || end > file_len {
        None
    } else {
        Some((start as int, end as int))
    }
}

/// The compression byte and compressed payload of the chunk in a slot.
pub open spec fn slot_frame(file: Seq<u8>, h: RegionHeader) -> Result<(u8, Seq<u8>), ChunkError> {
    match slot_range(file.len(), h) {
        None => Err(ChunkError::OutOfRangeSlot),
        Some((start, end)) => frame_of(file, start, end),
    }
}

/// Slices the framed chunk of a slot out of the region file.
pub fn chunk_frame<'a>(file: &'a [u8], h: &RegionHeader) -> (r: Result<(u8, &'a [u8]), ChunkError>)
    ensures
        match r {
            Ok((c, p)) => slot_frame(file@, *h) == Ok::<(u8, Seq<u8>), ChunkError>((c, p@)),
            Err(e) => slot_frame(file@, *h) == Err::<(u8, Seq<u8>), ChunkError>(e),
        },
{
    if h.offset < 2 {
        return Err(ChunkError::OutOfRangeSlot);
    }
    let sectors: u64 = h.offset as u64 + h.sectors as u64;
    if sectors > (file.len() / SECTOR_BYTES) as u64 {
        return Err(ChunkError::OutOfRangeSlot);
    }
    let start = (h.offset as u64 * 4096) as usize;
    let end = (sectors * 4096) as usize;
    read_frame(file, start, end)
}

// ---------------------------------------------------------------------------
// Region file names: r.<x>.<z>.mca or r.<x>.<z>.mcr

pub open spec fn is_digit(b: u8) -> bool {
    48 <= b <= 57
}

pub open spec fn digits_value(s: Seq<u8>) -> int
    decreases s.len(),
{
    if s.len() == 0 {
        0
    } else {
        digits_value(s.drop_last()) * 10 + (s.last() - 48)
    }
}

/// A decimal integer with an optional leading minus sign.
pub open spec fn int_text(s: Seq<u8>) -> Option<int> {
    let d = digits_part(s);
    if d.len() > 0 && all_digits(d) {
        Some(if is_negative(s) { -digits_value(d) } else { digits_value(d) })
    } else {
        None
    }
}

pub open spec fn is_negative(s: Seq<u8>) -> bool {
    s.len() > 0 && s[0] == 45
}

pub open spec fn digits_part(s: Seq<u8>) -> Seq<u8> {
    if is_negative(s) {
        s.subrange(1, s.len() as int)
    } else {
        s
    }
}

pub open spec fn all_digits(d: Seq<u8>) -> bool {
    forall|i: int| 0 <= i < d.len() ==> is_digit(#[trigger] d[i])
}

/// Index of the first `.` in `s` from `i` on, or `s.len()`.
pub open spec fn dot_from(s: Seq<u8>, i: int) -> int
    decreases s.len() - i,
{
    if i >= s.len() || i < 0 {
        s.len() as int
    } else if s[i] == 46 {
        i
    } else {
        dot_from(s, i + 1)
    }
}

pub open spec fn fits_i32(v: int) -> bool {
    -0x8000_0000 <= v < 0x8000_0000
}

/// The region coordinates that a file name gives.
pub open spec fn region_coords(s: Seq<u8>) -> Option<(i32, i32)> {
    if s.len() < 6 || s[0] != 114 || s[1] != 46 {
        None
    } else {
        let ext = s.subrange(s.len() - 4, s.len() as int);
        if ext != seq![46u8, 109, 99, 97] && ext != seq![46u8, 109, 99, 114] {
            None
        } else {
            let m = s.subrange(2, s.len() - 4);
            let d = dot_from(m, 0);
            if d >= m.len() {
                None
            } else {
                let a = int_text(m.subrange(0, d));
                let b = int_text(m.subrange(d + 1, m.len() as int));
                if a is Some && b is Some && fits_i32(a->Some_0) && fits_i32(b->Some_0) {
                    Some((a->Some_0 as i32, b->Some_0 as i32))
                } else {
                    None
                }
            }
        }
    }
}

pub proof fn lemma_digits_value_nonneg(s: Seq<u8>)
    requires
        all_digits(s),
    ensures
        digits_value(s) >= 0,
    decreases s.len(),
{
    if s.len() > 0 {
        lemma_digits_value_nonneg(s.drop_last());
    }
}

/// A longer run of digits is worth at least as much as its prefix.
pub proof fn lemma_digits_prefix(s: Seq<u8>, p: int)
    requires
        0 <= p <= s.len(),
        all_digits(s),
    ensures
        digits_value(s) >= digits_value(s.subrange(0, p)),
    decreases s.len(),
{
    if p < s.len() {
        let t = s.drop_last();
        assert(t.subrange(0, p) =~= s.subrange(0, p));
        lemma_digits_prefix(t, p);
        lemma_digits_value_nonneg(t);
    } else {
        assert(s.subrange(0, p) =~= s);
    }
}

/// Parses a decimal integer with an optional minus sign, within `i32`.
fn parse_int(s: &[u8]) -> (r: Option<i32>)
    ensures
        match r {
            Some(v) => int_text(s@) == Some(v as int),
            None => int_text(s@) is None || !fits_i32(int_text(s@)->Some_0),
        },
{
    let neg = s.len() > 0 && s[0] == 45;
    let start: usize = if neg { 1 } else { 0 };
    let ghost d = digits_part(s@);
    assert(neg == is_negative(s@));
    if s.len() <= start {
        return None;
    }
    let mut acc: i64 = 0;
    let mut i: usize = start;
    while i < s.len()
        invariant
            start <= i <= s@.len(),
            d == s@.subrange(start as int, s@.len() as int),
            d == digits_part(s@),
            neg == is_negative(s@),
            start == (if neg { 1usize } else { 0usize }),
            forall|k: int| start <= k < i ==> is_digit(#[trigger] s@[k]),
            acc == digits_value(s@.subrange(start as int, i as int)),
            0 <= acc <= 0x8000_0000,
        decreases s@.len() - i,
    {
        let b = s[i];
        if b < 48 || b > 57 {
            assert(d[i - start] == b);
            assert(!is_digit(d[i - start]));
            return None;
        }
        assert(s@.subrange(start as int, i + 1).drop_last() =~= s@.subrange(start as int, i as int));
        acc = acc * 10 + (b - 48) as i64;
        i = i + 1;
        if acc > 0x8000_0000 {
            proof {
                if int_text(s@) is Some {
                    assert(forall|k: int| 0 <= k < d.len() ==> is_digit(#[trigger] d[k]));
                    assert(s@.subrange(start as int, i as int) =~= d.subrange(0, i - start));
                    lemma_digits_prefix(d, i - start);
                }
            }
            return None;
        }
    }
    assert(s@.subrange(start as int, i as int) =~= d);
    if neg {
        Some((-acc) as i32)
    } else if acc > 0x7fff_ffff {
        None
    } else {
        Some(acc as i32)
    }
}


/// The region coordinates in a file name `r.<x>.<z>.mca` or `r.<x>.<z>.mcr`.
pub fn parse_region_name(name: &str) -> (r: Option<(i32, i32)>)
    ensures
        r == region_coords(encode_utf8(name@)),
{
    let s = name.as_bytes();
    let n = s.len();
    if n < 6 || s[0] != 114 || s[1] != 46 {
        return None;
    }
    let ghost ext = s@.subrange(n - 4, n as int);
    if !(s[n - 4] == 46 && s[n - 3] == 109 && s[n - 2] == 99 && (s[n - 1] == 97 || s[n - 1] == 114)) {
        assert(ext != seq![46u8, 109, 99, 97] && ext != seq![46u8, 109, 99, 114]) by {
            if ext == seq![46u8, 109, 99, 97] {
                assert(ext[0] == s@[n - 4] && ext[1] == s@[n - 3] && ext[2] == s@[n - 2] && ext[3] == s@[n - 1]);
            }
            if ext == seq![46u8, 109, 99, 114] {
                assert(ext[0] == s@[n - 4] && ext[1] == s@[n - 3] && ext[2] == s@[n - 2] && ext[3] == s@[n - 1]);
            }
        }
        return None;
    }
    assert(ext =~= seq![46u8, 109, 99, 97] || ext =~= seq![46u8, 109, 99, 114]);
    let m = &s[2..n - 4];
    let mut d: usize = 0;
    while d < m.len() && m[d] != 46
        invariant
            d <= m@.len(),
            dot_from(m@, 0) == dot_from(m@, d as int),
        decreases m@.len() - d,
    {
        d = d + 1;
    }
    if d >= m.len() {
        return None;
    }
    let a = parse_int(&m[0..d]);
    let b = parse_int(&m[d + 1..m.len()]);
    match (a, b) {
        (Some(x), Some(z)) => Some((x, z)),
        _ => None,
    }
}

/// A chunk read from a present slot.
#[derive(Debug)]
pub struct LoadedChunk {
    /// Slot index `cz * 32 + cx`.
    pub slot: usize,
    /// Block x of the chunk's north-west corner.
    pub x: i64,
    /// Block z of the chunk's north-west corner.
    pub z: i64,
    pub updated: u32,
    pub chunk: Result<Chunk, ChunkError>,
}

/// A region file: its coordinates, its index and the chunks of its present slots.
#[derive(Debug)]
pub struct Region {
    pub region_x: i32,
    pub region_z: i32,
    /// Block x of the region's north-west corner.
    pub x: i64,
    /// Block z of the region's north-west corner.
    pub z: i64,
    pub headers: Vec<RegionHeader>,
    pub chunks: Vec<LoadedChunk>,
}

/// Reads the chunk of one slot: frame, decompression, parse, projection.
pub fn load_chunk(file: &[u8], h: &RegionHeader) -> (r: Result<Chunk, ChunkError>)
    ensures
        match slot_frame(file@, *h) {
            Err(e) => r == Err::<Chunk, ChunkError>(e),
            Ok((c, p)) => pipeline_result(r, c, p),
        },
{
    let (c, p) = chunk_frame(file, h)?;
    Chunk::from_compressed(c, p)
}

/// The outcome of opening a region file named `name` with contents `file`.
pub open spec fn region_result(r: Result<Region, RegionError>, name: Seq<char>, file: Seq<u8>) -> bool {
    &&& region_coords(encode_utf8(name)) is None ==> r == Err::<Region, RegionError>(RegionError::BadFileName)
    &&& region_coords(encode_utf8(name)) is Some && file.len() < HEADER_BYTES ==> r == Err::<Region, RegionError>(
        RegionError::TruncatedRegionHeader,
    )
    &&& region_coords(encode_utf8(name)) is Some && file.len() >= HEADER_BYTES ==> r is Ok
    &&& r is Ok ==> {
        let reg = r->Ok_0;
        &&& region_coords(encode_utf8(name)) == Some((reg.region_x, reg.region_z))
        &&& reg.x == reg.region_x * 512
        &&& reg.z == reg.region_z * 512
        &&& reg.headers@.len() == SLOT_COUNT
        &&& forall|i: int| 0 <= i < SLOT_COUNT ==> #[trigger] reg.headers@[i] == slot_of(file, i)
        &&& reg.chunks_ok(file)
    }
}

impl Region {
    /// Opens a region from its file name and contents.
    pub fn new(file_name: &str, file: &[u8]) -> (r: Result<Region, RegionError>)
        ensures
            region_result(r, file_name@, file@),
    {
        let (region_x, region_z) = match parse_region_name(file_name) {
            Some(c) => c,
            None => {
                return Err(RegionError::BadFileName);
            },
        };
        let mut region = Region {
            region_x,
            region_z,
            x: region_x as i64 * 512,
            z: region_z as i64 * 512,
            headers: Vec::new(),
            chunks: Vec::new(),
        };
        region.load_chunks(file)?;
        Ok(region)
    }

    /// The corner coordinates follow the region coordinates.
    pub open spec fn wf(&self) -> bool {
        &&& self.x == self.region_x * 512
        &&& self.z == self.region_z * 512
    }

    /// One loaded chunk per present slot, in slot order, each the outcome of
    /// reading that slot.
    pub open spec fn chunks_ok(&self, file: Seq<u8>) -> bool {
        let present = present_indices(self.headers@, self.headers@.len() as int);
        &&& self.chunks@.len() == present.len()
        &&& forall|j: int|
            0 <= j < present.len() ==> {
                let c = #[trigger] self.chunks@[j];
                let h = self.headers@[c.slot as int];
                &&& c.slot == present[j]
                &&& c.x == self.x + (c.slot % 32) * 16
                &&& c.z == self.z + (c.slot / 32) * 16
                &&& c.updated == h.updated
                &&& match slot_frame(file, h) {
                    Err(e) => c.chunk == Err::<Chunk, ChunkError>(e),
                    Ok((cb, p)) => pipeline_result(c.chunk, cb, p),
                }
            }
    }

    /// Reads the index from `file`, then the chunk of every present slot.
    pub fn load_chunks(&mut self, file: &[u8]) -> (r: Result<(), RegionError>)
        requires
            old(self).wf(),
        ensures
            final(self).wf(),
            final(self).region_x == old(self).region_x,
            final(self).region_z == old(self).region_z,
            final(self).x == old(self).x,
            final(self).z == old(self).z,
            file@.len() < HEADER_BYTES <==> r == Err::<(), RegionError>(RegionError::TruncatedRegionHeader),
            r is Ok || r == Err::<(), RegionError>(RegionError::TruncatedRegionHeader),
            r is Err ==> *final(self) == *old(self),
            r is Ok ==> {
                &&& final(self).headers@.len() == SLOT_COUNT
                &&& forall|i: int| 0 <= i < SLOT_COUNT ==> #[trigger] final(self).headers@[i] == slot_of(file@, i)
                &&& final(self).chunks_ok(file@)
            },
    {
        let headers = read_region_index(file)?;
        let slots = present_slots(&headers);
        let mut chunks: Vec<LoadedChunk> = Vec::new();
        let mut j: usize = 0;
        assert(headers@.len() == headers.len());
        proof {
            lemma_present_in_range(headers@, headers@.len() as int);
        }
        while j < slots.len()
            invariant
                *self == *old(self),
                self.wf(),
                headers@.len() == SLOT_COUNT,
                slots@ == present_indices(headers@, headers@.len() as int),
                forall|k: int| 0 <= k < slots@.len() ==> #[trigger] slots@[k] < headers@.len(),
                j <= slots@.len(),
                chunks@.len() == j,
                forall|k: int|
                    0 <= k < j ==> {
                        let c = #[trigger] chunks@[k];
                        let h = headers@[c.slot as int];
                        &&& c.slot == slots@[k]
                        &&& c.x == self.x + (c.slot % 32) * 16
                        &&& c.z == self.z + (c.slot / 32) * 16
                        &&& c.updated == h.updated
                        &&& match slot_frame(file@, h) {
                            Err(e) => c.chunk == Err::<Chunk, ChunkError>(e),
                            Ok((cb, p)) => pipeline_result(c.chunk, cb, p),
                        }
                    },
            decreases slots@.len() - j,
        {
            let slot = slots[j];
            let h = &headers[slot];
            let chunk = load_chunk(file, h);
            let x = self.x + ((slot % 32) * 16) as i64;
            let z = self.z + ((slot / 32) * 16) as i64;
            chunks.push(LoadedChunk { slot, x, z, updated: h.updated, chunk });
            j = j + 1;
        }
        self.headers = headers;
        self.chunks = chunks;
        Ok(())
    }
}

/// After a region is read from `file`, a chunk is reported for slot `i`
/// exactly when the file's index gives slot `i` a non-zero sector offset
/// and a non-zero sector count.
pub proof fn law_reported_chunks(reg: Region, file: Seq<u8>, i: usize)
    requires
        reg.headers@.len() == SLOT_COUNT,
        forall|k: int| 0 <= k < SLOT_COUNT ==> #[trigger] reg.headers@[k] == slot_of(file, k),
        reg.chunks_ok(file),
    ensures
        (exists|j: int| 0 <= j < reg.chunks@.len() && #[trigger] reg.chunks@[j].slot == i) <==> (i < SLOT_COUNT
            && slot_of(file, i as int).offset > 0 && slot_of(file, i as int).sectors > 0),
{
    let h = reg.headers@;
    let present = present_indices(h, h.len() as int);
    lemma_present_slots_exact(h, h.len() as int, i);
    if exists|j: int| 0 <= j < reg.chunks@.len() && #[trigger] reg.chunks@[j].slot == i {
        let j = choose|j: int| 0 <= j < reg.chunks@.len() && #[trigger] reg.chunks@[j].slot == i;
        assert(present[j] == i);
    }
    if i < SLOT_COUNT && slot_of(file, i as int).offset > 0 && slot_of(file, i as int).sectors > 0 {
        assert(h[i as int].present());
        let j = choose|j: int| 0 <= j < present.len() && present[j] == i;
        assert(reg.chunks@[j].slot == i);
    }
}

proof fn lemma_present_in_range(h: Seq<RegionHeader>, n: int)
    requires
        0 <= n <= h.len(),
        h.len() <= usize::MAX,
    ensures
        forall|k: int| 0 <= k < present_indices(h, n).len() ==> #[trigger] present_indices(h, n)[k] < n,
    decreases n,
{
    if n > 0 {
        lemma_present_in_range(h, n - 1);
        let p = present_indices(h, n - 1);
        if h[n - 1].present() {
            let q = p.push((n - 1) as usize);
            assert forall|k: int| 0 <= k < q.len() implies #[trigger] q[k] < n by {
                if k < p.len() {
                    assert(q[k] == p[k]);
                }
            }
        }
    }
}

} // verus!

//! Projection of one chunk section: block states, biomes and light.

use vstd::prelude::*;
use crate::error::ChunkError;
use crate::fields::{
    byte_field, bytes_field, compound_field, list_field, longs_field, read_byte, read_bytes,
    read_compound, read_longs, read_string, string_field,
};
use crate::grid::{
    all_in_palette, bits_for, bits_ok, decode_grid, enough_data, entry_at, unpack_failure, UnpackError,
};
use crate::tag::{
    first_named, find_in, same_str, lemma_payloads_view, lemma_tags_view, payloads_view, tags_view,
    tag_view, Payload, PayloadV, Tag, TagType, TagV,
};

verus! {

pub const BLOCK_CELLS: usize = 4096;

pub const BIOME_CELLS: usize = 64;

/// A block state: a block name and its properties.
#[derive(Debug)]
pub struct BlockState {
    pub name: String,
    pub properties: Vec<(String, String)>,
}

/// The block palette of a section and one palette index per block.
#[derive(Debug)]
pub struct BlockStates {
    pub palette: Vec<BlockState>,
    pub data: Vec<u32>,
}

/// The biome palette of a section and one palette index per 4x4x4 cell.
#[derive(Debug)]
pub struct Biomes {
    pub palette: Vec<String>,
    pub data: Vec<u32>,
}

/// One 16x16x16 section of a chunk.
#[derive(Debug)]
pub struct ChunkSection {
    pub y: i8,
    pub block_states: BlockStates,
    pub biomes: Biomes,
    /// 4096 nibbles, or none when the section stores no block light.
    pub block_light: Vec<u8>,
    /// 4096 nibbles, or none when the section stores no sky light.
    pub sky_light: Vec<u8>,
}

/// Two nibbles per byte, the low nibble first.
pub open spec fn nibbles_of(b: Seq<u8>) -> Seq<u8> {
    Seq::new(2 * b.len(), |i: int| if i % 2 == 0 { b[i / 2] % 16 } else { b[i / 2] / 16 })
}

/// Whether some tag of `c` is named `n`.
pub open spec fn name_in(c: Seq<TagV>, n: Seq<char>) -> bool {
    exists|j: int| 0 <= j < c.len() && #[trigger] c[j].name == n
}

/// The String-valued children of a compound, as name and value, in order.
/// A name counts at its first occurrence only: a later child of the same
/// name, String or not, is passed over.
pub open spec fn strings_of(c: Seq<TagV>) -> Seq<(Seq<char>, Seq<char>)>
    decreases c.len(),
{
    if c.len() == 0 {
        Seq::empty()
    } else {
        let prev = strings_of(c.drop_last());
        let t = c.last();
        if t.payload is String && !name_in(c.drop_last(), t.name) {
            prev.push((t.name, t.payload->String_0))
        } else {
            prev
        }
    }
}

/// No two pairs share a name.
pub open spec fn keys_unique(p: Seq<(Seq<char>, Seq<char>)>) -> bool {
    forall|i: int, j: int| 0 <= i < j < p.len() ==> #[trigger] p[i].0 != #[trigger] p[j].0
}

/// The pairs that `strings_of` keeps have distinct names, each the name of
/// a child.
pub proof fn lemma_strings_of_unique(c: Seq<TagV>)
    ensures
        keys_unique(strings_of(c)),
        forall|k: int| 0 <= k < strings_of(c).len() ==> name_in(c, #[trigger] strings_of(c)[k].0),
    decreases c.len(),
{
    if c.len() > 0 {
        let d = c.drop_last();
        lemma_strings_of_unique(d);
        let prev = strings_of(d);
        assert forall|k: int| 0 <= k < prev.len() implies name_in(c, #[trigger] prev[k].0) by {
            let j = choose|j: int| 0 <= j < d.len() && #[trigger] d[j].name == prev[k].0;
            assert(c[j].name == prev[k].0);
        }
        let t = c.last();
        if t.payload is String && !name_in(d, t.name) {
            let cur = prev.push((t.name, t.payload->String_0));
            assert(c[c.len() - 1].name == t.name);
            assert forall|i: int, j: int| 0 <= i < j < cur.len() implies #[trigger] cur[i].0 != #[trigger] cur[j].0 by {
                if j == prev.len() {
                    assert(cur[i] == prev[i]);
                    if cur[i].0 == t.name {
                        assert(name_in(d, prev[i].0));
                    }
                } else {
                    assert(cur[i] == prev[i] && cur[j] == prev[j]);
                }
            }
            assert forall|k: int| 0 <= k < cur.len() implies name_in(c, #[trigger] cur[k].0) by {
                if k < prev.len() {
                    assert(cur[k] == prev[k]);
                }
            }
        }
    }
}

pub open spec fn pairs_view(v: Seq<(String, String)>) -> Seq<(Seq<char>, Seq<char>)> {
    v.map_values(|p: (String, String)| (p.0@, p.1@))
}

pub open spec fn strings_view(v: Seq<String>) -> Seq<Seq<char>> {
    v.map_values(|s: String| s@)
}

/// The values of a grid decoded against a palette of `p` entries.
pub open spec fn grid_values(d: Seq<u32>, p: nat, c: nat, min_bits: nat, longs: Option<Seq<i64>>) -> bool {
    &&& d.len() == c
    &&& p == 1 ==> forall|k: int| 0 <= k < c ==> d[k] == 0
    &&& p != 1 ==> forall|k: int|
        0 <= k < c ==> #[trigger] d[k] == entry_at(
            match longs {
                Some(l) => l,
                None => Seq::<i64>::empty(),
            },
            bits_for(p, min_bits),
            k,
        )
}

/// Whether a grid of `c` cells decodes against a palette of `p` entries.
pub open spec fn grid_decodes(p: nat, c: nat, min_bits: nat, longs: Option<Seq<i64>>) -> bool {
    let l = match longs {
        Some(l) => l,
        None => Seq::<i64>::empty(),
    };
    let b = bits_for(p, min_bits);
    p == 1 || (bits_ok(b) && enough_data(l.len(), b, c) && all_in_palette(l, b, c, p))
}

pub open spec fn block_state_valid(c: Seq<TagV>) -> bool {
    string_field(c, "Name"@) is Ok && compound_field(c, "Properties"@) is Ok
}

/// The error of a grid that does not decode: the unpacker's one failure.
pub open spec fn grid_failed(e: ChunkError, p: nat, c: nat, min_bits: nat, longs: Option<Seq<i64>>) -> bool {
    &&& e is Unpack
    &&& unpack_failure(
        e->Unpack_0,
        match longs {
            Some(l) => l,
            None => Seq::<i64>::empty(),
        },
        bits_for(p, min_bits),
        c,
        p,
    )
}

/// A `block_states` compound whose palette and data fields read: a palette
/// of valid compounds and, if present, a long array.
pub open spec fn block_palette_valid(c: Seq<TagV>) -> bool {
    let pal = list_field(c, "palette"@)->Ok_0.1;
    &&& list_field(c, "palette"@) is Ok
    &&& longs_field(c, "data"@) is Ok
    &&& forall|j: int|
        0 <= j < pal.len() ==> (#[trigger] pal[j] is Compound && block_state_valid(pal[j]->Compound_0))
}

/// Whether a `block_states` compound projects: a palette of compounds and
/// data that decodes against it.
pub open spec fn block_states_valid(c: Seq<TagV>) -> bool {
    &&& block_palette_valid(c)
    &&& grid_decodes(list_field(c, "palette"@)->Ok_0.1.len(), BLOCK_CELLS as nat, 4, longs_field(c, "data"@)->Ok_0)
}

/// A `biomes` compound whose palette and data fields read: a palette of
/// strings and, if present, a long array.
pub open spec fn biome_palette_valid(c: Seq<TagV>) -> bool {
    let pal = list_field(c, "palette"@)->Ok_0.1;
    &&& list_field(c, "palette"@) is Ok
    &&& longs_field(c, "data"@) is Ok
    &&& forall|j: int| 0 <= j < pal.len() ==> #[trigger] pal[j] is String
}

/// Whether a `biomes` compound projects: a palette of strings and data
/// that decodes against it.
pub open spec fn biomes_valid(c: Seq<TagV>) -> bool {
    &&& biome_palette_valid(c)
    &&& grid_decodes(list_field(c, "palette"@)->Ok_0.1.len(), BIOME_CELLS as nat, 1, longs_field(c, "data"@)->Ok_0)
}

/// A child of a section that is absent, or a compound that satisfies `valid`.
pub open spec fn absent_or(c: Seq<TagV>, name: Seq<char>, valid: spec_fn(Seq<TagV>) -> bool) -> bool {
    first_named(c, name) is None || (compound_field(c, name) is Ok && valid(compound_field(c, name)->Ok_0))
}

/// Whether a section compound projects. A section may lack block states or
/// biomes (a section that only carries light).
pub open spec fn section_valid(c: Seq<TagV>) -> bool {
    &&& byte_field(c, "Y"@, 0) is Ok
    &&& absent_or(c, "block_states"@, |b: Seq<TagV>| block_states_valid(b))
    &&& absent_or(c, "biomes"@, |b: Seq<TagV>| biomes_valid(b))
    &&& bytes_field(c, "BlockLight"@) is Ok
    &&& bytes_field(c, "SkyLight"@) is Ok
}

/// The error of a section whose block or biome data does not decode
/// against its palette, all earlier fields being readable.
pub open spec fn section_grid_failure(r: Result<ChunkSection, ChunkError>, c: Seq<TagV>) -> bool {
    let bs = compound_field(c, "block_states"@)->Ok_0;
    let bi = compound_field(c, "biomes"@)->Ok_0;
    &&& (byte_field(c, "Y"@, 0) is Ok && first_named(c, "block_states"@) is Some && compound_field(
        c,
        "block_states"@,
    ) is Ok && block_palette_valid(bs) && !block_states_valid(bs)) ==> r is Err && grid_failed(
        r->Err_0,
        list_field(bs, "palette"@)->Ok_0.1.len(),
        BLOCK_CELLS as nat,
        4,
        longs_field(bs, "data"@)->Ok_0,
    )
    &&& (byte_field(c, "Y"@, 0) is Ok && absent_or(c, "block_states"@, |b: Seq<TagV>| block_states_valid(b))
        && first_named(c, "biomes"@) is Some && compound_field(c, "biomes"@) is Ok && biome_palette_valid(bi)
        && !biomes_valid(bi)) ==> r is Err && grid_failed(
        r->Err_0,
        list_field(bi, "palette"@)->Ok_0.1.len(),
        BIOME_CELLS as nat,
        1,
        longs_field(bi, "data"@)->Ok_0,
    )
}

/// A grid of `c` zeros.
pub open spec fn zero_grid(d: Seq<u32>, c: nat) -> bool {
    d.len() == c && forall|k: int| 0 <= k < c ==> #[trigger] d[k] == 0
}

/// A palette entry of the block states.
pub open spec fn block_state_ok(b: BlockState, c: Seq<TagV>) -> bool {
    &&& string_field(c, "Name"@) == Ok::<Seq<char>, ChunkError>(b.name@)
    &&& compound_field(c, "Properties"@) is Ok
    &&& pairs_view(b.properties@) == strings_of(compound_field(c, "Properties"@)->Ok_0)
    &&& keys_unique(pairs_view(b.properties@))
}

pub open spec fn block_states_ok(b: BlockStates, c: Seq<TagV>) -> bool {
    let pal = list_field(c, "palette"@)->Ok_0.1;
    &&& list_field(c, "palette"@) is Ok
    &&& longs_field(c, "data"@) is Ok
    &&& b.palette@.len() == pal.len()
    &&& forall|j: int|
        0 <= j < pal.len() ==> (#[trigger] pal[j] is Compound && block_state_ok(
            b.palette@[j],
            pal[j]->Compound_0,
        ))
    &&& grid_values(b.data@, pal.len(), BLOCK_CELLS as nat, 4, longs_field(c, "data"@)->Ok_0)
}

pub open spec fn biomes_ok(b: Biomes, c: Seq<TagV>) -> bool {
    let pal = list_field(c, "palette"@)->Ok_0.1;
    &&& list_field(c, "palette"@) is Ok
    &&& longs_field(c, "data"@) is Ok
    &&& b.palette@.len() == pal.len()
    &&& forall|j: int|
        0 <= j < pal.len() ==> (#[trigger] pal[j] is String && b.palette@[j]@ == pal[j]->String_0)
    &&& grid_values(b.data@, pal.len(), BIOME_CELLS as nat, 1, longs_field(c, "data"@)->Ok_0)
}

/// What a successfully projected section holds, given its compound children.
pub open spec fn section_ok(s: ChunkSection, c: Seq<TagV>) -> bool {
    &&& byte_field(c, "Y"@, 0) == Ok::<i8, ChunkError>(s.y)
    &&& if first_named(c, "block_states"@) is None {
        s.block_states.palette@.len() == 0 && zero_grid(s.block_states.data@, BLOCK_CELLS as nat)
    } else {
        compound_field(c, "block_states"@) is Ok && block_states_ok(
            s.block_states,
            compound_field(c, "block_states"@)->Ok_0,
        )
    }
    &&& if first_named(c, "biomes"@) is None {
        s.biomes.palette@.len() == 0 && zero_grid(s.biomes.data@, BIOME_CELLS as nat)
    } else {
        compound_field(c, "biomes"@) is Ok && biomes_ok(s.biomes, compound_field(c, "biomes"@)->Ok_0)
    }
    &&& bytes_field(c, "BlockLight"@) is Ok
    &&& s.block_light@ == nibbles_of(bytes_field(c, "BlockLight"@)->Ok_0)
    &&& bytes_field(c, "SkyLight"@) is Ok
    &&& s.sky_light@ == nibbles_of(bytes_field(c, "SkyLight"@)->Ok_0)
}

/// Expands light bytes into nibbles, the low nibble of each byte first.
pub fn expand_nibbles(b: &Vec<u8>) -> (r: Vec<u8>)
    ensures
        r@ == nibbles_of(b@),
{
    let mut out: Vec<u8> = Vec::new();
    let mut i: usize = 0;
    while i < b.len()
        invariant
            i <= b@.len(),
            out@.len() == 2 * i,
            forall|k: int| 0 <= k < 2 * i ==> #[trigger] out@[k] == nibbles_of(b@)[k],
        decreases b@.len() - i,
    {
        let x = b[i];
        let lo = x & 0x0f;
        let hi = (x >> 4) & 0x0f;
        assert(lo == x % 16) by (bit_vector)
            requires
                lo == x & 0x0f,
        ;
        assert(hi == x / 16) by (bit_vector)
            requires
                hi == (x >> 4) & 0x0f,
        ;
        out.push(lo);
        out.push(hi);
        i = i + 1;
    }
    assert(out@ =~= nibbles_of(b@));
    out
}

/// Whether a child before index `i` has the same name as child `i`.
fn name_before(c: &Vec<Tag>, i: usize) -> (r: bool)
    requires
        i < c@.len(),
    ensures
        r == name_in(tags_view(c@).subrange(0, i as int), tags_view(c@)[i as int].name),
{
    let ghost tv = tags_view(c@);
    proof {
        lemma_tags_view(c@);
    }
    let mut j: usize = 0;
    while j < i
        invariant
            tv == tags_view(c@),
            tv.len() == c@.len(),
            forall|k: int| 0 <= k < tv.len() ==> #[trigger] tv[k] == tag_view(c@[k]),
            i < c@.len(),
            j <= i,
            forall|k: int| 0 <= k < j ==> #[trigger] tv[k].name != tv[i as int].name,
        decreases i - j,
    {
        if same_str(c[j].name.as_str(), c[i].name.as_str()) {
            assert(tv.subrange(0, i as int)[j as int].name == tv[i as int].name);
            return true;
        }
        j = j + 1;
    }
    assert forall|k: int| 0 <= k < i implies #[trigger] tv.subrange(0, i as int)[k].name != tv[i as int].name by {
        assert(tv.subrange(0, i as int)[k] == tv[k]);
    }
    false
}

/// The String-valued children of a compound, as name and value, each name
/// at its first occurrence.
pub fn string_pairs(c: &Vec<Tag>) -> (r: Vec<(String, String)>)
    ensures
        pairs_view(r@) == strings_of(tags_view(c@)),
        keys_unique(pairs_view(r@)),
{
    let ghost tv = tags_view(c@);
    proof {
        lemma_tags_view(c@);
        assert(tv.subrange(0, 0) =~= Seq::<TagV>::empty());
        assert(pairs_view(Seq::<(String, String)>::empty()) =~= Seq::<(Seq<char>, Seq<char>)>::empty());
    }
    let mut out: Vec<(String, String)> = Vec::new();
    let mut i: usize = 0;
    while i < c.len()
        invariant
            tv == tags_view(c@),
            tv.len() == c@.len(),
            forall|j: int| 0 <= j < tv.len() ==> #[trigger] tv[j] == tag_view(c@[j]),
            i <= c@.len(),
            pairs_view(out@) == strings_of(tv.subrange(0, i as int)),
        decreases c@.len() - i,
    {
        let ghost pre = tv.subrange(0, i as int);
        let ghost next = tv.subrange(0, i + 1);
        assert(next.drop_last() =~= pre);
        assert(next.last() == tv[i as int]);
        let seen = name_before(c, i);
        let t = &c[i];
        match &t.payload {
            Payload::String(v) => {
                if !seen {
                    let ghost old_out = out@;
                    out.push((t.name.clone(), v.clone()));
                    assert(pairs_view(out@) =~= pairs_view(old_out).push((tv[i as int].name, v@)));
                }
            },
            _ => {},
        }
        i = i + 1;
    }
    assert(tv.subrange(0, i as int) =~= tv);
    proof {
        lemma_strings_of_unique(tv);
    }
    out
}

/// The elements of a List child; none when absent.
pub fn read_list<'a>(c: &'a Vec<Tag>, name: &str, none: &'a Vec<Payload>) -> (r: Result<&'a Vec<Payload>, ChunkError>)
    requires
        none@.len() == 0,
    ensures
        match r {
            Ok(v) => list_field(tags_view(c@), name@) is Ok && list_field(tags_view(c@), name@)->Ok_0.1
                == payloads_view(v@),
            Err(e) => list_field(tags_view(c@), name@) == Err::<(TagType, Seq<PayloadV>), ChunkError>(e),
        },
{
    match find_in(c, name) {
        None => Ok(none),
        Some(t) => match t.payload_list() {
            Ok((_, v)) => Ok(v),
            Err(e) => Err(ChunkError::Tag(e)),
        },
    }
}

/// The children of a Compound payload.
pub fn compound_of(p: &Payload) -> (r: Result<&Vec<Tag>, ChunkError>)
    ensures
        match r {
            Ok(v) => p@ == PayloadV::Compound(tags_view(v@)),
            Err(e) => !(p@ is Compound) && e == ChunkError::Tag(
                crate::tag::TagError::WrongTagType { expected: TagType::Compound, actual: crate::tag::type_of(p@) },
            ),
        },
{
    match p {
        Payload::Compound(v) => Ok(v),
        _ => Err(ChunkError::Tag(crate::tag::TagError::WrongTagType {
            expected: TagType::Compound,
            actual: payload_type(p),
        })),
    }
}

pub fn payload_type(p: &Payload) -> (r: TagType)
    ensures
        r == crate::tag::type_of(p@),
{
    match p {
        Payload::End => TagType::End,
        Payload::Byte(_) => TagType::Byte,
        Payload::Short(_) => TagType::Short,
        Payload::Int(_) => TagType::Int,
        Payload::Long(_) => TagType::Long,
        Payload::Float(_) => TagType::Float,
        Payload::Double(_) => TagType::Double,
        Payload::ByteArray(_) => TagType::ByteArray,
        Payload::String(_) => TagType::String,
        Payload::List(_, _) => TagType::List,
        Payload::Compound(_) => TagType::Compound,
        Payload::IntArray(_) => TagType::IntArray,
        Payload::LongArray(_) => TagType::LongArray,
    }
}

fn block_state(c: &Vec<Tag>) -> (r: Result<BlockState, ChunkError>)
    ensures
        r is Ok <==> block_state_valid(tags_view(c@)),
        r is Ok ==> block_state_ok(r->Ok_0, tags_view(c@)),
{
    let name = read_string(c, "Name")?;
    let none: Vec<Tag> = Vec::new();
    let props = read_compound(c, "Properties", &none)?;
    let properties = string_pairs(props);
    Ok(BlockState { name, properties })
}

fn grid_of(palette_len: usize, cells: usize, min_bits: u32, data: &Option<Vec<i64>>) -> (r: Result<Vec<u32>, ChunkError>)
    requires
        1 <= min_bits <= 32,
    ensures
        r is Ok <==> grid_decodes(
            palette_len as nat,
            cells as nat,
            min_bits as nat,
            match data {
                Some(d) => Some(d@),
                None => None,
            },
        ),
        r is Ok ==> grid_values(
            r->Ok_0@,
            palette_len as nat,
            cells as nat,
            min_bits as nat,
            match data {
                Some(d) => Some(d@),
                None => None,
            },
        ),
        r is Err ==> grid_failed(
            r->Err_0,
            palette_len as nat,
            cells as nat,
            min_bits as nat,
            match data {
                Some(d) => Some(d@),
                None => None,
            },
        ),
{
    let d: Option<&[i64]> = match data {
        Some(v) => Some(v.as_slice()),
        None => None,
    };
    match decode_grid(palette_len, cells, min_bits, d) {
        Ok(v) => Ok(v),
        Err(e) => Err(ChunkError::Unpack(e)),
    }
}

impl BlockStates {
/// Projects the children of a section's `block_states` compound.
pub fn from_children(c: &Vec<Tag>) -> (r: Result<BlockStates, ChunkError>)
    ensures
        r is Ok <==> block_states_valid(tags_view(c@)),
        r is Ok ==> block_states_ok(r->Ok_0, tags_view(c@)),
        block_palette_valid(tags_view(c@)) && r is Err ==> grid_failed(
            r->Err_0,
            list_field(tags_view(c@), "palette"@)->Ok_0.1.len(),
            BLOCK_CELLS as nat,
            4,
            longs_field(tags_view(c@), "data"@)->Ok_0,
        ),
{
    let none: Vec<Payload> = Vec::new();
    let pal = read_list(c, "palette", &none)?;
    let data = read_longs(c, "data")?;
    let ghost pv = payloads_view(pal@);
    proof {
        lemma_payloads_view(pal@);
    }
    let mut palette: Vec<BlockState> = Vec::new();
    let mut i: usize = 0;
    while i < pal.len()
        invariant
            list_field(tags_view(c@), "palette"@) is Ok,
            list_field(tags_view(c@), "palette"@)->Ok_0.1 == pv,
            pv == payloads_view(pal@),
            pv.len() == pal@.len(),
            forall|j: int| 0 <= j < pv.len() ==> #[trigger] pv[j] == pal@[j]@,
            i <= pal@.len(),
            palette@.len() == i,
            forall|j: int|
                0 <= j < i ==> (#[trigger] pv[j] is Compound && block_state_ok(
                    palette@[j],
                    pv[j]->Compound_0,
                ) && block_state_valid(pv[j]->Compound_0)),
        decreases pal@.len() - i,
    {
        let children = match compound_of(&pal[i]) {
            Ok(ch) => ch,
            Err(e) => {
                assert(!(pv[i as int] is Compound));
                return Err(e);
            },
        };
        let s = match block_state(children) {
            Ok(s) => s,
            Err(e) => {
                assert(!block_state_valid(pv[i as int]->Compound_0));
                return Err(e);
            },
        };
        palette.push(s);
        i = i + 1;
    }
    let data_grid = grid_of(palette.len(), BLOCK_CELLS, 4, &data)?;
    Ok(BlockStates { palette, data: data_grid })
}

/// The block states of a section that has none: an empty palette and zeros.
pub fn absent() -> (r: BlockStates)
    ensures
        r.palette@.len() == 0,
        zero_grid(r.data@, BLOCK_CELLS as nat),
{
    BlockStates { palette: Vec::new(), data: zeros(BLOCK_CELLS) }
}
}

/// A grid of `n` zeros.
pub fn zeros(n: usize) -> (r: Vec<u32>)
    ensures
        zero_grid(r@, n as nat),
{
    let mut out: Vec<u32> = Vec::new();
    let mut i: usize = 0;
    while i < n
        invariant
            i <= n,
            out@.len() == i,
            forall|k: int| 0 <= k < i ==> #[trigger] out@[k] == 0,
        decreases n - i,
    {
        out.push(0);
        i = i + 1;
    }
    out
}

impl Biomes {
/// Projects the children of a section's `biomes` compound.
pub fn from_children(c: &Vec<Tag>) -> (r: Result<Biomes, ChunkError>)
    ensures
        r is Ok <==> biomes_valid(tags_view(c@)),
        r is Ok ==> biomes_ok(r->Ok_0, tags_view(c@)),
        biome_palette_valid(tags_view(c@)) && r is Err ==> grid_failed(
            r->Err_0,
            list_field(tags_view(c@), "palette"@)->Ok_0.1.len(),
            BIOME_CELLS as nat,
            1,
            longs_field(tags_view(c@), "data"@)->Ok_0,
        ),
{
    let none: Vec<Payload> = Vec::new();
    let pal = read_list(c, "palette", &none)?;
    let data = read_longs(c, "data")?;
    let ghost pv = payloads_view(pal@);
    proof {
        lemma_payloads_view(pal@);
    }
    let mut palette: Vec<String> = Vec::new();
    let mut i: usize = 0;
    while i < pal.len()
        invariant
            list_field(tags_view(c@), "palette"@) is Ok,
            list_field(tags_view(c@), "palette"@)->Ok_0.1 == pv,
            pv == payloads_view(pal@),
            pv.len() == pal@.len(),
            forall|j: int| 0 <= j < pv.len() ==> #[trigger] pv[j] == pal@[j]@,
            i <= pal@.len(),
            palette@.len() == i,
            forall|j: int|
                0 <= j < i ==> (#[trigger] pv[j] is String && palette@[j]@ == pv[j]->String_0),
        decreases pal@.len() - i,
    {
        match &pal[i] {
            Payload::String(s) => {
                palette.push(s.clone());
            },
            p => {
                assert(!(pv[i as int] is String));
                return Err(ChunkError::Tag(crate::tag::TagError::WrongTagType {
                    expected: TagType::String,
                    actual: payload_type(p),
                }));
            },
        }
        i = i + 1;
    }
    let data_grid = grid_of(palette.len(), BIOME_CELLS, 1, &data)?;
    Ok(Biomes { palette, data: data_grid })
}

/// The biomes of a section that has none: an empty palette and zeros.
pub fn absent() -> (r: Biomes)
    ensures
        r.palette@.len() == 0,
        zero_grid(r.data@, BIOME_CELLS as nat),
{
    Biomes { palette: Vec::new(), data: zeros(BIOME_CELLS) }
}
}

impl ChunkSection {
    /// Projects the children of one element of a chunk's `sections` list.
    pub fn from_children(c: &Vec<Tag>) -> (r: Result<ChunkSection, ChunkError>)
        ensures
            r is Ok <==> section_valid(tags_view(c@)),
            r is Ok ==> section_ok(r->Ok_0, tags_view(c@)),
            section_grid_failure(r, tags_view(c@)),
    {
        let y = read_byte(c, "Y", 0)?;
        let none: Vec<Tag> = Vec::new();
        let block_states = if find_in(c, "block_states").is_none() {
            BlockStates::absent()
        } else {
            let bs = read_compound(c, "block_states", &none)?;
            BlockStates::from_children(bs)?
        };
        let biomes = if find_in(c, "biomes").is_none() {
            Biomes::absent()
        } else {
            let bi = read_compound(c, "biomes", &none)?;
            Biomes::from_children(bi)?
        };
        let bl = read_bytes(c, "BlockLight")?;
        let sl = read_bytes(c, "SkyLight")?;
        let block_light = expand_nibbles(&bl);
        let sky_light = expand_nibbles(&sl);
        Ok(ChunkSection { y, block_states, biomes, block_light, sky_light })
    }
}

} // verus!

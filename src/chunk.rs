//! Projection of a chunk's root compound into a typed chunk record.

use vstd::prelude::*;
use crate::cursor::signed_of;
use crate::frame::{decompress, decompressed, frame_of, read_frame};
use crate::nbt::{nbt_of, parse_nbt};
use crate::error::ChunkError;
use crate::fields::{
    byte_field, read_byte,
    compound_field, int_field, list_field, long_field, longs_field, read_compound, read_int,
    read_long, read_longs, read_string, string_field,
};
use crate::grid::{all_in_palette, enough_data, entry_at, unpack_palette_grid, word, word_of};
use crate::section::{
    keys_unique,    section_valid, strings_view,
    compound_of, pairs_view, read_list, section_ok, string_pairs, strings_of, ChunkSection,
};
use crate::tag::{
    find_in, first_named, lemma_payloads_view, lemma_tags_view, payloads_view, same_str, tag_view,
    tags_view, type_of, Payload, PayloadV, Tag, TagError, TagType, TagV,
};

verus! {

/// Oldest data version whose packed arrays never span two longs.
pub const MIN_DATA_VERSION: i32 = 2529;

pub const HEIGHTMAP_CELLS: usize = 256;

pub const HEIGHTMAP_BITS: u32 = 9;

/// A block entity: its id and its String-valued fields.
#[derive(Debug)]
pub struct BlockEntity {
    pub entity_type: String,
    pub properties: Vec<(String, String)>,
}

/// Carving masks of a proto-chunk.
#[derive(Debug)]
pub struct CarvingMask {
    pub air: Vec<i64>,
    pub liquid: Vec<i64>,
}

/// Six height grids of 256 columns each.
#[derive(Debug)]
pub struct Heightmap {
    pub motion_blocking: Vec<u16>,
    pub motion_blocking_no_leaves: Vec<u16>,
    pub ocean_floor: Vec<u16>,
    pub ocean_floor_wg: Vec<u16>,
    pub world_surface: Vec<u16>,
    pub world_surface_wg: Vec<u16>,
}

/// A scheduled block or fluid tick.
#[derive(Debug)]
pub struct TileTick {
    pub i: String,
    pub p: i32,
    pub t: i32,
    pub x: i32,
    pub y: i32,
    pub z: i32,
}

/// A structure that starts in this chunk.
#[derive(Debug)]
pub struct Structure {
    pub structure_name: String,
    pub x: i32,
    pub z: i32,
    /// Names of fields of the start and of its pieces that this reader does not know.
    pub unknown_fields: Vec<String>,
}

/// The chunks that a structure of this name touches from here.
#[derive(Debug)]
pub struct StructureReference {
    pub name: String,
    /// Chunk coordinates `(x, z)`.
    pub chunks: Vec<(i32, i32)>,
}

/// A projected chunk.
#[derive(Debug)]
pub struct Chunk {
    pub data_version: i32,
    pub x_pos: i32,
    pub z_pos: i32,
    pub y_pos: i32,
    pub status: String,
    pub last_update: i64,
    pub inhabited_time: i64,
    pub sections: Vec<ChunkSection>,
    pub block_entities: Vec<BlockEntity>,
    pub carving_masks: CarvingMask,
    pub heightmaps: Heightmap,
    pub fluid_ticks: Vec<TileTick>,
    pub block_ticks: Vec<TileTick>,
    pub structures: Vec<Structure>,
    pub references: Vec<StructureReference>,
    /// Per section, the packed positions of light sources awaiting an update.
    pub lights: Vec<Vec<i16>>,
    /// Per section, the packed positions of blocks awaiting post-processing.
    pub post_processing: Vec<Vec<i16>>,
    pub is_light_on: i8,
    /// Names of top-level children that this reader does not know.
    pub unknown_fields: Vec<String>,
}

/// A packed structure reference: X in the low 32 bits, Z in the high 32 bits.
pub open spec fn ref_x(l: i64) -> int {
    signed_of(word_of(l) % 0x1_0000_0000, 4)
}

pub open spec fn ref_z(l: i64) -> int {
    signed_of(word_of(l) / 0x1_0000_0000, 4)
}

/// A height grid: zeros when absent, else 256 entries of 9 bits.
pub open spec fn heights_ok(h: Seq<u16>, longs: Option<Seq<i64>>) -> bool {
    &&& h.len() == HEIGHTMAP_CELLS
    &&& forall|k: int|
        0 <= k < HEIGHTMAP_CELLS ==> #[trigger] h[k] == match longs {
            None => 0,
            Some(l) => entry_at(l, HEIGHTMAP_BITS as nat, k),
        }
}

pub open spec fn heightmap_ok(h: Heightmap, c: Seq<TagV>) -> bool {
    &&& longs_field(c, "MOTION_BLOCKING"@) is Ok
    &&& heights_ok(h.motion_blocking@, longs_field(c, "MOTION_BLOCKING"@)->Ok_0)
    &&& longs_field(c, "MOTION_BLOCKING_NO_LEAVES"@) is Ok
    &&& heights_ok(h.motion_blocking_no_leaves@, longs_field(c, "MOTION_BLOCKING_NO_LEAVES"@)->Ok_0)
    &&& longs_field(c, "OCEAN_FLOOR"@) is Ok
    &&& heights_ok(h.ocean_floor@, longs_field(c, "OCEAN_FLOOR"@)->Ok_0)
    &&& longs_field(c, "OCEAN_FLOOR_WG"@) is Ok
    &&& heights_ok(h.ocean_floor_wg@, longs_field(c, "OCEAN_FLOOR_WG"@)->Ok_0)
    &&& longs_field(c, "WORLD_SURFACE"@) is Ok
    &&& heights_ok(h.world_surface@, longs_field(c, "WORLD_SURFACE"@)->Ok_0)
    &&& longs_field(c, "WORLD_SURFACE_WG"@) is Ok
    &&& heights_ok(h.world_surface_wg@, longs_field(c, "WORLD_SURFACE_WG"@)->Ok_0)
}

pub open spec fn block_entity_ok(b: BlockEntity, c: Seq<TagV>) -> bool {
    &&& string_field(c, "id"@) == Ok::<Seq<char>, ChunkError>(b.entity_type@)
    &&& pairs_view(b.properties@) == strings_of(c)
    &&& keys_unique(pairs_view(b.properties@))
}

pub open spec fn tick_ok(t: TileTick, c: Seq<TagV>) -> bool {
    &&& string_field(c, "i"@) == Ok::<Seq<char>, ChunkError>(t.i@)
    &&& int_field(c, "p"@, 0) == Ok::<i32, ChunkError>(t.p)
    &&& int_field(c, "t"@, 0) == Ok::<i32, ChunkError>(t.t)
    &&& int_field(c, "x"@, 0) == Ok::<i32, ChunkError>(t.x)
    &&& int_field(c, "y"@, 0) == Ok::<i32, ChunkError>(t.y)
    &&& int_field(c, "z"@, 0) == Ok::<i32, ChunkError>(t.z)
}

pub open spec fn structure_ok(s: Structure, c: Seq<TagV>) -> bool {
    &&& string_field(c, "id"@) == Ok::<Seq<char>, ChunkError>(s.structure_name@)
    &&& int_field(c, "ChunkX"@, 0) == Ok::<i32, ChunkError>(s.x)
    &&& int_field(c, "ChunkZ"@, 0) == Ok::<i32, ChunkError>(s.z)
    &&& strings_view(s.unknown_fields@) == unknown_names(c, FieldSet::Start) + pieces_unknown(
        list_field(c, "Children"@)->Ok_0.1,
    )
}

pub open spec fn reference_ok(r: StructureReference, t: TagV) -> bool {
    &&& r.name@ == t.name
    &&& t.payload is LongArray
    &&& r.chunks@.len() == t.payload->LongArray_0.len()
    &&& forall|k: int|
        0 <= k < r.chunks@.len() ==> #[trigger] r.chunks@[k] == (
            ref_x(t.payload->LongArray_0[k]) as i32,
            ref_z(t.payload->LongArray_0[k]) as i32,
        )
}

/// Elements of a List child that are compounds, each with `ok` holding of
/// the record projected from it.
pub open spec fn list_of_compounds_ok<A>(v: Seq<A>, c: Seq<TagV>, name: Seq<char>, ok: spec_fn(A, Seq<TagV>) -> bool) -> bool {
    let items = list_field(c, name)->Ok_0.1;
    &&& list_field(c, name) is Ok
    &&& v.len() == items.len()
    &&& forall|j: int|
        0 <= j < items.len() ==> (#[trigger] items[j] is Compound && ok(v[j], items[j]->Compound_0))
}

/// The children of a compound other than End tags.
pub open spec fn non_end(c: Seq<TagV>) -> Seq<TagV>
    decreases c.len(),
{
    if c.len() == 0 {
        Seq::empty()
    } else {
        let rest = non_end(c.subrange(1, c.len() as int));
        if c[0].payload is End {
            rest
        } else {
            seq![c[0]] + rest
        }
    }
}

/// The sets of child names that this reader knows.
#[derive(Debug, Clone, Copy, PartialEq, Eq, Structural)]
pub enum FieldSet {
    /// Top-level children of a chunk.
    Chunk,
    /// Children of a structure start.
    Start,
    /// Children of one piece of a structure start.
    Piece,
}

pub open spec fn is_known_start_field(n: Seq<char>) -> bool {
    n == "id"@ || n == "ChunkX"@ || n == "ChunkZ"@ || n == "Children"@ || n == "references"@
}

pub open spec fn is_known_piece_field(n: Seq<char>) -> bool {
    n == "BB"@ || n == "BiomeType"@ || n == "D"@ || n == "Entrances"@ || n == "GD"@ || n == "hps"@ || n
        == "hr"@ || n == "id"@ || n == "Integrity"@ || n == "isBeached"@ || n == "IsLarge"@ || n == "MST"@
        || n == "Num"@ || n == "O"@ || n == "Rot"@ || n == "sc"@ || n == "Template"@ || n == "tf"@ || n
        == "TPX"@ || n == "TPY"@ || n == "TPZ"@
}

pub open spec fn is_known_in(set: FieldSet, n: Seq<char>) -> bool {
    match set {
        FieldSet::Chunk => is_known_field(n),
        FieldSet::Start => is_known_start_field(n),
        FieldSet::Piece => is_known_piece_field(n),
    }
}

pub open spec fn is_known_field(n: Seq<char>) -> bool {
    n == "DataVersion"@ || n == "xPos"@ || n == "yPos"@ || n == "zPos"@ || n == "Status"@ || n
        == "LastUpdate"@ || n == "InhabitedTime"@ || n == "sections"@ || n == "block_entities"@ || n
        == "Heightmaps"@ || n == "Lights"@ || n == "isLightOn"@ || n == "PostProcessing"@ || n
        == "CarvingMasks"@ || n == "block_ticks"@ || n == "fluid_ticks"@ || n == "entities"@ || n
        == "structures"@
}

/// Names of the non-End children that this reader does not know, in order.
pub open spec fn unknown_names(c: Seq<TagV>, set: FieldSet) -> Seq<Seq<char>>
    decreases c.len(),
{
    if c.len() == 0 {
        Seq::empty()
    } else {
        let rest = unknown_names(c.subrange(1, c.len() as int), set);
        if c[0].payload is End || is_known_in(set, c[0].name) {
            rest
        } else {
            seq![c[0].name] + rest
        }
    }
}

/// Unknown field names of the compound pieces of a structure, in order.
pub open spec fn pieces_unknown(items: Seq<PayloadV>) -> Seq<Seq<char>>
    decreases items.len(),
{
    if items.len() == 0 {
        Seq::empty()
    } else {
        let rest = pieces_unknown(items.subrange(1, items.len() as int));
        match items[0] {
            PayloadV::Compound(pc) => unknown_names(pc, FieldSet::Piece) + rest,
            _ => rest,
        }
    }
}

pub open spec fn structures_ok(ch: Chunk, c: Seq<TagV>) -> bool {
    let starts = non_end(compound_field(c, "starts"@)->Ok_0);
    let refs = non_end(compound_field(c, "References"@)->Ok_0);
    &&& compound_field(c, "starts"@) is Ok
    &&& compound_field(c, "References"@) is Ok
    &&& ch.structures@.len() == starts.len()
    &&& forall|j: int|
        0 <= j < starts.len() ==> (#[trigger] starts[j].payload is Compound && structure_ok(
            ch.structures@[j],
            starts[j].payload->Compound_0,
        ))
    &&& ch.references@.len() == refs.len()
    &&& forall|j: int| 0 <= j < refs.len() ==> #[trigger] reference_ok(ch.references@[j], refs[j])
}

/// What a successfully projected chunk holds, given the root's children.
pub open spec fn chunk_ok(ch: Chunk, c: Seq<TagV>) -> bool {
    &&& int_field(c, "DataVersion"@, 0) == Ok::<i32, ChunkError>(ch.data_version)
    &&& ch.data_version >= MIN_DATA_VERSION
    &&& int_field(c, "xPos"@, 0) == Ok::<i32, ChunkError>(ch.x_pos)
    &&& int_field(c, "zPos"@, 0) == Ok::<i32, ChunkError>(ch.z_pos)
    &&& int_field(c, "yPos"@, 0) == Ok::<i32, ChunkError>(ch.y_pos)
    &&& string_field(c, "Status"@) == Ok::<Seq<char>, ChunkError>(ch.status@)
    &&& long_field(c, "LastUpdate"@, 0) == Ok::<i64, ChunkError>(ch.last_update)
    &&& long_field(c, "InhabitedTime"@, 0) == Ok::<i64, ChunkError>(ch.inhabited_time)
    &&& list_of_compounds_ok(ch.sections@, c, "sections"@, |s: ChunkSection, sc: Seq<TagV>| section_ok(s, sc))
    &&& list_of_compounds_ok(
        ch.block_entities@,
        c,
        "block_entities"@,
        |b: BlockEntity, bc: Seq<TagV>| block_entity_ok(b, bc),
    )
    &&& list_of_compounds_ok(ch.fluid_ticks@, c, "fluid_ticks"@, |t: TileTick, tc: Seq<TagV>| tick_ok(t, tc))
    &&& list_of_compounds_ok(ch.block_ticks@, c, "block_ticks"@, |t: TileTick, tc: Seq<TagV>| tick_ok(t, tc))
    &&& compound_field(c, "Heightmaps"@) is Ok
    &&& heightmap_ok(ch.heightmaps, compound_field(c, "Heightmaps"@)->Ok_0)
    &&& compound_field(c, "CarvingMasks"@) is Ok
    &&& longs_field(compound_field(c, "CarvingMasks"@)->Ok_0, "AIR"@) is Ok
    &&& ch.carving_masks.air@ == match longs_field(compound_field(c, "CarvingMasks"@)->Ok_0, "AIR"@)->Ok_0 {
        Some(l) => l,
        None => Seq::empty(),
    }
    &&& longs_field(compound_field(c, "CarvingMasks"@)->Ok_0, "LIQUID"@) is Ok
    &&& ch.carving_masks.liquid@ == match longs_field(compound_field(c, "CarvingMasks"@)->Ok_0, "LIQUID"@)->Ok_0 {
        Some(l) => l,
        None => Seq::empty(),
    }
    &&& compound_field(c, "structures"@) is Ok
    &&& structures_ok(ch, compound_field(c, "structures"@)->Ok_0)
    &&& strings_view(ch.unknown_fields@) == unknown_names(c, FieldSet::Chunk)
    &&& short_lists_ok(ch.lights@, c, "Lights"@)
    &&& short_lists_ok(ch.post_processing@, c, "PostProcessing"@)
    &&& byte_field(c, "isLightOn"@, 0) == Ok::<i8, ChunkError>(ch.is_light_on)
}

// ---------------------------------------------------------------------------
// When projection succeeds

/// The shorts of a list of Short payloads.
pub open spec fn shorts_of(items: Seq<PayloadV>) -> Seq<i16> {
    Seq::new(items.len(), |k: int| items[k]->Short_0)
}

/// A List child (or none) whose elements are lists of shorts.
pub open spec fn short_lists_valid(c: Seq<TagV>, name: Seq<char>) -> bool {
    let items = list_field(c, name)->Ok_0.1;
    &&& list_field(c, name) is Ok
    &&& forall|j: int|
        0 <= j < items.len() ==> (#[trigger] items[j] is List && forall|k: int|
            0 <= k < items[j]->List_1.len() ==> #[trigger] items[j]->List_1[k] is Short)
}

pub open spec fn short_lists_ok(v: Seq<Vec<i16>>, c: Seq<TagV>, name: Seq<char>) -> bool {
    let items = list_field(c, name)->Ok_0.1;
    &&& v.len() == items.len()
    &&& forall|j: int| 0 <= j < items.len() ==> #[trigger] v[j]@ == shorts_of(items[j]->List_1)
}


/// A height grid child that is absent, or a long array holding 256 entries.
pub open spec fn heights_valid(c: Seq<TagV>, name: Seq<char>) -> bool {
    &&& longs_field(c, name) is Ok
    &&& match longs_field(c, name)->Ok_0 {
        None => true,
        Some(l) => enough_data(l.len(), HEIGHTMAP_BITS as nat, HEIGHTMAP_CELLS as nat) && all_in_palette(
            l,
            HEIGHTMAP_BITS as nat,
            HEIGHTMAP_CELLS as nat,
            512,
        ),
    }
}

pub open spec fn heightmap_valid(c: Seq<TagV>) -> bool {
    &&& heights_valid(c, "MOTION_BLOCKING"@)
    &&& heights_valid(c, "MOTION_BLOCKING_NO_LEAVES"@)
    &&& heights_valid(c, "OCEAN_FLOOR"@)
    &&& heights_valid(c, "OCEAN_FLOOR_WG"@)
    &&& heights_valid(c, "WORLD_SURFACE"@)
    &&& heights_valid(c, "WORLD_SURFACE_WG"@)
}

pub open spec fn block_entity_valid(c: Seq<TagV>) -> bool {
    string_field(c, "id"@) is Ok
}

pub open spec fn tick_valid(c: Seq<TagV>) -> bool {
    &&& string_field(c, "i"@) is Ok
    &&& int_field(c, "p"@, 0) is Ok
    &&& int_field(c, "t"@, 0) is Ok
    &&& int_field(c, "x"@, 0) is Ok
    &&& int_field(c, "y"@, 0) is Ok
    &&& int_field(c, "z"@, 0) is Ok
}

pub open spec fn structure_valid(c: Seq<TagV>) -> bool {
    &&& string_field(c, "id"@) is Ok
    &&& int_field(c, "ChunkX"@, 0) is Ok
    &&& int_field(c, "ChunkZ"@, 0) is Ok
    &&& list_field(c, "Children"@) is Ok
}

/// A List child (or none) whose elements are compounds that each satisfy `valid`.
pub open spec fn list_of_compounds_valid(c: Seq<TagV>, name: Seq<char>, valid: spec_fn(Seq<TagV>) -> bool) -> bool {
    let items = list_field(c, name)->Ok_0.1;
    &&& list_field(c, name) is Ok
    &&& forall|j: int| 0 <= j < items.len() ==> (#[trigger] items[j] is Compound && valid(items[j]->Compound_0))
}

pub open spec fn starts_valid(c: Seq<TagV>) -> bool {
    forall|j: int|
        0 <= j < non_end(c).len() ==> (#[trigger] non_end(c)[j].payload is Compound && structure_valid(
            non_end(c)[j].payload->Compound_0,
        ))
}

pub open spec fn references_valid(c: Seq<TagV>) -> bool {
    forall|j: int| 0 <= j < non_end(c).len() ==> #[trigger] non_end(c)[j].payload is LongArray
}

pub open spec fn structures_valid(c: Seq<TagV>) -> bool {
    &&& compound_field(c, "starts"@) is Ok
    &&& starts_valid(compound_field(c, "starts"@)->Ok_0)
    &&& compound_field(c, "References"@) is Ok
    &&& references_valid(compound_field(c, "References"@)->Ok_0)
}

/// Whether a root compound with children `c` projects into a chunk.
pub open spec fn chunk_valid(c: Seq<TagV>) -> bool {
    &&& first_named(c, "DataVersion"@) is Some
    &&& int_field(c, "DataVersion"@, 0) is Ok
    &&& int_field(c, "DataVersion"@, 0)->Ok_0 >= MIN_DATA_VERSION
    &&& first_named(c, "xPos"@) is Some
    &&& first_named(c, "zPos"@) is Some
    &&& int_field(c, "xPos"@, 0) is Ok
    &&& int_field(c, "zPos"@, 0) is Ok
    &&& int_field(c, "yPos"@, 0) is Ok
    &&& string_field(c, "Status"@) is Ok
    &&& long_field(c, "LastUpdate"@, 0) is Ok
    &&& long_field(c, "InhabitedTime"@, 0) is Ok
    &&& list_of_compounds_valid(c, "sections"@, |sc: Seq<TagV>| section_valid(sc))
    &&& list_of_compounds_valid(c, "block_entities"@, |bc: Seq<TagV>| block_entity_valid(bc))
    &&& list_of_compounds_valid(c, "fluid_ticks"@, |tc: Seq<TagV>| tick_valid(tc))
    &&& list_of_compounds_valid(c, "block_ticks"@, |tc: Seq<TagV>| tick_valid(tc))
    &&& compound_field(c, "Heightmaps"@) is Ok
    &&& heightmap_valid(compound_field(c, "Heightmaps"@)->Ok_0)
    &&& compound_field(c, "CarvingMasks"@) is Ok
    &&& longs_field(compound_field(c, "CarvingMasks"@)->Ok_0, "AIR"@) is Ok
    &&& longs_field(compound_field(c, "CarvingMasks"@)->Ok_0, "LIQUID"@) is Ok
    &&& compound_field(c, "structures"@) is Ok
    &&& structures_valid(compound_field(c, "structures"@)->Ok_0)
    &&& short_lists_valid(c, "Lights"@)
    &&& short_lists_valid(c, "PostProcessing"@)
    &&& byte_field(c, "isLightOn"@, 0) is Ok
}

/// The outcome of projecting a root compound with children `c`: the errors
/// of the required header fields, and the record on success.
pub open spec fn chunk_result(r: Result<Chunk, ChunkError>, c: Seq<TagV>) -> bool {
    let dv = int_field(c, "DataVersion"@, 0);
    &&& first_named(c, "DataVersion"@) is None ==> (r matches Err(ChunkError::MissingRequiredField(s))
        && s@ == "DataVersion"@)
    &&& first_named(c, "DataVersion"@) is Some && dv is Err ==> r == Err::<Chunk, ChunkError>(
        dv->Err_0,
    )
    &&& first_named(c, "DataVersion"@) is Some && dv is Ok && dv->Ok_0 < MIN_DATA_VERSION ==> r
        == Err::<Chunk, ChunkError>(ChunkError::UnsupportedDataVersion(dv->Ok_0))
    &&& first_named(c, "DataVersion"@) is Some && dv is Ok && dv->Ok_0 >= MIN_DATA_VERSION && first_named(
        c,
        "xPos"@,
    ) is None ==> (r matches Err(ChunkError::MissingRequiredField(s)) && s@ == "xPos"@)
    &&& first_named(c, "DataVersion"@) is Some && dv is Ok && dv->Ok_0 >= MIN_DATA_VERSION && first_named(
        c,
        "xPos"@,
    ) is Some && first_named(c, "zPos"@) is None ==> (r matches Err(ChunkError::MissingRequiredField(s))
        && s@ == "zPos"@)
    &&& r is Ok <==> chunk_valid(c)
    &&& r is Ok ==> chunk_ok(r->Ok_0, c)
}

pub open spec fn ref_pairs_ok(v: Seq<(i32, i32)>, l: Seq<i64>) -> bool {
    &&& v.len() == l.len()
    &&& forall|k: int| 0 <= k < v.len() ==> #[trigger] v[k] == (ref_x(l[k]) as i32, ref_z(l[k]) as i32)
}

/// Two's complement reading of a 32-bit pattern.
pub fn as_signed(u: u32) -> (r: i32)
    ensures
        r == signed_of(u as nat, 4),
{
    proof {
        crate::cursor::lemma_pow256_values();
    }
    if u >= 0x8000_0000 {
        (u as i64 - 0x1_0000_0000) as i32
    } else {
        u as i32
    }
}

/// Decodes packed structure references.
pub fn decode_references(l: &Vec<i64>) -> (r: Vec<(i32, i32)>)
    ensures
        ref_pairs_ok(r@, l@),
{
    proof {
        crate::cursor::lemma_pow256_values();
    }
    let mut out: Vec<(i32, i32)> = Vec::new();
    let mut i: usize = 0;
    while i < l.len()
        invariant
            i <= l@.len(),
            out@.len() == i,
            forall|k: int| 0 <= k < i ==> #[trigger] out@[k] == (ref_x(l@[k]) as i32, ref_z(l@[k]) as i32),
        decreases l@.len() - i,
    {
        let w = word(l[i]);
        let x = as_signed((w % 0x1_0000_0000) as u32);
        let z = as_signed((w / 0x1_0000_0000) as u32);
        out.push((x, z));
        i = i + 1;
    }
    out
}

impl Heightmap {
    /// Six grids of zeros.
    pub fn new() -> (r: Heightmap)
        ensures
            heights_ok(r.motion_blocking@, None),
            heights_ok(r.motion_blocking_no_leaves@, None),
            heights_ok(r.ocean_floor@, None),
            heights_ok(r.ocean_floor_wg@, None),
            heights_ok(r.world_surface@, None),
            heights_ok(r.world_surface_wg@, None),
    {
        Heightmap {
            motion_blocking: zero_heights(),
            motion_blocking_no_leaves: zero_heights(),
            ocean_floor: zero_heights(),
            ocean_floor_wg: zero_heights(),
            world_surface: zero_heights(),
            world_surface_wg: zero_heights(),
        }
    }

    /// Projects the children of a `Heightmaps` compound.
    pub fn from_children(c: &Vec<Tag>) -> (r: Result<Heightmap, ChunkError>)
        ensures
            r is Ok <==> heightmap_valid(tags_view(c@)),
            r is Ok ==> heightmap_ok(r->Ok_0, tags_view(c@)),
    {
        Ok(Heightmap {
            motion_blocking: heights(c, "MOTION_BLOCKING")?,
            motion_blocking_no_leaves: heights(c, "MOTION_BLOCKING_NO_LEAVES")?,
            ocean_floor: heights(c, "OCEAN_FLOOR")?,
            ocean_floor_wg: heights(c, "OCEAN_FLOOR_WG")?,
            world_surface: heights(c, "WORLD_SURFACE")?,
            world_surface_wg: heights(c, "WORLD_SURFACE_WG")?,
        })
    }
}

fn zero_heights() -> (r: Vec<u16>)
    ensures
        heights_ok(r@, None),
{
    let mut out: Vec<u16> = Vec::new();
    let mut i: usize = 0;
    while i < HEIGHTMAP_CELLS
        invariant
            i <= HEIGHTMAP_CELLS,
            out@.len() == i,
            forall|k: int| 0 <= k < i ==> #[trigger] out@[k] == 0,
        decreases HEIGHTMAP_CELLS - i,
    {
        out.push(0);
        i = i + 1;
    }
    out
}

fn heights(c: &Vec<Tag>, name: &str) -> (r: Result<Vec<u16>, ChunkError>)
    ensures
        r is Ok <==> heights_valid(tags_view(c@), name@),
        r is Ok ==> longs_field(tags_view(c@), name@) is Ok && heights_ok(
            r->Ok_0@,
            longs_field(tags_view(c@), name@)->Ok_0,
        ),
{
    let longs = match read_longs(c, name)? {
        None => {
            return Ok(zero_heights());
        },
        Some(l) => l,
    };
    let grid = match unpack_palette_grid(HEIGHTMAP_BITS, HEIGHTMAP_CELLS, 512, longs.as_slice()) {
        Ok(g) => g,
        Err(e) => {
            return Err(ChunkError::Unpack(e));
        },
    };
    let mut out: Vec<u16> = Vec::new();
    let mut i: usize = 0;
    while i < HEIGHTMAP_CELLS
        invariant
            i <= HEIGHTMAP_CELLS,
            grid@.len() == HEIGHTMAP_CELLS,
            forall|k: int| 0 <= k < HEIGHTMAP_CELLS ==> #[trigger] grid@[k] == entry_at(longs@, 9, k),
            forall|k: int| 0 <= k < HEIGHTMAP_CELLS ==> #[trigger] entry_at(longs@, 9, k) < 512,
            out@.len() == i,
            forall|k: int| 0 <= k < i ==> #[trigger] out@[k] == entry_at(longs@, 9, k),
        decreases HEIGHTMAP_CELLS - i,
    {
        assert(grid@[i as int] == entry_at(longs@, 9, i as int));
        out.push(grid[i] as u16);
        i = i + 1;
    }
    Ok(out)
}

impl CarvingMask {
    pub fn new() -> (r: CarvingMask)
        ensures
            r.air@.len() == 0,
            r.liquid@.len() == 0,
    {
        CarvingMask { air: Vec::new(), liquid: Vec::new() }
    }
}

fn block_entity(c: &Vec<Tag>) -> (r: Result<BlockEntity, ChunkError>)
    ensures
        r is Ok <==> block_entity_valid(tags_view(c@)),
        r is Ok ==> block_entity_ok(r->Ok_0, tags_view(c@)),
{
    let entity_type = read_string(c, "id")?;
    let properties = string_pairs(c);
    Ok(BlockEntity { entity_type, properties })
}

fn tick(c: &Vec<Tag>) -> (r: Result<TileTick, ChunkError>)
    ensures
        r is Ok <==> tick_valid(tags_view(c@)),
        r is Ok ==> tick_ok(r->Ok_0, tags_view(c@)),
{
    Ok(TileTick {
        i: read_string(c, "i")?,
        p: read_int(c, "p", 0)?,
        t: read_int(c, "t", 0)?,
        x: read_int(c, "x", 0)?,
        y: read_int(c, "y", 0)?,
        z: read_int(c, "z", 0)?,
    })
}

fn structure(c: &Vec<Tag>) -> (r: Result<Structure, ChunkError>)
    ensures
        r is Ok <==> structure_valid(tags_view(c@)),
        r is Ok ==> structure_ok(r->Ok_0, tags_view(c@)),
{
    let structure_name = read_string(c, "id")?;
    let x = read_int(c, "ChunkX", 0)?;
    let z = read_int(c, "ChunkZ", 0)?;
    let none: Vec<Payload> = Vec::new();
    let pieces = read_list(c, "Children", &none)?;
    let mut unknown = unknown_fields(c, FieldSet::Start);
    let mut in_pieces = pieces_unknown_fields(pieces);
    let ghost a = unknown@;
    let ghost b = in_pieces@;
    unknown.append(&mut in_pieces);
    assert(strings_view(unknown@) =~= strings_view(a) + strings_view(b));
    Ok(Structure { structure_name, x, z, unknown_fields: unknown })
}

fn sections(c: &Vec<Tag>) -> (r: Result<Vec<ChunkSection>, ChunkError>)
    ensures
        r is Ok <==> list_of_compounds_valid(tags_view(c@), "sections"@, |sc: Seq<TagV>| section_valid(sc)),
        r is Ok ==> list_of_compounds_ok(r->Ok_0@, tags_view(c@), "sections"@, |s: ChunkSection, sc: Seq<TagV>| section_ok(s, sc)),
{
    let none: Vec<Payload> = Vec::new();
    let items = read_list(c, "sections", &none)?;
    let ghost pv = payloads_view(items@);
    proof {
        lemma_payloads_view(items@);
    }
    let mut out: Vec<ChunkSection> = Vec::new();
    let mut i: usize = 0;
    while i < items.len()
        invariant
            list_field(tags_view(c@), "sections"@) is Ok,
            list_field(tags_view(c@), "sections"@)->Ok_0.1 == pv,
            pv == payloads_view(items@),
            pv.len() == items@.len(),
            forall|j: int| 0 <= j < pv.len() ==> #[trigger] pv[j] == items@[j]@,
            i <= items@.len(),
            out@.len() == i,
            forall|j: int| 0 <= j < i ==> (#[trigger] pv[j] is Compound && section_ok(out@[j], pv[j]->Compound_0) && section_valid(pv[j]->Compound_0)),
        decreases items@.len() - i,
    {
        let children = match compound_of(&items[i]) {
            Ok(ch) => ch,
            Err(e) => {
                assert(!(pv[i as int] is Compound));
                return Err(e);
            },
        };
        let x = match ChunkSection::from_children(children) {
            Ok(x) => x,
            Err(e) => {
                assert(!section_valid(pv[i as int]->Compound_0));
                return Err(e);
            },
        };
        out.push(x);
        i = i + 1;
    }
    Ok(out)
}

fn block_entities(c: &Vec<Tag>) -> (r: Result<Vec<BlockEntity>, ChunkError>)
    ensures
        r is Ok <==> list_of_compounds_valid(tags_view(c@), "block_entities"@, |bc: Seq<TagV>| block_entity_valid(bc)),
        r is Ok ==> list_of_compounds_ok(r->Ok_0@, tags_view(c@), "block_entities"@, |b: BlockEntity, bc: Seq<TagV>| block_entity_ok(b, bc)),
{
    let none: Vec<Payload> = Vec::new();
    let items = read_list(c, "block_entities", &none)?;
    let ghost pv = payloads_view(items@);
    proof {
        lemma_payloads_view(items@);
    }
    let mut out: Vec<BlockEntity> = Vec::new();
    let mut i: usize = 0;
    while i < items.len()
        invariant
            list_field(tags_view(c@), "block_entities"@) is Ok,
            list_field(tags_view(c@), "block_entities"@)->Ok_0.1 == pv,
            pv == payloads_view(items@),
            pv.len() == items@.len(),
            forall|j: int| 0 <= j < pv.len() ==> #[trigger] pv[j] == items@[j]@,
            i <= items@.len(),
            out@.len() == i,
            forall|j: int| 0 <= j < i ==> (#[trigger] pv[j] is Compound && block_entity_ok(out@[j], pv[j]->Compound_0) && block_entity_valid(pv[j]->Compound_0)),
        decreases items@.len() - i,
    {
        let children = match compound_of(&items[i]) {
            Ok(ch) => ch,
            Err(e) => {
                assert(!(pv[i as int] is Compound));
                return Err(e);
            },
        };
        let x = match block_entity(children) {
            Ok(x) => x,
            Err(e) => {
                assert(!block_entity_valid(pv[i as int]->Compound_0));
                return Err(e);
            },
        };
        out.push(x);
        i = i + 1;
    }
    Ok(out)
}

fn ticks(c: &Vec<Tag>, name: &str) -> (r: Result<Vec<TileTick>, ChunkError>)
    ensures
        r is Ok <==> list_of_compounds_valid(tags_view(c@), name@, |tc: Seq<TagV>| tick_valid(tc)),
        r is Ok ==> list_of_compounds_ok(r->Ok_0@, tags_view(c@), name@, |t: TileTick, tc: Seq<TagV>| tick_ok(t, tc)),
{
    let none: Vec<Payload> = Vec::new();
    let items = read_list(c, name, &none)?;
    let ghost pv = payloads_view(items@);
    proof {
        lemma_payloads_view(items@);
    }
    let mut out: Vec<TileTick> = Vec::new();
    let mut i: usize = 0;
    while i < items.len()
        invariant
            list_field(tags_view(c@), name@) is Ok,
            list_field(tags_view(c@), name@)->Ok_0.1 == pv,
            pv == payloads_view(items@),
            pv.len() == items@.len(),
            forall|j: int| 0 <= j < pv.len() ==> #[trigger] pv[j] == items@[j]@,
            i <= items@.len(),
            out@.len() == i,
            forall|j: int| 0 <= j < i ==> (#[trigger] pv[j] is Compound && tick_ok(out@[j], pv[j]->Compound_0) && tick_valid(pv[j]->Compound_0)),
        decreases items@.len() - i,
    {
        let children = match compound_of(&items[i]) {
            Ok(ch) => ch,
            Err(e) => {
                assert(!(pv[i as int] is Compound));
                return Err(e);
            },
        };
        let x = match tick(children) {
            Ok(x) => x,
            Err(e) => {
                assert(!tick_valid(pv[i as int]->Compound_0));
                return Err(e);
            },
        };
        out.push(x);
        i = i + 1;
    }
    Ok(out)
}

/// Structures that start in the chunk, one per non-End child of `starts`.
fn structure_starts(c: &Vec<Tag>) -> (r: Result<Vec<Structure>, ChunkError>)
    ensures
        r is Ok <==> starts_valid(tags_view(c@)),
        r is Ok ==> r->Ok_0@.len() == non_end(tags_view(c@)).len() && forall|j: int|
            0 <= j < non_end(tags_view(c@)).len() ==> (#[trigger] non_end(tags_view(c@))[j].payload is Compound
                && structure_ok(r->Ok_0@[j], non_end(tags_view(c@))[j].payload->Compound_0)),
{
    let ghost tv = tags_view(c@);
    let ghost mut done: Seq<TagV> = Seq::empty();
    proof {
        lemma_tags_view(c@);
        assert(tv.subrange(0, tv.len() as int) =~= tv);
    }
    let mut out: Vec<Structure> = Vec::new();
    let mut i: usize = 0;
    while i < c.len()
        invariant
            tv == tags_view(c@),
            tv.len() == c@.len(),
            forall|j: int| 0 <= j < tv.len() ==> #[trigger] tv[j] == tag_view(c@[j]),
            i <= c@.len(),
            non_end(tv) == done + non_end(tv.subrange(i as int, tv.len() as int)),
            out@.len() == done.len(),
            forall|j: int| 0 <= j < done.len() ==> (#[trigger] done[j].payload is Compound && structure_ok(out@[j], done[j].payload->Compound_0) && structure_valid(done[j].payload->Compound_0)),
        decreases c@.len() - i,
    {
        let ghost rest = tv.subrange(i as int, tv.len() as int);
        assert(rest.subrange(1, rest.len() as int) =~= tv.subrange(i + 1, tv.len() as int));
        assert(rest[0] == tv[i as int]);
        let t = &c[i];
        match &t.payload {
            Payload::End => {},
            p => {
                proof {
                    let r1 = tv.subrange(i + 1, tv.len() as int);
                    assert(non_end(rest) == seq![tv[i as int]] + non_end(r1));
                    assert(non_end(tv)[done.len() as int] == tv[i as int]);
                }
                let children = match compound_of(p) {
                    Ok(ch) => ch,
                    Err(e) => {
                        return Err(e);
                    },
                };
                let st = match structure(children) {
                    Ok(st) => st,
                    Err(e) => {
                        assert(!structure_valid(tv[i as int].payload->Compound_0));
                        return Err(e);
                    },
                };
                out.push(st);
                proof {
                    let old_done = done;
                    done = done.push(tv[i as int]);
                    assert(old_done + (seq![tv[i as int]] + non_end(tv.subrange(i + 1, tv.len() as int))) =~= done + non_end(tv.subrange(i + 1, tv.len() as int)));
                }
            },
        }
        i = i + 1;
    }
    assert(tv.subrange(i as int, tv.len() as int) =~= Seq::<TagV>::empty());
    assert(done + Seq::<TagV>::empty() =~= done);
    Ok(out)
}

/// Structure references, one per non-End child of `References`.
fn structure_references(c: &Vec<Tag>) -> (r: Result<Vec<StructureReference>, ChunkError>)
    ensures
        r is Ok <==> references_valid(tags_view(c@)),
        r is Ok ==> r->Ok_0@.len() == non_end(tags_view(c@)).len() && forall|j: int|
            0 <= j < non_end(tags_view(c@)).len() ==> #[trigger] reference_ok(r->Ok_0@[j], non_end(tags_view(c@))[j]),
{
    let ghost tv = tags_view(c@);
    let ghost mut done: Seq<TagV> = Seq::empty();
    proof {
        lemma_tags_view(c@);
        assert(tv.subrange(0, tv.len() as int) =~= tv);
    }
    let mut out: Vec<StructureReference> = Vec::new();
    let mut i: usize = 0;
    while i < c.len()
        invariant
            tv == tags_view(c@),
            tv.len() == c@.len(),
            forall|j: int| 0 <= j < tv.len() ==> #[trigger] tv[j] == tag_view(c@[j]),
            i <= c@.len(),
            non_end(tv) == done + non_end(tv.subrange(i as int, tv.len() as int)),
            out@.len() == done.len(),
            forall|j: int| 0 <= j < done.len() ==> reference_ok(out@[j], #[trigger] done[j]),
        decreases c@.len() - i,
    {
        let ghost rest = tv.subrange(i as int, tv.len() as int);
        assert(rest.subrange(1, rest.len() as int) =~= tv.subrange(i + 1, tv.len() as int));
        assert(rest[0] == tv[i as int]);
        let t = &c[i];
        match &t.payload {
            Payload::End => {},
            Payload::LongArray(l) => {
                let chunks = decode_references(l);
                out.push(StructureReference { name: t.name.clone(), chunks });
                proof {
                    let old_done = done;
                    done = done.push(tv[i as int]);
                    assert(old_done + (seq![tv[i as int]] + non_end(tv.subrange(i + 1, tv.len() as int))) =~= done + non_end(tv.subrange(i + 1, tv.len() as int)));
                }
            },
            p => {
                proof {
                    let r1 = tv.subrange(i + 1, tv.len() as int);
                    assert(non_end(rest) == seq![tv[i as int]] + non_end(r1));
                    assert(non_end(tv)[done.len() as int] == tv[i as int]);
                }
                return Err(ChunkError::Tag(TagError::WrongTagType {
                    expected: TagType::LongArray,
                    actual: crate::section::payload_type(p),
                }));
            },
        }
        i = i + 1;
    }
    assert(tv.subrange(i as int, tv.len() as int) =~= Seq::<TagV>::empty());
    assert(done + Seq::<TagV>::empty() =~= done);
    Ok(out)
}

/// Whether a child name is one this reader knows in the given set.
pub fn is_known(set: FieldSet, n: &str) -> (r: bool)
    ensures
        r == is_known_in(set, n@),
{
    match set {
        FieldSet::Chunk => is_known_chunk_field(n),
        FieldSet::Start => same_str(n, "id") || same_str(n, "ChunkX") || same_str(n, "ChunkZ") || same_str(
            n,
            "Children",
        ) || same_str(n, "references"),
        FieldSet::Piece => same_str(n, "BB") || same_str(n, "BiomeType") || same_str(n, "D") || same_str(
            n,
            "Entrances",
        ) || same_str(n, "GD") || same_str(n, "hps") || same_str(n, "hr") || same_str(n, "id")
            || same_str(n, "Integrity") || same_str(n, "isBeached") || same_str(n, "IsLarge")
            || same_str(n, "MST") || same_str(n, "Num") || same_str(n, "O") || same_str(n, "Rot")
            || same_str(n, "sc") || same_str(n, "Template") || same_str(n, "tf") || same_str(n, "TPX")
            || same_str(n, "TPY") || same_str(n, "TPZ"),
    }
}

fn is_known_chunk_field(n: &str) -> (r: bool)
    ensures
        r == is_known_field(n@),
{
    same_str(n, "DataVersion") || same_str(n, "xPos") || same_str(n, "yPos") || same_str(n, "zPos")
        || same_str(n, "Status") || same_str(n, "LastUpdate") || same_str(n, "InhabitedTime")
        || same_str(n, "sections") || same_str(n, "block_entities") || same_str(n, "Heightmaps")
        || same_str(n, "Lights") || same_str(n, "isLightOn") || same_str(n, "PostProcessing")
        || same_str(n, "CarvingMasks") || same_str(n, "block_ticks") || same_str(n, "fluid_ticks")
        || same_str(n, "entities") || same_str(n, "structures")
}

/// Names of the non-End children that this reader does not know.
fn unknown_fields(c: &Vec<Tag>, set: FieldSet) -> (r: Vec<String>)
    ensures
        strings_view(r@) == unknown_names(tags_view(c@), set),
{
    let ghost tv = tags_view(c@);
    proof {
        lemma_tags_view(c@);
        assert(tv.subrange(0, tv.len() as int) =~= tv);
    }
    let mut out: Vec<String> = Vec::new();
    let mut i: usize = 0;
    while i < c.len()
        invariant
            tv == tags_view(c@),
            tv.len() == c@.len(),
            forall|j: int| 0 <= j < tv.len() ==> #[trigger] tv[j] == tag_view(c@[j]),
            i <= c@.len(),
            unknown_names(tv, set) == strings_view(out@) + unknown_names(tv.subrange(i as int, tv.len() as int), set),
        decreases c@.len() - i,
    {
        let ghost rest = tv.subrange(i as int, tv.len() as int);
        assert(rest.subrange(1, rest.len() as int) =~= tv.subrange(i + 1, tv.len() as int));
        assert(rest[0] == tv[i as int]);
        let t = &c[i];
        let end = match &t.payload {
            Payload::End => true,
            _ => false,
        };
        if !end && !is_known(set, t.name.as_str()) {
            let ghost old_out = out@;
            out.push(t.name.clone());
            assert(strings_view(out@) =~= strings_view(old_out) + seq![tv[i as int].name]);
            assert(strings_view(old_out) + (seq![tv[i as int].name] + unknown_names(tv.subrange(i + 1, tv.len() as int), set)) =~= strings_view(out@) + unknown_names(tv.subrange(i + 1, tv.len() as int), set));
        }
        i = i + 1;
    }
    assert(tv.subrange(i as int, tv.len() as int) =~= Seq::<TagV>::empty());
    assert(strings_view(out@) + Seq::<Seq<char>>::empty() =~= strings_view(out@));
    out
}

/// Unknown field names of the compound pieces of a structure.
fn pieces_unknown_fields(items: &Vec<Payload>) -> (r: Vec<String>)
    ensures
        strings_view(r@) == pieces_unknown(payloads_view(items@)),
{
    let ghost pv = payloads_view(items@);
    proof {
        lemma_payloads_view(items@);
        assert(pv.subrange(0, pv.len() as int) =~= pv);
    }
    let mut out: Vec<String> = Vec::new();
    let mut i: usize = 0;
    while i < items.len()
        invariant
            pv == payloads_view(items@),
            pv.len() == items@.len(),
            forall|j: int| 0 <= j < pv.len() ==> #[trigger] pv[j] == items@[j]@,
            i <= items@.len(),
            pieces_unknown(pv) == strings_view(out@) + pieces_unknown(pv.subrange(i as int, pv.len() as int)),
        decreases items@.len() - i,
    {
        let ghost rest = pv.subrange(i as int, pv.len() as int);
        let ghost next = pv.subrange(i + 1, pv.len() as int);
        assert(rest.subrange(1, rest.len() as int) =~= next);
        assert(rest[0] == pv[i as int]);
        match &items[i] {
            Payload::Compound(children) => {
                let mut names = unknown_fields(children, FieldSet::Piece);
                let ghost old_out = out@;
                let ghost added = names@;
                out.append(&mut names);
                assert(strings_view(out@) =~= strings_view(old_out) + strings_view(added));
                assert(strings_view(old_out) + (strings_view(added) + pieces_unknown(next)) =~= strings_view(out@)
                    + pieces_unknown(next));
            },
            _ => {},
        }
        i = i + 1;
    }
    assert(pv.subrange(i as int, pv.len() as int) =~= Seq::<PayloadV>::empty());
    assert(strings_view(out@) + Seq::<Seq<char>>::empty() =~= strings_view(out@));
    out
}

/// The elements of a list of Short payloads.
fn shorts(items: &Vec<Payload>) -> (r: Result<Vec<i16>, ChunkError>)
    ensures
        r is Ok <==> forall|k: int|
            0 <= k < payloads_view(items@).len() ==> #[trigger] payloads_view(items@)[k] is Short,
        r is Ok ==> r->Ok_0@ == shorts_of(payloads_view(items@)),
{
    let ghost pv = payloads_view(items@);
    proof {
        lemma_payloads_view(items@);
    }
    let mut out: Vec<i16> = Vec::new();
    let mut i: usize = 0;
    while i < items.len()
        invariant
            pv == payloads_view(items@),
            pv.len() == items@.len(),
            forall|j: int| 0 <= j < pv.len() ==> #[trigger] pv[j] == items@[j]@,
            i <= items@.len(),
            out@.len() == i,
            forall|j: int| 0 <= j < i ==> #[trigger] pv[j] is Short && out@[j] == pv[j]->Short_0,
        decreases items@.len() - i,
    {
        match &items[i] {
            Payload::Short(v) => {
                out.push(*v);
            },
            p => {
                assert(!(pv[i as int] is Short));
                return Err(ChunkError::Tag(TagError::WrongTagType {
                    expected: TagType::Short,
                    actual: crate::section::payload_type(p),
                }));
            },
        }
        i = i + 1;
    }
    assert(out@ =~= shorts_of(pv));
    Ok(out)
}

/// A List child of lists of shorts; none when absent.
fn short_lists(c: &Vec<Tag>, name: &str) -> (r: Result<Vec<Vec<i16>>, ChunkError>)
    ensures
        r is Ok <==> short_lists_valid(tags_view(c@), name@),
        r is Ok ==> short_lists_ok(r->Ok_0@, tags_view(c@), name@),
{
    let none: Vec<Payload> = Vec::new();
    let items = read_list(c, name, &none)?;
    let ghost pv = payloads_view(items@);
    proof {
        lemma_payloads_view(items@);
    }
    let mut out: Vec<Vec<i16>> = Vec::new();
    let mut i: usize = 0;
    while i < items.len()
        invariant
            list_field(tags_view(c@), name@) is Ok,
            list_field(tags_view(c@), name@)->Ok_0.1 == pv,
            pv == payloads_view(items@),
            pv.len() == items@.len(),
            forall|j: int| 0 <= j < pv.len() ==> #[trigger] pv[j] == items@[j]@,
            i <= items@.len(),
            out@.len() == i,
            forall|j: int|
                0 <= j < i ==> (#[trigger] pv[j] is List && out@[j]@ == shorts_of(pv[j]->List_1) && forall|k: int|
                    0 <= k < pv[j]->List_1.len() ==> #[trigger] pv[j]->List_1[k] is Short),
        decreases items@.len() - i,
    {
        match &items[i] {
            Payload::List(_, inner) => {
                assert(pv[i as int]->List_1 == payloads_view(inner@));
                match shorts(inner) {
                    Ok(v) => {
                        out.push(v);
                    },
                    Err(e) => {
                        assert(!(forall|k: int|
                            0 <= k < pv[i as int]->List_1.len() ==> #[trigger] pv[i as int]->List_1[k] is Short));
                        return Err(e);
                    },
                }
            },
            p => {
                assert(!(pv[i as int] is List));
                return Err(ChunkError::Tag(TagError::WrongTagType {
                    expected: TagType::List,
                    actual: crate::section::payload_type(p),
                }));
            },
        }
        i = i + 1;
    }
    Ok(out)
}

impl Chunk {
    /// Projects the root compound of a decompressed chunk.
    pub fn from_root(root: &Tag) -> (r: Result<Chunk, ChunkError>)
        ensures
            match root@.payload {
                PayloadV::Compound(c) => chunk_result(r, c),
                p => r == Err::<Chunk, ChunkError>(ChunkError::Tag(TagError::WrongTagType { expected: TagType::Compound, actual: type_of(p) })),
            },
    {
        let c = match root.payload_compound() {
            Ok(c) => c,
            Err(e) => {
                return Err(ChunkError::Tag(e));
            },
        };
        if find_in(c, "DataVersion").is_none() {
            return Err(ChunkError::MissingRequiredField("DataVersion".to_owned()));
        }
        let data_version = read_int(c, "DataVersion", 0)?;
        if data_version < MIN_DATA_VERSION {
            return Err(ChunkError::UnsupportedDataVersion(data_version));
        }
        if find_in(c, "xPos").is_none() {
            return Err(ChunkError::MissingRequiredField("xPos".to_owned()));
        }
        if find_in(c, "zPos").is_none() {
            return Err(ChunkError::MissingRequiredField("zPos".to_owned()));
        }
        let x_pos = read_int(c, "xPos", 0)?;
        let z_pos = read_int(c, "zPos", 0)?;
        let y_pos = read_int(c, "yPos", 0)?;
        let status = read_string(c, "Status")?;
        let last_update = read_long(c, "LastUpdate", 0)?;
        let inhabited_time = read_long(c, "InhabitedTime", 0)?;
        let sections = sections(c)?;
        let block_entities = block_entities(c)?;
        let fluid_ticks = ticks(c, "fluid_ticks")?;
        let block_ticks = ticks(c, "block_ticks")?;
        let none: Vec<Tag> = Vec::new();
        let hm = read_compound(c, "Heightmaps", &none)?;
        let heightmaps = Heightmap::from_children(hm)?;
        let cm = read_compound(c, "CarvingMasks", &none)?;
        let air = match read_longs(cm, "AIR")? {
            Some(l) => l,
            None => Vec::new(),
        };
        let liquid = match read_longs(cm, "LIQUID")? {
            Some(l) => l,
            None => Vec::new(),
        };
        let st = read_compound(c, "structures", &none)?;
        let starts = read_compound(st, "starts", &none)?;
        let structures = structure_starts(starts)?;
        let refs = read_compound(st, "References", &none)?;
        let references = structure_references(refs)?;
        let lights = short_lists(c, "Lights")?;
        let post_processing = short_lists(c, "PostProcessing")?;
        let is_light_on = read_byte(c, "isLightOn", 0)?;
        let unknown_fields = unknown_fields(c, FieldSet::Chunk);
        Ok(Chunk {
            data_version,
            x_pos,
            z_pos,
            y_pos,
            status,
            last_update,
            inhabited_time,
            sections,
            block_entities,
            carving_masks: CarvingMask { air, liquid },
            heightmaps,
            fluid_ticks,
            block_ticks,
            structures,
            references,
            lights,
            post_processing,
            is_light_on,
            unknown_fields,
        })
    }
}

/// The outcome of reading a chunk from its compression byte and payload:
/// each stage's error, and the projection of the parsed root.
pub open spec fn pipeline_result(r: Result<Chunk, ChunkError>, compression: u8, payload: Seq<u8>) -> bool {
    match decompressed(payload, compression) {
        Err(e) => r == Err::<Chunk, ChunkError>(e),
        Ok(raw) => match nbt_of(raw) {
            Err(x) => r == Err::<Chunk, ChunkError>(ChunkError::Nbt(x)),
            Ok(root) => match root.payload {
                PayloadV::Compound(c) => chunk_result(r, c),
                p => r == Err::<Chunk, ChunkError>(
                    ChunkError::Tag(TagError::WrongTagType { expected: TagType::Compound, actual: type_of(p) }),
                ),
            },
        },
    }
}

impl Chunk {
    /// Decompresses, parses and projects a chunk payload.
    pub fn from_compressed(compression: u8, payload: &[u8]) -> (r: Result<Chunk, ChunkError>)
        ensures
            pipeline_result(r, compression, payload@),
    {
        let raw = decompress(payload, compression)?;
        let root = match parse_nbt(raw.as_slice()) {
            Ok(t) => t,
            Err(x) => {
                return Err(ChunkError::Nbt(x));
            },
        };
        Chunk::from_root(&root)
    }

    /// Reads a chunk from its frame: length, compression byte, payload.
    pub fn new(frame: &[u8]) -> (r: Result<Chunk, ChunkError>)
        ensures
            match frame_of(frame@, 0, frame@.len() as int) {
                Err(e) => r == Err::<Chunk, ChunkError>(e),
                Ok((c, p)) => pipeline_result(r, c, p),
            },
    {
        let (c, p) = read_frame(frame, 0, frame.len())?;
        Chunk::from_compressed(c, p)
    }
}

} // verus!

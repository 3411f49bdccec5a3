use std::io::Write;

use anvil_reader::chunk::Chunk;
use anvil_reader::cursor::NbtError;
use anvil_reader::error::ChunkError;
use anvil_reader::frame::{decompress, finish_decompress, read_frame, MAX_CHUNK_BYTES};
use anvil_reader::grid::UnpackError;
use anvil_reader::nbt::parse_nbt;
use anvil_reader::section::{BlockStates, Biomes};
use anvil_reader::tag::{TagError, TagType};

fn named(id: u8, name: &str) -> Vec<u8> {
    let mut v = vec![id];
    v.extend_from_slice(&(name.len() as u16).to_be_bytes());
    v.extend_from_slice(name.as_bytes());
    v
}

fn int_tag(name: &str, v: i32) -> Vec<u8> {
    let mut b = named(3, name);
    b.extend_from_slice(&v.to_be_bytes());
    b
}

fn long(name: &str, v: i64) -> Vec<u8> {
    let mut b = named(4, name);
    b.extend_from_slice(&v.to_be_bytes());
    b
}

fn text(s: &str) -> Vec<u8> {
    let mut b = (s.len() as u16).to_be_bytes().to_vec();
    b.extend_from_slice(s.as_bytes());
    b
}

fn string(name: &str, s: &str) -> Vec<u8> {
    let mut b = named(8, name);
    b.extend(text(s));
    b
}

fn longs(name: &str, v: &[i64]) -> Vec<u8> {
    let mut b = named(12, name);
    b.extend_from_slice(&(v.len() as i32).to_be_bytes());
    for x in v {
        b.extend_from_slice(&x.to_be_bytes());
    }
    b
}

fn compound(name: &str, body: Vec<u8>) -> Vec<u8> {
    let mut b = named(10, name);
    b.extend(body);
    b.push(0);
    b
}

fn list(name: &str, elem: u8, items: Vec<Vec<u8>>) -> Vec<u8> {
    let mut b = named(9, name);
    b.push(elem);
    b.extend_from_slice(&(items.len() as i32).to_be_bytes());
    for i in items {
        b.extend(i);
    }
    b
}

fn payload_compound(body: Vec<u8>) -> Vec<u8> {
    let mut b = body;
    b.push(0);
    b
}

fn section() -> Vec<u8> {
    let mut data = vec![0i64; 256];
    data[0] = 0x1;
    let mut props = string("facing", "north");
    props.extend(int_tag("ignored", 1));
    let mut stone = string("Name", "minecraft:stone");
    stone.extend(compound("Properties", props));
    let mut states = list(
        "palette",
        10,
        vec![payload_compound(string("Name", "minecraft:air")), payload_compound(stone)],
    );
    states.extend(longs("data", &data));
    let biomes = list("palette", 8, vec![text("minecraft:plains")]);
    let mut light = named(7, "BlockLight");
    light.extend_from_slice(&2048i32.to_be_bytes());
    let mut bytes = vec![0u8; 2048];
    bytes[0] = 0x21;
    light.extend(bytes);
    let mut body = named(1, "Y");
    body.push(0xFF);
    body.extend(compound("block_states", states));
    body.extend(compound("biomes", biomes));
    body.extend(light);
    payload_compound(body)
}

fn chunk_nbt(data_version: i32) -> Vec<u8> {
    let mut heights = vec![0i64; 37];
    heights[0] = 5 | (7 << 9);
    let mut entity = string("id", "minecraft:chest");
    entity.extend(string("CustomName", "box"));
    entity.extend(int_tag("x", 1));
    let mut start = string("id", "minecraft:village");
    start.extend(int_tag("ChunkX", 4));
    start.extend(int_tag("ChunkZ", 5));
    let mut piece = string("id", "minecraft:jigsaw");
    piece.extend(int_tag("Num", 1));
    piece.extend(int_tag("Odd", 2));
    start.extend(list("Children", 10, vec![payload_compound(piece)]));
    start.extend(int_tag("Extra", 3));
    let packed = ((-1i64) << 32) | 2;
    let mut structures = compound("References", longs("village", &[packed]));
    structures.extend(compound("starts", compound("village", start)));
    let mut body = int_tag("DataVersion", data_version);
    body.extend(int_tag("xPos", 3));
    body.extend(int_tag("zPos", -2));
    body.extend(int_tag("yPos", -4));
    body.extend(string("Status", "minecraft:full"));
    body.extend(long("LastUpdate", 1234));
    body.extend(long("InhabitedTime", 99));
    body.extend(list("sections", 10, vec![section()]));
    body.extend(compound("Heightmaps", longs("MOTION_BLOCKING", &heights)));
    body.extend(list("block_entities", 10, vec![payload_compound(entity)]));
    body.extend(compound("structures", structures));
    let mut lights = vec![2u8];
    lights.extend_from_slice(&2i32.to_be_bytes());
    lights.extend_from_slice(&0x0102i16.to_be_bytes());
    lights.extend_from_slice(&(-3i16).to_be_bytes());
    body.extend(list("Lights", 9, vec![lights, vec![0, 0, 0, 0, 0]]));
    let mut on = named(1, "isLightOn");
    on.push(1);
    body.extend(on);
    body.extend(int_tag("Foo", 1));
    compound("", body)
}

fn framed(compression: u8, payload: &[u8]) -> Vec<u8> {
    let mut f = ((payload.len() + 1) as u32).to_be_bytes().to_vec();
    f.push(compression);
    f.extend_from_slice(payload);
    f
}

fn zlib(data: &[u8]) -> Vec<u8> {
    let mut e = flate2::write::ZlibEncoder::new(Vec::new(), flate2::Compression::default());
    e.write_all(data).unwrap();
    e.finish().unwrap()
}

fn gzip(data: &[u8]) -> Vec<u8> {
    let mut e = flate2::write::GzEncoder::new(Vec::new(), flate2::Compression::default());
    e.write_all(data).unwrap();
    e.finish().unwrap()
}

fn check_chunk(c: &Chunk) {
    assert_eq!(c.data_version, 3465);
    assert_eq!((c.x_pos, c.z_pos, c.y_pos), (3, -2, -4));
    assert_eq!(c.status, "minecraft:full");
    assert_eq!(c.last_update, 1234);
    assert_eq!(c.inhabited_time, 99);
    assert_eq!(c.sections.len(), 1);
    let s = &c.sections[0];
    assert_eq!(s.y, -1);
    assert_eq!(s.block_states.palette.len(), 2);
    assert_eq!(s.block_states.palette[0].name, "minecraft:air");
    assert_eq!(s.block_states.palette[1].name, "minecraft:stone");
    assert_eq!(
        s.block_states.palette[1].properties,
        vec![(String::from("facing"), String::from("north"))]
    );
    assert_eq!(s.block_states.data.len(), 4096);
    assert_eq!(s.block_states.data[0], 1);
    assert!(s.block_states.data[1..].iter().all(|&v| v == 0));
    assert_eq!(s.biomes.palette, vec![String::from("minecraft:plains")]);
    assert_eq!(s.biomes.data, vec![0u32; 64]);
    assert_eq!(s.block_light.len(), 4096);
    assert_eq!(&s.block_light[..3], &[1, 2, 0]);
    assert!(s.sky_light.is_empty());
    assert_eq!(c.heightmaps.motion_blocking[0], 5);
    assert_eq!(c.heightmaps.motion_blocking[1], 7);
    assert!(c.heightmaps.motion_blocking[2..].iter().all(|&v| v == 0));
    assert_eq!(c.heightmaps.ocean_floor, vec![0u16; 256]);
    assert_eq!(c.block_entities.len(), 1);
    assert_eq!(c.block_entities[0].entity_type, "minecraft:chest");
    assert_eq!(
        c.block_entities[0].properties,
        vec![
            (String::from("id"), String::from("minecraft:chest")),
            (String::from("CustomName"), String::from("box"))
        ]
    );
    assert_eq!(c.structures.len(), 1);
    assert_eq!(c.structures[0].structure_name, "minecraft:village");
    assert_eq!((c.structures[0].x, c.structures[0].z), (4, 5));
    assert_eq!(
        c.structures[0].unknown_fields,
        vec![String::from("Extra"), String::from("Odd")]
    );
    assert_eq!(c.references.len(), 1);
    assert_eq!(c.references[0].name, "village");
    assert_eq!(c.references[0].chunks, vec![(2, -1)]);
    assert_eq!(c.unknown_fields, vec![String::from("Foo")]);
    assert!(c.fluid_ticks.is_empty());
    assert!(c.carving_masks.air.is_empty());
    assert_eq!(c.lights, vec![vec![0x0102, -3], vec![]]);
    assert!(c.post_processing.is_empty());
    assert_eq!(c.is_light_on, 1);
}

#[test]
fn projects_chunk_from_root() {
    let root = parse_nbt(&chunk_nbt(3465)).unwrap();
    let c = Chunk::from_root(&root).unwrap();
    check_chunk(&c);
}

#[test]
fn reads_uncompressed_frame() {
    let c = Chunk::new(&framed(3, &chunk_nbt(3465))).unwrap();
    check_chunk(&c);
}

#[test]
fn reads_zlib_frame() {
    let c = Chunk::new(&framed(2, &zlib(&chunk_nbt(3465)))).unwrap();
    check_chunk(&c);
}

#[test]
fn reads_gzip_frame() {
    let c = Chunk::new(&framed(1, &gzip(&chunk_nbt(3465)))).unwrap();
    check_chunk(&c);
}

#[test]
fn decompress_inflates() {
    let raw = b"hello anvil".to_vec();
    assert_eq!(decompress(&zlib(&raw), 2), Ok(raw.clone()));
    assert_eq!(decompress(&gzip(&raw), 1), Ok(raw.clone()));
    assert_eq!(decompress(&raw, 3), Ok(raw.clone()));
}

#[test]
fn decompress_errors() {
    assert_eq!(decompress(&[1, 2, 3], 4), Err(ChunkError::UnknownCompression(4)));
    assert_eq!(decompress(&[1, 2, 3, 4], 2), Err(ChunkError::DecompressFailed));
    assert_eq!(decompress(&[1, 2, 3, 4], 1), Err(ChunkError::DecompressFailed));
    let big = vec![0u8; MAX_CHUNK_BYTES as usize + 1];
    assert_eq!(decompress(&zlib(&big), 2), Err(ChunkError::ChunkTooLarge));
    assert_eq!(finish_decompress(Some(big)), Err(ChunkError::ChunkTooLarge));
    assert_eq!(finish_decompress(None), Err(ChunkError::DecompressFailed));
}

#[test]
fn frame_errors() {
    assert_eq!(read_frame(&[0, 0, 0, 0, 2, 9], 0, 6), Err(ChunkError::BadFrameLength));
    assert_eq!(read_frame(&[0, 0, 0, 9, 2, 9], 0, 6), Err(ChunkError::BadFrameLength));
    assert_eq!(read_frame(&[0, 0, 0, 2, 2, 9, 7], 0, 7), Ok((2, &[9u8][..])));
}

#[test]
fn missing_data_version() {
    let root = parse_nbt(&compound("", int_tag("xPos", 1))).unwrap();
    assert_eq!(
        Chunk::from_root(&root).unwrap_err(),
        ChunkError::MissingRequiredField(String::from("DataVersion"))
    );
}

#[test]
fn old_data_version_is_rejected() {
    let root = parse_nbt(&chunk_nbt(1343)).unwrap();
    assert_eq!(Chunk::from_root(&root).unwrap_err(), ChunkError::UnsupportedDataVersion(1343));
}

#[test]
fn root_must_be_compound() {
    let root = parse_nbt(&int_tag("x", 1)).unwrap();
    assert_eq!(
        Chunk::from_root(&root).unwrap_err(),
        ChunkError::Tag(TagError::WrongTagType { expected: TagType::Compound, actual: TagType::Int })
    );
}

#[test]
fn field_of_wrong_type() {
    let mut body = int_tag("DataVersion", 3465);
    body.extend(int_tag("xPos", 0));
    body.extend(int_tag("zPos", 0));
    body.extend(string("LastUpdate", "x"));
    let root = parse_nbt(&compound("", body)).unwrap();
    assert_eq!(
        Chunk::from_root(&root).unwrap_err(),
        ChunkError::Tag(TagError::WrongTagType { expected: TagType::Long, actual: TagType::String })
    );
}

#[test]
fn nbt_error_in_frame() {
    let frame = framed(3, &[13, 0, 0]);
    assert_eq!(Chunk::new(&frame).unwrap_err(), ChunkError::Nbt(NbtError::InvalidTagType(13)));
}

#[test]
fn short_block_data_is_an_unpack_error() {
    let mut states = list(
        "palette",
        10,
        vec![
            payload_compound(string("Name", "a")),
            payload_compound(string("Name", "b")),
        ],
    );
    states.extend(longs("data", &[0, 0]));
    let sec = payload_compound(compound("block_states", states));
    let mut body = int_tag("DataVersion", 3465);
    body.extend(int_tag("xPos", 0));
    body.extend(int_tag("zPos", 0));
    body.extend(list("sections", 10, vec![sec]));
    let root = parse_nbt(&compound("", body)).unwrap();
    assert_eq!(
        Chunk::from_root(&root).unwrap_err(),
        ChunkError::Unpack(UnpackError::InsufficientPackedData)
    );
}

fn root_with_sections(sections: Vec<Vec<u8>>) -> Vec<u8> {
    let mut body = int_tag("DataVersion", 3465);
    body.extend(int_tag("xPos", 0));
    body.extend(int_tag("zPos", 0));
    body.extend(list("sections", 10, sections));
    compound("", body)
}

#[test]
fn light_only_section_projects() {
    let mut body = named(1, "Y");
    body.push(0xFC);
    let mut light = named(7, "SkyLight");
    light.extend_from_slice(&2048i32.to_be_bytes());
    let mut bytes = vec![0xFFu8; 2048];
    bytes[0] = 0x0F;
    light.extend(bytes);
    body.extend(light);
    let root = parse_nbt(&root_with_sections(vec![payload_compound(body)])).unwrap();
    let c = Chunk::from_root(&root).unwrap();
    let s = &c.sections[0];
    assert_eq!(s.y, -4);
    assert!(s.block_states.palette.is_empty());
    assert_eq!(s.block_states.data, vec![0u32; 4096]);
    assert!(s.biomes.palette.is_empty());
    assert_eq!(s.biomes.data, vec![0u32; 64]);
    assert_eq!(s.sky_light.len(), 4096);
    assert_eq!(&s.sky_light[..4], &[15, 0, 15, 15]);
    assert!(s.block_light.is_empty());
}

#[test]
fn duplicate_property_keys_keep_first() {
    let mut props = string("facing", "north");
    props.extend(string("facing", "south"));
    props.extend(int_tag("half", 1));
    props.extend(string("half", "top"));
    props.extend(string("lit", "true"));
    let mut stone = string("Name", "minecraft:furnace");
    stone.extend(compound("Properties", props));
    let states = list("palette", 10, vec![payload_compound(stone)]);
    let root = parse_nbt(&compound("", states)).unwrap();
    let bs = BlockStates::from_children(root.payload_compound().unwrap()).unwrap();
    assert_eq!(
        bs.palette[0].properties,
        vec![
            (String::from("facing"), String::from("north")),
            (String::from("lit"), String::from("true"))
        ]
    );
    assert_eq!(bs.data, vec![0u32; 4096]);
}

#[test]
fn block_index_out_of_palette_is_an_error() {
    let mut data = vec![0i64; 256];
    data[0] = 0x20;
    let mut states = list(
        "palette",
        10,
        vec![payload_compound(string("Name", "a")), payload_compound(string("Name", "b"))],
    );
    states.extend(longs("data", &data));
    let root = parse_nbt(&compound("", states)).unwrap();
    assert_eq!(
        BlockStates::from_children(root.payload_compound().unwrap()).unwrap_err(),
        ChunkError::Unpack(UnpackError::PaletteIndexOutOfRange { cell: 1, index: 2 })
    );
}

#[test]
fn biome_index_out_of_palette_is_an_error() {
    let mut biomes = list("palette", 8, vec![text("a"), text("b"), text("c")]);
    biomes.extend(longs("data", &[0b11_00, 0, 0, 0]));
    let root = parse_nbt(&compound("", biomes)).unwrap();
    assert_eq!(
        Biomes::from_children(root.payload_compound().unwrap()).unwrap_err(),
        ChunkError::Unpack(UnpackError::PaletteIndexOutOfRange { cell: 1, index: 3 })
    );
}

#[test]
fn single_biome_ignores_data() {
    let mut biomes = list("palette", 8, vec![text("minecraft:plains")]);
    biomes.extend(longs("data", &[-1, -1]));
    let root = parse_nbt(&compound("", biomes)).unwrap();
    let b = Biomes::from_children(root.payload_compound().unwrap()).unwrap();
    assert_eq!(b.data, vec![0u32; 64]);
}

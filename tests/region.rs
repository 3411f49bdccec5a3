use anvil_reader::error::{ChunkError, RegionError};
use anvil_reader::region::{
    chunk_frame, parse_region_name, present_slots, read_region_index, Region, RegionHeader,
};
use anvil_reader::world::World;

fn set_slot(file: &mut [u8], i: usize, offset: u32, count: u8, mtime: u32) {
    let o = offset.to_be_bytes();
    file[4 * i] = o[1];
    file[4 * i + 1] = o[2];
    file[4 * i + 2] = o[3];
    file[4 * i + 3] = count;
    file[4096 + 4 * i..4096 + 4 * i + 4].copy_from_slice(&mtime.to_be_bytes());
}

fn raw_chunk_frame() -> Vec<u8> {
    // A root compound holding the three required fields.
    let mut nbt = vec![10, 0, 0];
    for (name, v) in [("DataVersion", 3465i32), ("xPos", 1), ("zPos", 2)] {
        nbt.push(3);
        nbt.extend_from_slice(&(name.len() as u16).to_be_bytes());
        nbt.extend_from_slice(name.as_bytes());
        nbt.extend_from_slice(&v.to_be_bytes());
    }
    nbt.push(0);
    let mut f = ((nbt.len() + 1) as u32).to_be_bytes().to_vec();
    f.push(3);
    f.extend(nbt);
    f
}

fn region_file() -> Vec<u8> {
    let mut file = vec![0u8; 4 * 4096];
    set_slot(&mut file, 0, 2, 1, 100);
    set_slot(&mut file, 33, 3, 1, 200);
    set_slot(&mut file, 5, 0, 1, 0);
    set_slot(&mut file, 6, 9, 0, 0);
    set_slot(&mut file, 7, 200, 1, 0);
    let frame = raw_chunk_frame();
    file[8192..8192 + frame.len()].copy_from_slice(&frame);
    file[12288..12288 + frame.len()].copy_from_slice(&frame);
    file
}

#[test]
fn scenario_slot_decoding() {
    let mut file = vec![0u8; 3 * 4096];
    file[0..4].copy_from_slice(&[0x00, 0x00, 0x02, 0x01]);
    file[8192..8201].copy_from_slice(&[0x00, 0x00, 0x00, 0x05, 0x02, 0x78, 0x9C, 0x03, 0x00]);
    let slots = read_region_index(&file).unwrap();
    assert_eq!(slots[0], RegionHeader { offset: 2, sectors: 1, updated: 0 });
    let (compression, payload) = chunk_frame(&file, &slots[0]).unwrap();
    assert_eq!(compression, 2);
    assert_eq!(payload, &[0x78, 0x9C, 0x03, 0x00]);
}

#[test]
fn region_index_fields() {
    let file = region_file();
    let slots = read_region_index(&file).unwrap();
    assert_eq!(slots.len(), 1024);
    assert_eq!(slots[33], RegionHeader { offset: 3, sectors: 1, updated: 200 });
    assert_eq!(slots[0].updated, 100);
    assert!(!slots[5].is_present());
    assert!(!slots[6].is_present());
}

#[test]
fn present_slots_are_exactly_nonzero_ones() {
    let file = region_file();
    let slots = read_region_index(&file).unwrap();
    assert_eq!(present_slots(&slots), vec![0, 7, 33]);
}

#[test]
fn truncated_region_header() {
    assert_eq!(read_region_index(&vec![0u8; 8191]).unwrap_err(), RegionError::TruncatedRegionHeader);
    assert_eq!(Region::new("r.0.0.mca", &[0u8; 100]).unwrap_err(), RegionError::TruncatedRegionHeader);
}

#[test]
fn out_of_range_slot() {
    let file = region_file();
    let h = RegionHeader { offset: 200, sectors: 1, updated: 0 };
    assert_eq!(chunk_frame(&file, &h).unwrap_err(), ChunkError::OutOfRangeSlot);
    let header_slot = RegionHeader { offset: 1, sectors: 1, updated: 0 };
    assert_eq!(chunk_frame(&file, &header_slot).unwrap_err(), ChunkError::OutOfRangeSlot);
}

#[test]
fn region_loads_present_chunks() {
    let file = region_file();
    let region = Region::new("r.1.-2.mca", &file).unwrap();
    assert_eq!((region.region_x, region.region_z), (1, -2));
    assert_eq!((region.x, region.z), (512, -1024));
    let slots: Vec<usize> = region.chunks.iter().map(|c| c.slot).collect();
    assert_eq!(slots, vec![0, 7, 33]);
    let first = region.chunks[0].chunk.as_ref().unwrap();
    assert_eq!((first.x_pos, first.z_pos), (1, 2));
    assert_eq!(region.chunks[0].updated, 100);
    assert_eq!(region.chunks[1].chunk.as_ref().unwrap_err(), &ChunkError::OutOfRangeSlot);
    assert!(region.chunks[2].chunk.is_ok());
    assert_eq!((region.chunks[0].x, region.chunks[0].z), (512, -1024));
    assert_eq!((region.chunks[2].x, region.chunks[2].z), (528, -1008));
}

#[test]
fn region_file_names() {
    assert_eq!(parse_region_name("r.0.0.mca"), Some((0, 0)));
    assert_eq!(parse_region_name("r.-3.12.mcr"), Some((-3, 12)));
    assert_eq!(parse_region_name("r.-2147483648.2147483647.mca"), Some((i32::MIN, i32::MAX)));
    assert_eq!(parse_region_name("r.2147483648.0.mca"), None);
    assert_eq!(parse_region_name("r.1.2.txt"), None);
    assert_eq!(parse_region_name("r.1.mca"), None);
    assert_eq!(parse_region_name("r.1.2.3.mca"), None);
    assert_eq!(parse_region_name("r..2.mca"), None);
    assert_eq!(parse_region_name("x.1.2.mca"), None);
    assert_eq!(parse_region_name("r.-.2.mca"), None);
}

#[test]
fn bad_file_name() {
    assert_eq!(Region::new("level.dat", &region_file()).unwrap_err(), RegionError::BadFileName);
}

#[test]
fn world_collects_regions() {
    let mut world = World::new(String::from("/tmp/world"));
    assert!(World::is_region_file("r.0.1.mca"));
    assert!(!World::is_region_file("r.0.1.dat"));
    world.add_region("r.0.1.mca", &region_file());
    world.add_region("r.0.2.mca", &[0u8; 10]);
    assert_eq!(world.regions.len(), 2);
    assert!(world.regions[0].is_ok());
    assert_eq!(world.regions[1].as_ref().unwrap_err(), &RegionError::TruncatedRegionHeader);
}

#[test]
fn load_chunks_reads_index_from_file() {
    let mut region = Region::new("r.0.0.mca", &region_file()).unwrap();
    assert_eq!(region.load_chunks(&[0u8; 8000]), Err(RegionError::TruncatedRegionHeader));
    assert_eq!(region.chunks.len(), 3);
    let mut other = region_file();
    set_slot(&mut other, 0, 0, 0, 0);
    assert_eq!(region.load_chunks(&other), Ok(()));
    assert_eq!(region.headers[0], RegionHeader { offset: 0, sectors: 0, updated: 0 });
    let slots: Vec<usize> = region.chunks.iter().map(|c| c.slot).collect();
    assert_eq!(slots, vec![7, 33]);
}

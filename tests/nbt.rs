use anvil_reader::cursor::{Cursor, NbtError};
use anvil_reader::nbt::{parse_nbt, NBT};
use anvil_reader::tag::{Payload, Tag, TagError, TagType};

fn named(id: u8, name: &str) -> Vec<u8> {
    let mut v = vec![id];
    v.extend_from_slice(&(name.len() as u16).to_be_bytes());
    v.extend_from_slice(name.as_bytes());
    v
}

#[test]
fn scenario_test_int() {
    let bytes = vec![
        0x03, 0x00, 0x08, 0x54, 0x65, 0x73, 0x74, 0x5F, 0x49, 0x6E, 0x74, 0x01, 0x02, 0x03, 0x04,
    ];
    let tag = parse_nbt(&bytes).unwrap();
    assert_eq!(tag.name, "Test_Int");
    assert_eq!(tag.payload_int(), Ok(16909060));
    assert_eq!(tag.tag_type(), TagType::Int);
}

#[test]
fn scenario_test_string() {
    let bytes = vec![
        0x08, 0x00, 0x0B, 0x54, 0x65, 0x73, 0x74, 0x5F, 0x53, 0x74, 0x72, 0x69, 0x6E, 0x67, 0x00,
        0x03, 0x66, 0x6F, 0x6F,
    ];
    let tag = parse_nbt(&bytes).unwrap();
    assert_eq!(tag.name, "Test_String");
    assert_eq!(tag.payload_string(), Ok(String::from("foo")));
}

#[test]
fn scenario_test_list_of_bytes() {
    let bytes = vec![
        0x09, 0x00, 0x09, 0x54, 0x65, 0x73, 0x74, 0x5F, 0x4C, 0x69, 0x73, 0x74, 0x01, 0x00, 0x00,
        0x00, 0x08, 0x01, 0x02, 0x03, 0x04, 0x05, 0x06, 0x07, 0x08,
    ];
    let tag = parse_nbt(&bytes).unwrap();
    assert_eq!(tag.name, "Test_List");
    let (elem, items) = tag.payload_list().unwrap();
    assert_eq!(elem, TagType::Byte);
    let values: Vec<i8> = items
        .iter()
        .map(|p| match p {
            Payload::Byte(b) => *b,
            _ => panic!("not a byte"),
        })
        .collect();
    assert_eq!(values, vec![1, 2, 3, 4, 5, 6, 7, 8]);
}

#[test]
fn empty_list_of_end_is_valid() {
    let mut bytes = named(9, "l");
    bytes.extend_from_slice(&[0, 0, 0, 0, 0]);
    let tag = parse_nbt(&bytes).unwrap();
    let (elem, items) = tag.payload_list().unwrap();
    assert_eq!(elem, TagType::End);
    assert!(items.is_empty());
}

#[test]
fn non_empty_list_of_end_is_rejected() {
    let mut bytes = named(9, "l");
    bytes.extend_from_slice(&[0, 0, 0, 0, 2]);
    assert_eq!(parse_nbt(&bytes).unwrap_err(), NbtError::InvalidTagType(0));
}

#[test]
fn compound_with_only_end_is_empty() {
    let mut bytes = named(10, "c");
    bytes.push(0);
    let tag = parse_nbt(&bytes).unwrap();
    let children = tag.payload_compound().unwrap();
    assert_eq!(children.len(), 1);
    assert_eq!(children[0].tag_type(), TagType::End);
    assert!(tag.find("anything").is_none());
}

#[test]
fn compound_children_and_find_first() {
    let mut bytes = named(10, "root");
    bytes.extend(named(3, "a"));
    bytes.extend_from_slice(&7i32.to_be_bytes());
    bytes.extend(named(3, "a"));
    bytes.extend_from_slice(&9i32.to_be_bytes());
    bytes.extend(named(4, "b"));
    bytes.extend_from_slice(&(-2i64).to_be_bytes());
    bytes.push(0);
    let tag = parse_nbt(&bytes).unwrap();
    assert_eq!(tag.find("a").unwrap().payload_int(), Ok(7));
    assert_eq!(tag.find("b").unwrap().payload_long(), Ok(-2));
    assert!(tag.find("c").is_none());
    assert_eq!(tag.payload_compound().unwrap().len(), 4);
}

#[test]
fn all_scalar_and_array_payloads() {
    let mut bytes = named(10, "");
    bytes.extend(named(1, "b"));
    bytes.push(0xFF);
    bytes.extend(named(2, "s"));
    bytes.extend_from_slice(&(-300i16).to_be_bytes());
    bytes.extend(named(5, "f"));
    bytes.extend_from_slice(&1.5f32.to_be_bytes());
    bytes.extend(named(6, "d"));
    bytes.extend_from_slice(&(-0.25f64).to_be_bytes());
    bytes.extend(named(7, "ba"));
    bytes.extend_from_slice(&3i32.to_be_bytes());
    bytes.extend_from_slice(&[9, 8, 7]);
    bytes.extend(named(11, "ia"));
    bytes.extend_from_slice(&2i32.to_be_bytes());
    bytes.extend_from_slice(&(-1i32).to_be_bytes());
    bytes.extend_from_slice(&0x01020304i32.to_be_bytes());
    bytes.extend(named(12, "la"));
    bytes.extend_from_slice(&1i32.to_be_bytes());
    bytes.extend_from_slice(&i64::MIN.to_be_bytes());
    bytes.push(0);
    let tag = parse_nbt(&bytes).unwrap();
    assert_eq!(tag.find("b").unwrap().payload_byte(), Ok(-1));
    assert_eq!(tag.find("s").unwrap().payload_short(), Ok(-300));
    assert_eq!(f32::from_bits(tag.find("f").unwrap().payload_float_bits().unwrap()), 1.5f32);
    assert_eq!(f64::from_bits(tag.find("d").unwrap().payload_double_bits().unwrap()), -0.25f64);
    assert_eq!(tag.find("ba").unwrap().payload_byte_array(), Ok(vec![9, 8, 7]));
    assert_eq!(tag.find("ia").unwrap().payload_int_array(), Ok(vec![-1, 0x01020304]));
    assert_eq!(tag.find("la").unwrap().payload_long_array(), Ok(vec![i64::MIN]));
}

#[test]
fn wrong_tag_type_is_reported() {
    let bytes = vec![0x03, 0x00, 0x01, b'x', 0, 0, 0, 1];
    let tag = parse_nbt(&bytes).unwrap();
    assert_eq!(
        tag.payload_long(),
        Err(TagError::WrongTagType { expected: TagType::Long, actual: TagType::Int })
    );
    assert_eq!(
        tag.payload_string(),
        Err(TagError::WrongTagType { expected: TagType::String, actual: TagType::Int })
    );
}

#[test]
fn truncated_input_is_unexpected_eof() {
    let bytes = vec![
        0x03, 0x00, 0x08, 0x54, 0x65, 0x73, 0x74, 0x5F, 0x49, 0x6E, 0x74, 0x01, 0x02, 0x03, 0x04,
    ];
    for cut in 0..bytes.len() {
        assert_eq!(parse_nbt(&bytes[..cut]).unwrap_err(), NbtError::UnexpectedEof, "cut {}", cut);
    }
}

#[test]
fn truncated_compound_is_unexpected_eof() {
    let mut bytes = named(10, "c");
    bytes.extend(named(1, "x"));
    bytes.push(5);
    assert_eq!(parse_nbt(&bytes).unwrap_err(), NbtError::UnexpectedEof);
}

#[test]
fn invalid_tag_type_is_rejected() {
    let bytes = vec![13, 0, 0];
    assert_eq!(parse_nbt(&bytes).unwrap_err(), NbtError::InvalidTagType(13));
}

#[test]
fn negative_length_is_rejected() {
    let mut bytes = named(7, "a");
    bytes.extend_from_slice(&(-1i32).to_be_bytes());
    assert_eq!(parse_nbt(&bytes).unwrap_err(), NbtError::NegativeLength(-1));
    let mut list = named(9, "l");
    list.push(1);
    list.extend_from_slice(&(-5i32).to_be_bytes());
    assert_eq!(parse_nbt(&list).unwrap_err(), NbtError::NegativeLength(-5));
}

#[test]
fn bad_utf8_is_rejected() {
    let bytes = vec![8, 0, 1, b'n', 0, 2, 0xC3, 0x28];
    assert_eq!(parse_nbt(&bytes).unwrap_err(), NbtError::BadUtf8);
    let name = vec![1, 0, 1, 0xFF, 0];
    assert_eq!(parse_nbt(&name).unwrap_err(), NbtError::BadUtf8);
}

#[test]
fn end_tag_has_no_name() {
    let tag = parse_nbt(&[0]).unwrap();
    assert_eq!(tag.name, "");
    assert_eq!(tag.tag_type(), TagType::End);
}

#[test]
fn nbt_new_and_tag_new() {
    let bytes = vec![0x01, 0x00, 0x01, b'b', 0x80];
    let nbt = NBT::new(&bytes).unwrap();
    assert_eq!(nbt.tags.payload_byte(), Ok(-128));
    let tag = Tag::new(&bytes).unwrap();
    assert_eq!(tag.name, "b");
    assert_eq!(NBT::new(&vec![]).unwrap_err(), NbtError::UnexpectedEof);
}

#[test]
fn id_type_and_names() {
    assert_eq!(Tag::id_type(0), TagType::End);
    assert_eq!(Tag::id_type(12), TagType::LongArray);
    assert_eq!(Tag::id_string(TagType::Compound), "Compound");
    assert_eq!(Tag::id_string(TagType::ByteArray), "ByteArray");
}

#[test]
fn cursor_reads_past_end_fail() {
    let data = [1u8, 2, 3];
    let mut c = Cursor::new(&data);
    assert_eq!(c.read_u16(), Ok(0x0102));
    assert_eq!(c.read_u16(), Err(NbtError::UnexpectedEof));
    assert_eq!(c.pos, 2);
    assert_eq!(c.read_bytes(5), Err(NbtError::UnexpectedEof));
    assert_eq!(c.read_i8(), Ok(3));
    assert_eq!(c.read_u8(), Err(NbtError::UnexpectedEof));
    assert_eq!(c.pos, 3);
}

#[test]
fn cursor_big_endian_signed_reads() {
    let data = [0xFF, 0xFF, 0xFF, 0xFE, 0x80, 0, 0, 0, 0, 0, 0, 0];
    let mut c = Cursor::new(&data);
    assert_eq!(c.read_i32(), Ok(-2));
    assert_eq!(c.read_i64(), Ok(i64::MIN));
    let mut d = Cursor::new(&data);
    assert_eq!(d.read_u32(), Ok(0xFFFF_FFFE));
    assert_eq!(d.read_i16(), Ok(-32768));
    assert_eq!(d.read_uint(3), Ok(0));
}

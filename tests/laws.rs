use anvil_reader::nbt::{parse_nbt, parse_tag};
use anvil_reader::section::payload_type;
use anvil_reader::tag::{Payload, Tag, TagType};

fn id(t: TagType) -> u8 {
    match t {
        TagType::End => 0,
        TagType::Byte => 1,
        TagType::Short => 2,
        TagType::Int => 3,
        TagType::Long => 4,
        TagType::Float => 5,
        TagType::Double => 6,
        TagType::ByteArray => 7,
        TagType::String => 8,
        TagType::List => 9,
        TagType::Compound => 10,
        TagType::IntArray => 11,
        TagType::LongArray => 12,
    }
}

fn encode_text(s: &str, out: &mut Vec<u8>) {
    out.extend_from_slice(&(s.len() as u16).to_be_bytes());
    out.extend_from_slice(s.as_bytes());
}

fn encode_payload(p: &Payload, out: &mut Vec<u8>) {
    match p {
        Payload::End => {}
        Payload::Byte(v) => out.extend_from_slice(&v.to_be_bytes()),
        Payload::Short(v) => out.extend_from_slice(&v.to_be_bytes()),
        Payload::Int(v) => out.extend_from_slice(&v.to_be_bytes()),
        Payload::Long(v) => out.extend_from_slice(&v.to_be_bytes()),
        Payload::Float(v) => out.extend_from_slice(&v.to_be_bytes()),
        Payload::Double(v) => out.extend_from_slice(&v.to_be_bytes()),
        Payload::ByteArray(b) => {
            out.extend_from_slice(&(b.len() as i32).to_be_bytes());
            out.extend_from_slice(b);
        }
        Payload::String(s) => encode_text(s, out),
        Payload::List(t, items) => {
            out.push(id(*t));
            out.extend_from_slice(&(items.len() as i32).to_be_bytes());
            for i in items {
                encode_payload(i, out);
            }
        }
        Payload::Compound(children) => {
            for c in children {
                encode_tag(c, out);
            }
        }
        Payload::IntArray(v) => {
            out.extend_from_slice(&(v.len() as i32).to_be_bytes());
            for x in v {
                out.extend_from_slice(&x.to_be_bytes());
            }
        }
        Payload::LongArray(v) => {
            out.extend_from_slice(&(v.len() as i32).to_be_bytes());
            for x in v {
                out.extend_from_slice(&x.to_be_bytes());
            }
        }
    }
}

fn encode_tag(t: &Tag, out: &mut Vec<u8>) {
    match &t.payload {
        Payload::End => out.push(0),
        p => {
            out.push(id(payload_type(p)));
            encode_text(&t.name, out);
            encode_payload(p, out);
        }
    }
}

fn sample() -> Vec<u8> {
    let mut b = vec![10, 0, 4];
    b.extend_from_slice(b"root");
    // Short "s" = -2
    b.extend_from_slice(&[2, 0, 1, b's', 0xFF, 0xFE]);
    // List "l" of two Int arrays
    b.extend_from_slice(&[9, 0, 1, b'l', 11, 0, 0, 0, 2]);
    b.extend_from_slice(&[0, 0, 0, 1, 0, 0, 0, 7]);
    b.extend_from_slice(&[0, 0, 0, 0]);
    // Compound "c" with String "k" = "é" and End
    b.extend_from_slice(&[10, 0, 1, b'c', 8, 0, 1, b'k', 0, 2, 0xC3, 0xA9, 0]);
    // Double "d"
    b.extend_from_slice(&[6, 0, 1, b'd']);
    b.extend_from_slice(&2.5f64.to_be_bytes());
    b.push(0);
    b
}

#[test]
fn parse_consumes_exactly_one_tag() {
    let one = sample();
    let mut buffer = one.clone();
    buffer.extend_from_slice(&[1, 2, 3]);
    let (tag, end) = parse_tag(&buffer, 0).unwrap();
    assert_eq!(end, one.len());
    let mut encoded = Vec::new();
    encode_tag(&tag, &mut encoded);
    assert_eq!(encoded.len(), one.len());
}

#[test]
fn reserialized_tree_parses_back() {
    let bytes = sample();
    let tag = parse_nbt(&bytes).unwrap();
    let mut encoded = Vec::new();
    encode_tag(&tag, &mut encoded);
    assert_eq!(encoded, bytes);
    let again = parse_nbt(&encoded).unwrap();
    let mut twice = Vec::new();
    encode_tag(&again, &mut twice);
    assert_eq!(twice, encoded);
    assert_eq!(again.find("c").unwrap().find("k").unwrap().payload_string(), Ok(String::from("é")));
}

use fastnbt::nbt::{find_compound, find_list, skip_compound, Error, Parser, Tag, Value};
use fastnbt::bytes::IoError;

fn named(tag: u8, name: &str) -> Vec<u8> {
    let mut v = vec![tag];
    let n = name.as_bytes();
    v.push((n.len() >> 8) as u8);
    v.push((n.len() & 0xff) as u8);
    v.extend_from_slice(n);
    v
}

fn some(name: &str) -> Option<String> {
    Some(name.to_string())
}

#[test]
fn empty_list_in_nbt() {
    // Root compound holding one field "xs": List<Byte> of count 0, then End.
    let mut doc = named(10, "");
    doc.extend_from_slice(&named(9, "xs"));
    doc.push(1); // element tag: Byte
    doc.extend_from_slice(&[0, 0, 0, 0]); // count 0
    doc.push(0); // End
    let mut p = Parser::new(doc);
    assert_eq!(p.next().unwrap(), Value::Compound(some("")));
    assert_eq!(p.next().unwrap(), Value::List(some("xs"), Tag::Byte, 0));
    assert_eq!(p.next().unwrap(), Value::ListEnd);
    assert_eq!(p.next().unwrap(), Value::CompoundEnd);
    assert_eq!(p.next(), Err(Error::EOF));
}

#[test]
fn eof_is_idempotent() {
    let mut doc = named(10, "");
    doc.push(0);
    let mut p = Parser::new(doc);
    assert_eq!(p.next().unwrap(), Value::Compound(some("")));
    assert_eq!(p.next().unwrap(), Value::CompoundEnd);
    assert_eq!(p.next(), Err(Error::EOF));
    assert_eq!(p.next(), Err(Error::EOF));
}

#[test]
fn nested_compound_skip() {
    // Root { inner: Compound { a: Int 1 }, b: Int 2 }.
    let mut doc = named(10, "");
    doc.extend_from_slice(&named(10, "inner"));
    doc.extend_from_slice(&named(3, "a"));
    doc.extend_from_slice(&[0, 0, 0, 1]);
    doc.push(0); // End of inner
    doc.extend_from_slice(&named(3, "b"));
    doc.extend_from_slice(&[0, 0, 0, 2]);
    doc.push(0); // End of root
    let mut p = Parser::new(doc);
    assert_eq!(p.next().unwrap(), Value::Compound(some("")));
    assert_eq!(p.next().unwrap(), Value::Compound(some("inner")));
    skip_compound(&mut p).unwrap();
    assert_eq!(p.next().unwrap(), Value::Int(some("b"), 2));
}

#[test]
fn scalars_are_big_endian_and_signed() {
    let mut doc = named(10, "");
    doc.extend_from_slice(&named(1, "b"));
    doc.push(0xff); // Byte -1
    doc.extend_from_slice(&named(2, "s"));
    doc.extend_from_slice(&[0xff, 0xfe]); // Short -2
    doc.extend_from_slice(&named(3, "i"));
    doc.extend_from_slice(&[0x00, 0x01, 0x00, 0x00]); // Int 65536
    doc.extend_from_slice(&named(4, "l"));
    doc.extend_from_slice(&[0xff, 0xff, 0xff, 0xff, 0xff, 0xff, 0xff, 0xfd]); // Long -3
    doc.push(0);
    let mut p = Parser::new(doc);
    assert_eq!(p.next().unwrap(), Value::Compound(some("")));
    assert_eq!(p.next().unwrap(), Value::Byte(some("b"), -1));
    assert_eq!(p.next().unwrap(), Value::Short(some("s"), -2));
    assert_eq!(p.next().unwrap(), Value::Int(some("i"), 65536));
    assert_eq!(p.next().unwrap(), Value::Long(some("l"), -3));
    assert_eq!(p.next().unwrap(), Value::CompoundEnd);
    assert_eq!(p.next(), Err(Error::EOF));
}

#[test]
fn floats_carry_the_exact_bit_pattern() {
    let fbits = 3.5f32.to_bits();
    let dbits = (-0.1f64).to_bits();
    let mut doc = named(10, "");
    doc.extend_from_slice(&named(5, "f"));
    doc.extend_from_slice(&fbits.to_be_bytes());
    doc.extend_from_slice(&named(6, "d"));
    doc.extend_from_slice(&dbits.to_be_bytes());
    doc.push(0);
    let mut p = Parser::new(doc);
    assert_eq!(p.next().unwrap(), Value::Compound(some("")));
    assert_eq!(p.next().unwrap(), Value::Float(some("f"), fbits));
    assert_eq!(f32::from_bits(fbits), 3.5f32);
    assert_eq!(p.next().unwrap(), Value::Double(some("d"), dbits));
    assert_eq!(f64::from_bits(dbits), -0.1f64);
}

#[test]
fn string_payload() {
    let mut doc = named(10, "");
    doc.extend_from_slice(&named(8, "greeting"));
    doc.extend_from_slice(&[0, 2]);
    doc.extend_from_slice(b"hi");
    doc.push(0);
    let mut p = Parser::new(doc);
    assert_eq!(p.next().unwrap(), Value::Compound(some("")));
    assert_eq!(p.next().unwrap(), Value::String(some("greeting"), "hi".to_string()));
}

#[test]
fn non_ascii_name_is_decoded() {
    // The name is the two-byte UTF-8 encoding of a single character.
    let mut doc = named(10, "");
    doc.push(1);
    doc.extend_from_slice(&[0, 2, 0xc3, 0xa9]); // "é"
    doc.push(7);
    doc.push(0);
    let mut p = Parser::new(doc);
    assert_eq!(p.next().unwrap(), Value::Compound(some("")));
    assert_eq!(p.next().unwrap(), Value::Byte(some("\u{e9}"), 7));
}

#[test]
fn byte_array_keeps_bit_patterns() {
    let mut doc = named(10, "");
    doc.extend_from_slice(&named(7, "xs"));
    doc.extend_from_slice(&[0, 0, 0, 3]);
    doc.extend_from_slice(&[0xff, 0x00, 0x80]);
    doc.push(0);
    let mut p = Parser::new(doc);
    assert_eq!(p.next().unwrap(), Value::Compound(some("")));
    assert_eq!(p.next().unwrap(), Value::ByteArray(some("xs"), vec![-1i8, 0, -128]));
}

#[test]
fn int_and_long_arrays() {
    let mut doc = named(10, "");
    doc.extend_from_slice(&named(11, "is"));
    doc.extend_from_slice(&[0, 0, 0, 2]);
    doc.extend_from_slice(&[0xff, 0xff, 0xff, 0xff]); // -1
    doc.extend_from_slice(&[0, 0, 0, 5]); // 5
    doc.extend_from_slice(&named(12, "ls"));
    doc.extend_from_slice(&[0, 0, 0, 1]);
    doc.extend_from_slice(&[0x80, 0, 0, 0, 0, 0, 0, 0]); // i64::MIN
    doc.push(0);
    let mut p = Parser::new(doc);
    assert_eq!(p.next().unwrap(), Value::Compound(some("")));
    assert_eq!(p.next().unwrap(), Value::IntArray(some("is"), vec![-1i32, 5]));
    assert_eq!(p.next().unwrap(), Value::LongArray(some("ls"), vec![i64::MIN]));
}

#[test]
fn list_elements_are_unnamed() {
    let mut doc = named(10, "");
    doc.extend_from_slice(&named(9, "xs"));
    doc.push(1);
    doc.extend_from_slice(&[0, 0, 0, 2]);
    doc.extend_from_slice(&[5, 6]);
    doc.push(0);
    let mut p = Parser::new(doc);
    assert_eq!(p.next().unwrap(), Value::Compound(some("")));
    assert_eq!(p.next().unwrap(), Value::List(some("xs"), Tag::Byte, 2));
    assert_eq!(p.next().unwrap(), Value::Byte(None, 5));
    assert_eq!(p.next().unwrap(), Value::Byte(None, 6));
    assert_eq!(p.next().unwrap(), Value::ListEnd);
    assert_eq!(p.next().unwrap(), Value::CompoundEnd);
    assert_eq!(p.next(), Err(Error::EOF));
}

#[test]
fn negative_list_count_ends_immediately() {
    let mut doc = named(10, "");
    doc.extend_from_slice(&named(9, "xs"));
    doc.push(1);
    doc.extend_from_slice(&[0xff, 0xff, 0xff, 0xff]); // count -1
    doc.push(0);
    let mut p = Parser::new(doc);
    assert_eq!(p.next().unwrap(), Value::Compound(some("")));
    assert_eq!(p.next().unwrap(), Value::List(some("xs"), Tag::Byte, -1));
    assert_eq!(p.next().unwrap(), Value::ListEnd);
    assert_eq!(p.next().unwrap(), Value::CompoundEnd);
}

#[test]
fn negative_array_count_is_rejected() {
    let mut doc = named(10, "");
    doc.extend_from_slice(&named(7, "xs"));
    doc.extend_from_slice(&[0xff, 0xff, 0xff, 0xff]);
    doc.push(0);
    let mut p = Parser::new(doc);
    assert_eq!(p.next().unwrap(), Value::Compound(some("")));
    assert_eq!(p.next(), Err(Error::IO(IoError::UnexpectedEof)));
}

#[test]
fn unknown_tag_byte() {
    let mut p = Parser::new(vec![13]);
    assert_eq!(p.next(), Err(Error::InvalidTag(13)));
}

#[test]
fn end_at_root_is_invalid() {
    let mut p = Parser::new(vec![0]);
    assert_eq!(p.next(), Err(Error::InvalidTag(0)));
}

#[test]
fn non_utf8_name_is_invalid() {
    let mut p = Parser::new(vec![1, 0, 1, 0xff, 7]);
    assert_eq!(p.next(), Err(Error::InvalidName));
}

#[test]
fn truncated_payload_is_io_error() {
    let mut doc = named(3, "a");
    doc.extend_from_slice(&[0, 0]); // an Int needs four bytes
    let mut p = Parser::new(doc);
    assert_eq!(p.next(), Err(Error::IO(IoError::UnexpectedEof)));
}

#[test]
fn truncated_inside_compound_is_still_eof_at_tag_boundary() {
    // The input ends cleanly at a tag position, even inside a compound.
    let doc = named(10, "");
    let mut p = Parser::new(doc);
    assert_eq!(p.next().unwrap(), Value::Compound(some("")));
    assert_eq!(p.next(), Err(Error::EOF));
}

#[test]
fn find_compound_by_name() {
    let mut doc = named(10, "");
    doc.extend_from_slice(&named(3, "a"));
    doc.extend_from_slice(&[0, 0, 0, 1]);
    doc.extend_from_slice(&named(10, "target"));
    doc.extend_from_slice(&named(1, "x"));
    doc.push(9);
    doc.push(0); // End of target
    doc.push(0); // End of root
    let mut p = Parser::new(doc);
    find_compound(&mut p, Some("target")).unwrap();
    assert_eq!(p.next().unwrap(), Value::Byte(some("x"), 9));
}

#[test]
fn find_compound_missing_gives_eof() {
    let mut doc = named(10, "");
    doc.push(0);
    let mut p = Parser::new(doc);
    assert_eq!(find_compound(&mut p, Some("nowhere")), Err(Error::EOF));
}

#[test]
fn find_list_returns_the_declared_count() {
    let mut doc = named(10, "");
    doc.extend_from_slice(&named(9, "xs"));
    doc.push(3);
    doc.extend_from_slice(&[0, 0, 0, 2]);
    doc.extend_from_slice(&[0, 0, 0, 7, 0, 0, 0, 8]);
    doc.push(0);
    let mut p = Parser::new(doc);
    assert_eq!(find_list(&mut p, Some("xs")).unwrap(), 2);
    assert_eq!(p.next().unwrap(), Value::Int(None, 7));
}

#[test]
fn tag_codes_round_trip() {
    assert_eq!(fastnbt::nbt::u8_to_tag(0).unwrap(), Tag::End);
    assert_eq!(fastnbt::nbt::u8_to_tag(12).unwrap(), Tag::LongArray);
    assert_eq!(fastnbt::nbt::u8_to_tag(13), Err(Error::InvalidTag(13)));
}

#[test]
fn list_of_compounds() {
    let mut doc = named(10, "");
    doc.extend_from_slice(&named(9, "xs"));
    doc.push(10); // element tag: Compound
    doc.extend_from_slice(&[0, 0, 0, 2]);
    for k in [5u8, 6u8] {
        doc.extend_from_slice(&named(1, "v"));
        doc.push(k);
        doc.push(0); // End of the element compound
    }
    doc.push(0); // End of root
    let mut p = Parser::new(doc);
    assert_eq!(p.next().unwrap(), Value::Compound(some("")));
    assert_eq!(p.next().unwrap(), Value::List(some("xs"), Tag::Compound, 2));
    assert_eq!(p.next().unwrap(), Value::Compound(None));
    assert_eq!(p.next().unwrap(), Value::Byte(some("v"), 5));
    assert_eq!(p.next().unwrap(), Value::CompoundEnd);
    assert_eq!(p.next().unwrap(), Value::Compound(None));
    assert_eq!(p.next().unwrap(), Value::Byte(some("v"), 6));
    assert_eq!(p.next().unwrap(), Value::CompoundEnd);
    assert_eq!(p.next().unwrap(), Value::ListEnd);
    assert_eq!(p.next().unwrap(), Value::CompoundEnd);
    assert_eq!(p.next(), Err(Error::EOF));
}

#[test]
fn skip_compound_through_deeper_nesting() {
    // Root { a: Compound { b: Compound { c: Byte 1 } }, d: Byte 2 }: after
    // entering "a", the skip must pass through "b" before stopping.
    let mut doc = named(10, "");
    doc.extend_from_slice(&named(10, "a"));
    doc.extend_from_slice(&named(10, "b"));
    doc.extend_from_slice(&named(1, "c"));
    doc.push(1);
    doc.push(0); // End of b
    doc.push(0); // End of a
    doc.extend_from_slice(&named(1, "d"));
    doc.push(2);
    doc.push(0); // End of root
    let mut p = Parser::new(doc);
    assert_eq!(p.next().unwrap(), Value::Compound(some("")));
    assert_eq!(p.next().unwrap(), Value::Compound(some("a")));
    skip_compound(&mut p).unwrap();
    assert_eq!(p.next().unwrap(), Value::Byte(some("d"), 2));
}

use rmapbash::nbt::{
    compound_get, read_compound_tag, read_compound_tag_names, read_list_length, read_tag_header,
    read_tag_payload, seek_compound_tag_name, seek_compound_tag_names, skip_tag_payload, NbtError,
    Reader, Tag,
};

fn nbt_header(id: u8, name: &str) -> Vec<u8> {
    let mut out = vec![id];
    out.extend_from_slice(&(name.len() as u16).to_be_bytes());
    out.extend_from_slice(name.as_bytes());
    out
}

fn nbt_string(text: &str) -> Vec<u8> {
    let mut out = (text.len() as u16).to_be_bytes().to_vec();
    out.extend_from_slice(text.as_bytes());
    out
}

fn nbt_sample_compound() -> Vec<u8> {
    // { "a": Byte(7), "list": List<Short>[1, 2], "s": String("hi"), "inner": { "x": Int(9) } }
    let mut out = Vec::new();
    out.extend(nbt_header(1, "a"));
    out.push(7);
    out.extend(nbt_header(9, "list"));
    out.push(2);
    out.extend_from_slice(&2u32.to_be_bytes());
    out.extend_from_slice(&1u16.to_be_bytes());
    out.extend_from_slice(&2u16.to_be_bytes());
    out.extend(nbt_header(8, "s"));
    out.extend(nbt_string("hi"));
    out.extend(nbt_header(10, "inner"));
    out.extend(nbt_header(3, "x"));
    out.extend_from_slice(&9u32.to_be_bytes());
    out.push(0);
    out.push(0);
    out
}

#[test]
fn reader_reads_big_endian_numbers() {
    let mut reader = Reader::new(vec![
        0x12, 0x01, 0x02, 0x01, 0x02, 0x03, 0x04, 0x01, 0x02, 0x03, 0x04, 0x05, 0x06, 0x07, 0x08,
    ]);
    assert_eq!(reader.remaining(), 15);
    assert_eq!(reader.read_u8(), Ok(0x12));
    assert_eq!(reader.read_u16(), Ok(0x0102));
    assert_eq!(reader.read_u32(), Ok(0x0102_0304));
    assert_eq!(reader.read_u64(), Ok(0x0102_0304_0506_0708));
    assert_eq!(reader.remaining(), 0);
    assert_eq!(reader.read_u8(), Err(NbtError::UnexpectedEof));
}

#[test]
fn reader_keeps_its_place_when_bytes_run_out() {
    let mut reader = Reader::new(vec![1, 2, 3]);
    assert_eq!(reader.read_u32(), Err(NbtError::UnexpectedEof));
    assert_eq!(reader.read_u64(), Err(NbtError::UnexpectedEof));
    assert_eq!(reader.remaining(), 3);
    assert_eq!(reader.read_bytes(4), Err(NbtError::UnexpectedEof));
    assert_eq!(reader.skip(4), Err(NbtError::UnexpectedEof));
    assert_eq!(reader.read_bytes(2), Ok(vec![1, 2]));
    assert_eq!(reader.skip(1), Ok(()));
    assert_eq!(reader.remaining(), 0);
}

#[test]
fn header_holds_id_and_name() {
    let mut reader = Reader::new(nbt_header(10, "Level"));
    assert_eq!(read_tag_header(&mut reader), Ok((10, "Level".to_string())));
    assert_eq!(reader.remaining(), 0);
}

#[test]
fn header_of_end_tag_has_no_name() {
    let mut reader = Reader::new(vec![0, 0, 5]);
    assert_eq!(read_tag_header(&mut reader), Ok((0, String::new())));
    assert_eq!(reader.remaining(), 2);
}

#[test]
fn header_with_empty_name() {
    let mut reader = Reader::new(vec![10, 0, 0]);
    assert_eq!(read_tag_header(&mut reader), Ok((10, String::new())));
}

#[test]
fn header_with_name_that_is_not_utf8() {
    let mut reader = Reader::new(vec![1, 0, 2, 0xff, 0xfe, 9]);
    assert_eq!(read_tag_header(&mut reader), Err(NbtError::BadString));
}

#[test]
fn header_with_name_that_ends_early() {
    let mut reader = Reader::new(vec![1, 0, 5, b'a', b'b']);
    assert_eq!(read_tag_header(&mut reader), Err(NbtError::UnexpectedEof));
}

#[test]
fn payload_of_each_numeric_kind() {
    let mut reader = Reader::new(vec![0xfe]);
    assert!(matches!(read_tag_payload(&mut reader, &1), Ok(Tag::Byte(0xfe))));
    let mut reader = Reader::new(vec![0x80, 0x01]);
    assert!(matches!(read_tag_payload(&mut reader, &2), Ok(Tag::Short(0x8001))));
    let mut reader = Reader::new(vec![0, 0, 1, 0]);
    assert!(matches!(read_tag_payload(&mut reader, &3), Ok(Tag::Int(256))));
    let mut reader = Reader::new(vec![0, 0, 0, 0, 0, 0, 1, 1]);
    assert!(matches!(read_tag_payload(&mut reader, &4), Ok(Tag::Long(257))));
}

#[test]
fn payload_of_floats_holds_their_bits() {
    let mut reader = Reader::new(1.5f32.to_be_bytes().to_vec());
    match read_tag_payload(&mut reader, &5) {
        Ok(Tag::Float(bits)) => assert_eq!(f32::from_bits(bits), 1.5f32),
        other => panic!("no float: {:?}", other),
    }
    let mut reader = Reader::new((-2.25f64).to_be_bytes().to_vec());
    match read_tag_payload(&mut reader, &6) {
        Ok(Tag::Double(bits)) => assert_eq!(f64::from_bits(bits), -2.25f64),
        other => panic!("no double: {:?}", other),
    }
}

#[test]
fn payload_of_arrays_and_strings() {
    let mut reader = Reader::new(vec![0, 0, 0, 3, 9, 8, 7, 99]);
    match read_tag_payload(&mut reader, &7) {
        Ok(Tag::ByteArray(v)) => assert_eq!(v, vec![9, 8, 7]),
        other => panic!("no byte array: {:?}", other),
    }
    assert_eq!(reader.remaining(), 1);
    let mut reader = Reader::new(nbt_string("héllo"));
    match read_tag_payload(&mut reader, &8) {
        Ok(Tag::String(v)) => assert_eq!(v, "héllo"),
        other => panic!("no string: {:?}", other),
    }
    let mut reader = Reader::new(vec![0, 0, 0, 2, 0, 0, 0, 5, 0xff, 0xff, 0xff, 0xff]);
    match read_tag_payload(&mut reader, &11) {
        Ok(Tag::IntArray(v)) => assert_eq!(v, vec![5, 0xffff_ffff]),
        other => panic!("no int array: {:?}", other),
    }
    let mut bytes = vec![0, 0, 0, 1];
    bytes.extend_from_slice(&0x0102_0304_0506_0708u64.to_be_bytes());
    let mut reader = Reader::new(bytes);
    match read_tag_payload(&mut reader, &12) {
        Ok(Tag::LongArray(v)) => assert_eq!(v, vec![0x0102_0304_0506_0708]),
        other => panic!("no long array: {:?}", other),
    }
}

#[test]
fn payload_of_empty_string() {
    let mut reader = Reader::new(vec![0, 0]);
    match read_tag_payload(&mut reader, &8) {
        Ok(Tag::String(v)) => assert_eq!(v, ""),
        other => panic!("no string: {:?}", other),
    }
}

#[test]
fn payload_of_list_and_compound() {
    let mut reader = Reader::new(nbt_sample_compound());
    let tag = read_tag_payload(&mut reader, &10).unwrap();
    assert_eq!(reader.remaining(), 0);
    let children = tag.to_hashmap().unwrap();
    assert_eq!(children.len(), 4);
    assert_eq!(children[0].0, "a");
    assert_eq!(compound_get(children, "a").unwrap().to_u8(), Ok(&7));
    let list = compound_get(children, "list").unwrap().to_list().unwrap();
    assert_eq!(list.len(), 2);
    assert!(matches!(list[0], Tag::Short(1)));
    assert!(matches!(list[1], Tag::Short(2)));
    assert_eq!(compound_get(children, "s").unwrap().to_str(), Ok("hi"));
    let inner = compound_get(children, "inner").unwrap().to_hashmap().unwrap();
    assert_eq!(compound_get(inner, "x").unwrap().to_u32(), Ok(&9));
    assert!(compound_get(children, "missing").is_none());
}

#[test]
fn payload_of_unknown_kind_is_refused() {
    let mut reader = Reader::new(vec![1, 2, 3]);
    assert!(matches!(read_tag_payload(&mut reader, &13), Err(NbtError::InvalidTagId(13))));
    let mut reader = Reader::new(vec![1, 2, 3]);
    assert!(matches!(read_tag_payload(&mut reader, &0), Err(NbtError::InvalidTagId(0))));
    let mut reader = Reader::new(vec![1, 2, 3]);
    assert_eq!(skip_tag_payload(&mut reader, &200), Err(NbtError::InvalidTagId(200)));
}

#[test]
fn empty_list_of_end_tags_is_read_and_skipped() {
    let mut reader = Reader::new(vec![0, 0, 0, 0, 0]);
    match read_tag_payload(&mut reader, &9) {
        Ok(Tag::List(v)) => assert!(v.is_empty()),
        other => panic!("no list: {:?}", other),
    }
    let mut reader = Reader::new(vec![0, 0, 0, 0, 0, 42]);
    assert_eq!(skip_tag_payload(&mut reader, &9), Ok(()));
    assert_eq!(reader.remaining(), 1);
}

#[test]
fn list_of_unknown_kind_with_items_is_refused() {
    let mut reader = Reader::new(vec![0, 0, 0, 0, 1, 5]);
    assert!(matches!(read_tag_payload(&mut reader, &9), Err(NbtError::InvalidTagId(0))));
    let mut reader = Reader::new(vec![0, 0, 0, 0, 1, 5]);
    assert_eq!(skip_tag_payload(&mut reader, &9), Err(NbtError::InvalidTagId(0)));
}

#[test]
fn truncated_payloads_run_out_of_bytes() {
    let mut reader = Reader::new(vec![0, 0, 0, 9, 1, 2]);
    assert!(matches!(read_tag_payload(&mut reader, &7), Err(NbtError::UnexpectedEof)));
    let mut reader = Reader::new(vec![0, 0, 0, 2, 0, 0, 0, 1]);
    assert!(matches!(read_tag_payload(&mut reader, &11), Err(NbtError::UnexpectedEof)));
    let mut reader = Reader::new(vec![0, 0, 0, 2, 0, 0, 0, 1]);
    assert_eq!(skip_tag_payload(&mut reader, &12), Err(NbtError::UnexpectedEof));
    let mut bytes = nbt_sample_compound();
    bytes.pop();
    let mut reader = Reader::new(bytes);
    assert!(matches!(read_tag_payload(&mut reader, &10), Err(NbtError::UnexpectedEof)));
}

#[test]
fn skip_passes_over_what_read_reads() {
    for id in [1u8, 2, 3, 4, 5, 6] {
        let mut bytes = vec![0u8; 8];
        bytes.push(77);
        let mut a = Reader::new(bytes.clone());
        let mut b = Reader::new(bytes);
        read_tag_payload(&mut a, &id).unwrap();
        skip_tag_payload(&mut b, &id).unwrap();
        assert_eq!(a.remaining(), b.remaining());
    }
    let mut bytes = nbt_sample_compound();
    bytes.push(77);
    let mut a = Reader::new(bytes.clone());
    let mut b = Reader::new(bytes);
    read_tag_payload(&mut a, &10).unwrap();
    skip_tag_payload(&mut b, &10).unwrap();
    assert_eq!(a.remaining(), 1);
    assert_eq!(b.remaining(), 1);
}

#[test]
fn skip_does_not_look_into_strings() {
    let mut reader = Reader::new(vec![0, 2, 0xff, 0xfe]);
    assert_eq!(skip_tag_payload(&mut reader, &8), Ok(()));
    let mut reader = Reader::new(vec![0, 2, 0xff, 0xfe]);
    assert!(matches!(read_tag_payload(&mut reader, &8), Err(NbtError::BadString)));
}

#[test]
fn seek_finds_the_named_child() {
    let mut reader = Reader::new(nbt_sample_compound());
    assert_eq!(seek_compound_tag_name(&mut reader, "s"), Ok(Some((8, "s".to_string()))));
    match read_tag_payload(&mut reader, &8) {
        Ok(Tag::String(v)) => assert_eq!(v, "hi"),
        other => panic!("no string: {:?}", other),
    }
    assert_eq!(seek_compound_tag_name(&mut reader, "a"), Ok(None));
    assert_eq!(reader.remaining(), 0);
}

#[test]
fn seek_finds_the_first_of_several_names() {
    let mut reader = Reader::new(nbt_sample_compound());
    assert_eq!(
        seek_compound_tag_names(&mut reader, vec!["inner", "list"]),
        Ok(Some((9, "list".to_string())))
    );
    assert_eq!(read_list_length(&mut reader), Ok(2));
    let mut reader = Reader::new(nbt_sample_compound());
    assert_eq!(seek_compound_tag_names(&mut reader, vec!["nope", "never"]), Ok(None));
}

#[test]
fn seek_refuses_unknown_kinds() {
    let mut bytes = nbt_header(1, "a");
    bytes.push(1);
    bytes.extend(nbt_header(13, "b"));
    let mut reader = Reader::new(bytes);
    assert_eq!(seek_compound_tag_name(&mut reader, "c"), Err(NbtError::InvalidTagId(13)));
}

#[test]
fn seek_runs_out_of_bytes_without_an_end() {
    let mut bytes = nbt_header(1, "a");
    bytes.push(1);
    let mut reader = Reader::new(bytes);
    assert_eq!(seek_compound_tag_name(&mut reader, "c"), Err(NbtError::UnexpectedEof));
}

#[test]
fn compound_children_come_in_order() {
    let mut reader = Reader::new(nbt_sample_compound());
    let children = read_compound_tag(&mut reader).unwrap();
    let names: Vec<&str> = children.iter().map(|c| c.0.as_str()).collect();
    assert_eq!(names, vec!["a", "list", "s", "inner"]);
}

#[test]
fn compound_children_by_name_leave_the_others_out() {
    let mut reader = Reader::new(nbt_sample_compound());
    let children = read_compound_tag_names(&mut reader, vec!["inner", "a"]).unwrap();
    let names: Vec<&str> = children.iter().map(|c| c.0.as_str()).collect();
    assert_eq!(names, vec!["a", "inner"]);
    assert_eq!(reader.remaining(), 0);
}

#[test]
fn later_child_of_a_name_counts() {
    let mut bytes = nbt_header(1, "a");
    bytes.push(1);
    bytes.extend(nbt_header(1, "a"));
    bytes.push(2);
    bytes.push(0);
    let mut reader = Reader::new(bytes);
    let children = read_compound_tag(&mut reader).unwrap();
    assert_eq!(children.len(), 2);
    assert_eq!(compound_get(&children, "a").unwrap().to_u8(), Ok(&2));
}

#[test]
fn accessors_refuse_other_kinds() {
    let byte = Tag::Byte(1);
    assert_eq!(byte.to_u8(), Ok(&1));
    assert_eq!(byte.to_u32(), Err(NbtError::WrongTag));
    assert_eq!(byte.to_str(), Err(NbtError::WrongTag));
    assert!(matches!(byte.to_list(), Err(NbtError::WrongTag)));
    assert!(matches!(byte.to_hashmap(), Err(NbtError::WrongTag)));
    assert_eq!(byte.to_u8_array(), Err(NbtError::WrongTag));
    assert_eq!(byte.to_long_array(), Err(NbtError::WrongTag));
    assert_eq!(Tag::Int(5).to_u8(), Err(NbtError::WrongTag));
    assert_eq!(Tag::LongArray(vec![1, 2]).to_long_array(), Ok(&vec![1, 2]));
    assert_eq!(Tag::ByteArray(vec![3]).to_u8_array(), Ok(&vec![3]));
}

#[test]
fn list_length_passes_over_the_kind() {
    let mut reader = Reader::new(vec![10, 0, 0, 1, 2, 9]);
    assert_eq!(read_list_length(&mut reader), Ok(258));
    assert_eq!(reader.remaining(), 1);
    let mut reader = Reader::new(vec![10, 0, 0]);
    assert_eq!(read_list_length(&mut reader), Err(NbtError::UnexpectedEof));
}

#[test]
fn format_errors_are_told_from_early_ends() {
    assert!(!NbtError::UnexpectedEof.is_format_error());
    assert!(NbtError::InvalidTagId(13).is_format_error());
    assert!(NbtError::BadString.is_format_error());
    assert!(NbtError::WrongTag.is_format_error());
    assert!(NbtError::MissingTag.is_format_error());
    assert!(NbtError::UnknownBlock.is_format_error());
    assert!(NbtError::BadLength.is_format_error());
    assert!(NbtError::BadCompression.is_format_error());
}

#[test]
fn unknown_kind_of_payload_costs_no_byte() {
    for id in [0u8, 13, 99, 255] {
        let mut reader = Reader::new(vec![1, 2, 3, 4, 5, 6, 7, 8]);
        reader.read_u8().unwrap();
        assert!(matches!(read_tag_payload(&mut reader, &id), Err(NbtError::InvalidTagId(found)) if found == id));
        assert_eq!(reader.remaining(), 7);
        assert_eq!(skip_tag_payload(&mut reader, &id), Err(NbtError::InvalidTagId(id)));
        assert_eq!(reader.remaining(), 7);
        assert_eq!(reader.read_u8(), Ok(2));
    }
}

#[test]
fn failed_read_leaves_the_cursor_where_it_was() {
    // A compound whose second child is cut short.
    let mut bytes = nbt_header(1, "a");
    bytes.push(7);
    bytes.extend(nbt_header(3, "b"));
    bytes.extend_from_slice(&[0, 0]);
    let len = bytes.len();
    let mut reader = Reader::new(bytes.clone());
    assert!(matches!(read_tag_payload(&mut reader, &10), Err(NbtError::UnexpectedEof)));
    assert_eq!(reader.remaining(), len);
    assert_eq!(skip_tag_payload(&mut reader, &10), Err(NbtError::UnexpectedEof));
    assert_eq!(reader.remaining(), len);
    assert!(matches!(read_compound_tag(&mut reader), Err(NbtError::UnexpectedEof)));
    assert_eq!(reader.remaining(), len);
    assert!(matches!(read_compound_tag_names(&mut reader, vec!["b"]), Err(NbtError::UnexpectedEof)));
    assert_eq!(reader.remaining(), len);
    assert!(matches!(seek_compound_tag_name(&mut reader, "c"), Err(NbtError::UnexpectedEof)));
    assert_eq!(reader.remaining(), len);
    assert!(matches!(seek_compound_tag_names(&mut reader, vec!["c", "d"]), Err(NbtError::UnexpectedEof)));
    assert_eq!(reader.remaining(), len);
    // What can be read is read from the same place.
    assert_eq!(seek_compound_tag_name(&mut reader, "b").unwrap(), Some((3, "b".to_string())));
    assert_eq!(reader.remaining(), 2);
    // A header whose name ends early, and the head of a list that ends early.
    let mut reader = Reader::new(vec![8, 0, 5, b'a']);
    assert!(matches!(read_tag_header(&mut reader), Err(NbtError::UnexpectedEof)));
    assert_eq!(reader.remaining(), 4);
    let mut reader = Reader::new(vec![10, 0, 0, 0]);
    assert_eq!(read_list_length(&mut reader), Err(NbtError::UnexpectedEof));
    assert_eq!(reader.remaining(), 4);
    // A child of an unknown kind stops the seek where it began.
    let mut bytes = nbt_header(1, "a");
    bytes.push(7);
    bytes.extend(nbt_header(77, "odd"));
    let len = bytes.len();
    let mut reader = Reader::new(bytes);
    assert!(matches!(seek_compound_tag_name(&mut reader, "z"), Err(NbtError::InvalidTagId(77))));
    assert_eq!(reader.remaining(), len);
}

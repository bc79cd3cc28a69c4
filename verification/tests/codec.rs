use fxhash::FxHashMap;
use geofw::decode::read_be;
use geofw::decode::MAX_NESTING;
use geofw::maxmind::DbError;
use geofw::maxmind::MaxmindDB;
use geofw::maxmind::Metadata;
use geofw::node::node_from_bytes;
use geofw::node::node_size;
use geofw::node::read_child;
use geofw::node::write_child;
use geofw::node::BLOCK_MARKER;
use geofw::value::Data;

fn db_over(data: Vec<u8>, base: usize) -> MaxmindDB {
    MaxmindDB {
        metadata: Metadata { node_count: 0, record_size: 24, data_section_start: base },
        data,
    }
}

fn decode(data: &[u8]) -> Result<(Data, usize), DbError> {
    db_over(data.to_vec(), 0).read_data(0)
}

fn text(s: &str) -> Vec<u8> {
    let mut out = vec![(2u8 << 5) | s.len() as u8];
    out.extend_from_slice(s.as_bytes());
    out
}

#[test]
fn block_marker_is_all_ones_in_24_bits() {
    assert_eq!(BLOCK_MARKER, 0x00ff_ffff);
}

#[test]
fn node_size_of_both_record_sizes() {
    assert_eq!(node_size(24), 6);
    assert_eq!(node_size(28), 7);
}

#[test]
fn buffer_reader_24_bit() {
    let n = [0x01, 0x02, 0x03, 0x0a, 0x0b, 0x0c, 0xee, 0xff];
    assert_eq!(node_from_bytes(n, 0, 24), 0x010203);
    assert_eq!(node_from_bytes(n, 1, 24), 0x0a0b0c);
    assert_eq!(node_from_bytes(n, 7, 24), 0x0a0b0c);
}

#[test]
fn buffer_reader_28_bit() {
    let n = [0x01, 0x02, 0x03, 0xa5, 0x0a, 0x0b, 0x0c, 0xff];
    assert_eq!(node_from_bytes(n, 0, 28), 0x0a010203);
    assert_eq!(node_from_bytes(n, 1, 28), 0x050a0b0c);
}

#[test]
fn buffer_reader_unknown_record_size_is_zero() {
    let n = [0xff; 8];
    assert_eq!(node_from_bytes(n, 0, 32), 0);
    assert_eq!(node_from_bytes(n, 1, 0), 0);
}

#[test]
fn slice_reader_matches_layout() {
    let n24 = [0x01, 0x02, 0x03, 0x0a, 0x0b, 0x0c];
    assert_eq!(read_child(&n24, false, 24), 0x010203);
    assert_eq!(read_child(&n24, true, 24), 0x0a0b0c);
    let n28 = [0x01, 0x02, 0x03, 0xa5, 0x0a, 0x0b, 0x0c];
    assert_eq!(read_child(&n28, false, 28), 0x0a010203);
    assert_eq!(read_child(&n28, true, 28), 0x050a0b0c);
}

#[test]
fn node_from_bytes_takes_left_on_clear_bit() {
    let n24 = [0x01, 0x02, 0x03, 0x0a, 0x0b, 0x0c];
    assert_eq!(MaxmindDB::node_from_bytes(&n24, true, 24), 0x010203);
    assert_eq!(MaxmindDB::node_from_bytes(&n24, false, 24), 0x0a0b0c);
    let n28 = [0x01, 0x02, 0x03, 0xa5, 0x0a, 0x0b, 0x0c];
    assert_eq!(MaxmindDB::node_from_bytes(&n28, true, 28), 0x0a010203);
    assert_eq!(MaxmindDB::node_from_bytes(&n28, false, 28), 0x050a0b0c);
}

#[test]
fn write_over_node_bytes_24_bit() {
    let mut n = [0x01, 0x02, 0x03, 0x0a, 0x0b, 0x0c];
    MaxmindDB::write_over_node_bytes(&mut n, 0, 24, BLOCK_MARKER);
    assert_eq!(n, [0xff, 0xff, 0xff, 0x0a, 0x0b, 0x0c]);
    MaxmindDB::write_over_node_bytes(&mut n, 1, 24, 0x123456);
    assert_eq!(n, [0xff, 0xff, 0xff, 0x12, 0x34, 0x56]);
}

#[test]
fn write_over_node_bytes_28_bit() {
    let mut n = [0x01, 0x02, 0x03, 0xa5, 0x0a, 0x0b, 0x0c];
    MaxmindDB::write_over_node_bytes(&mut n, 0, 28, BLOCK_MARKER);
    assert_eq!(n, [0xff, 0xff, 0xff, 0x05, 0x0a, 0x0b, 0x0c]);
    assert_eq!(read_child(&n, false, 28), BLOCK_MARKER);
    assert_eq!(read_child(&n, true, 28), 0x050a0b0c);
    MaxmindDB::write_over_node_bytes(&mut n, 1, 28, 0x0c123456);
    assert_eq!(n, [0xff, 0xff, 0xff, 0x0c, 0x12, 0x34, 0x56]);
    assert_eq!(read_child(&n, false, 28), BLOCK_MARKER);
    assert_eq!(read_child(&n, true, 28), 0x0c123456);
}

#[test]
fn written_child_is_cut_to_record_width() {
    let mut n24 = [0u8; 6];
    write_child(&mut n24, false, 24, 0xab12_3456);
    assert_eq!(read_child(&n24, false, 24), 0x0012_3456);
    assert_eq!(read_child(&n24, true, 24), 0);
    let mut n28 = [0u8; 7];
    write_child(&mut n28, true, 28, 0xab12_3456);
    assert_eq!(read_child(&n28, true, 28), 0x0b12_3456);
    assert_eq!(read_child(&n28, false, 28), 0);
}

#[test]
fn write_leaves_bytes_behind_the_node_alone() {
    let mut n = [0u8, 0, 0, 0, 0, 0, 0x77, 0x88];
    write_child(&mut n, true, 24, 0x010203);
    assert_eq!(n, [0, 0, 0, 1, 2, 3, 0x77, 0x88]);
}

#[test]
fn every_child_value_survives_write_then_read() {
    for &value in &[0u32, 1, 0xff, 0x100, 0xffff, 0x10000, 0xfffffe, BLOCK_MARKER] {
        for &right in &[false, true] {
            let mut n24 = [0x5a; 6];
            let other = read_child(&n24, !right, 24);
            write_child(&mut n24, right, 24, value);
            assert_eq!(read_child(&n24, right, 24), value);
            assert_eq!(read_child(&n24, !right, 24), other);
            let mut n28 = [0x5a; 7];
            let other = read_child(&n28, !right, 28);
            write_child(&mut n28, right, 28, value | 0x0f00_0000);
            assert_eq!(read_child(&n28, right, 28), value | 0x0f00_0000);
            assert_eq!(read_child(&n28, !right, 28), other);
        }
    }
}

#[test]
fn read_be_joins_bytes_most_significant_first() {
    assert_eq!(read_be(&[0x12, 0x34, 0x56], 0, 3), 0x123456);
    assert_eq!(read_be(&[0x12, 0x34, 0x56], 1, 2), 0x3456);
    assert_eq!(read_be(&[0x12, 0x34, 0x56], 1, 0), 0);
    assert_eq!(read_be(&[0xff; 16], 0, 16), u128::MAX);
}

#[test]
fn header_with_short_length() {
    assert_eq!(MaxmindDB::read_data_meta(&[0x42, b'a', b'b']), Ok((2, 2, 1)));
    assert_eq!(MaxmindDB::read_data_meta(&[0xe3]), Ok((7, 3, 1)));
    assert_eq!(MaxmindDB::read_data_meta(&[0x5c]), Ok((2, 28, 1)));
}

#[test]
fn header_with_extended_type() {
    assert_eq!(MaxmindDB::read_data_meta(&[0x04, 0x01]), Ok((8, 4, 2)));
    assert_eq!(MaxmindDB::read_data_meta(&[0x01, 0x07]), Ok((14, 1, 2)));
    assert_eq!(MaxmindDB::read_data_meta(&[0x02, 0x04]), Ok((11, 2, 2)));
    assert_eq!(MaxmindDB::read_data_meta(&[0x00, 0x00]), Ok((7, 0, 2)));
}

#[test]
fn header_with_one_length_byte() {
    assert_eq!(MaxmindDB::read_data_meta(&[0x5d, 0x00]), Ok((2, 29, 2)));
    assert_eq!(MaxmindDB::read_data_meta(&[0x5d, 0xff]), Ok((2, 284, 2)));
}

#[test]
fn header_with_two_length_bytes() {
    assert_eq!(MaxmindDB::read_data_meta(&[0x5e, 0x00, 0x00]), Ok((2, 285, 3)));
    assert_eq!(MaxmindDB::read_data_meta(&[0x5e, 0x01, 0x02]), Ok((2, 285 + 258, 3)));
    assert_eq!(MaxmindDB::read_data_meta(&[0x5e, 0xff, 0xff]), Ok((2, 65820, 3)));
}

#[test]
fn header_with_three_length_bytes() {
    assert_eq!(MaxmindDB::read_data_meta(&[0x5f, 0x00, 0x00, 0x00]), Ok((2, 65821, 4)));
    assert_eq!(
        MaxmindDB::read_data_meta(&[0x5f, 0x01, 0x02, 0x03]),
        Ok((2, 65821 + 0x010203, 4))
    );
}

#[test]
fn header_length_bytes_follow_the_extended_type() {
    assert_eq!(MaxmindDB::read_data_meta(&[0x1d, 0x04, 0x05]), Ok((11, 34, 3)));
    assert_eq!(MaxmindDB::read_data_meta(&[0x1e, 0x04, 0x01, 0x00]), Ok((11, 285 + 256, 4)));
}

#[test]
fn header_of_a_pointer_keeps_the_low_bits() {
    assert_eq!(MaxmindDB::read_data_meta(&[0x3f, 0x00]), Ok((1, 31, 1)));
    assert_eq!(MaxmindDB::read_data_meta(&[0x20]), Ok((1, 0, 1)));
}

#[test]
fn header_refuses_truncated_input() {
    assert_eq!(MaxmindDB::read_data_meta(&[]), Err(DbError::MalformedDb));
    assert_eq!(MaxmindDB::read_data_meta(&[0x00]), Err(DbError::MalformedDb));
    assert_eq!(MaxmindDB::read_data_meta(&[0x5d]), Err(DbError::MalformedDb));
    assert_eq!(MaxmindDB::read_data_meta(&[0x5e, 0x01]), Err(DbError::MalformedDb));
    assert_eq!(MaxmindDB::read_data_meta(&[0x5f, 0x01, 0x02]), Err(DbError::MalformedDb));
    assert_eq!(MaxmindDB::read_data_meta(&[0x1d, 0x04]), Err(DbError::MalformedDb));
}

#[test]
fn header_refuses_types_above_fifteen() {
    assert_eq!(MaxmindDB::read_data_meta(&[0x00, 0x09]), Err(DbError::MalformedDb));
    assert_eq!(MaxmindDB::read_data_meta(&[0x00, 0xff]), Err(DbError::MalformedDb));
}

#[test]
fn decodes_string() {
    assert_eq!(decode(&text("RU")), Ok((Data::String(b"RU".to_vec()), 3)));
    assert_eq!(decode(&[0x40]), Ok((Data::String(vec![]), 1)));
}

#[test]
fn decodes_invalid_utf8_string_as_bytes() {
    assert_eq!(decode(&[0x42, 0xff, 0xfe]), Ok((Data::String(vec![0xff, 0xfe]), 3)));
}

#[test]
fn decodes_long_string() {
    let mut bytes = vec![0x5d, 0x01];
    bytes.extend(std::iter::repeat(b'x').take(30));
    assert_eq!(decode(&bytes), Ok((Data::String(vec![b'x'; 30]), 32)));
}

#[test]
fn decodes_double_as_bits() {
    let value = 1.5f64;
    let mut bytes = vec![0x68];
    bytes.extend_from_slice(&value.to_be_bytes());
    assert_eq!(decode(&bytes), Ok((Data::Double(value.to_bits()), 9)));
}

#[test]
fn refuses_double_of_wrong_length() {
    assert_eq!(decode(&[0x64, 0, 0, 0, 0]), Err(DbError::MalformedDb));
}

#[test]
fn decodes_bytes() {
    assert_eq!(decode(&[0x83, 1, 2, 3]), Ok((Data::Bytes(vec![1, 2, 3]), 4)));
}

#[test]
fn decodes_u16() {
    assert_eq!(decode(&[0xa0]), Ok((Data::U16(0), 1)));
    assert_eq!(decode(&[0xa1, 0x18]), Ok((Data::U16(24), 2)));
    assert_eq!(decode(&[0xa2, 0x01, 0x02]), Ok((Data::U16(0x0102), 3)));
    assert_eq!(decode(&[0xa3, 0x01, 0x02, 0x03]), Err(DbError::MalformedDb));
}

#[test]
fn decodes_u32() {
    assert_eq!(decode(&[0xc0]), Ok((Data::U32(0), 1)));
    assert_eq!(decode(&[0xc2, 0x30, 0x39]), Ok((Data::U32(12345), 3)));
    assert_eq!(decode(&[0xc3, 0x01, 0x02, 0x03]), Ok((Data::U32(0x010203), 4)));
    assert_eq!(decode(&[0xc4, 0xff, 0xff, 0xff, 0xff]), Ok((Data::U32(u32::MAX), 5)));
    assert_eq!(decode(&[0xc5, 0, 0, 0, 0, 0]), Err(DbError::MalformedDb));
}

#[test]
fn decodes_i32() {
    assert_eq!(decode(&[0x00, 0x01]), Ok((Data::I32(0), 2)));
    assert_eq!(decode(&[0x01, 0x01, 0xff]), Ok((Data::I32(255), 3)));
    assert_eq!(decode(&[0x04, 0x01, 0xff, 0xff, 0xff, 0xff]), Ok((Data::I32(-1), 6)));
    assert_eq!(decode(&[0x04, 0x01, 0x80, 0x00, 0x00, 0x00]), Ok((Data::I32(i32::MIN), 6)));
    assert_eq!(decode(&[0x04, 0x01, 0x7f, 0xff, 0xff, 0xff]), Ok((Data::I32(i32::MAX), 6)));
    assert_eq!(decode(&[0x05, 0x01, 0, 0, 0, 0, 0]), Err(DbError::MalformedDb));
}

#[test]
fn decodes_u64() {
    assert_eq!(decode(&[0x00, 0x02]), Ok((Data::U64(0), 2)));
    assert_eq!(
        decode(&[0x08, 0x02, 1, 2, 3, 4, 5, 6, 7, 8]),
        Ok((Data::U64(0x0102030405060708), 10))
    );
    assert_eq!(decode(&[0x09, 0x02, 0, 0, 0, 0, 0, 0, 0, 0, 0]), Err(DbError::MalformedDb));
}

#[test]
fn decodes_u128() {
    let mut bytes = vec![0x10, 0x03];
    bytes.extend_from_slice(&[0xff; 16]);
    assert_eq!(decode(&bytes), Ok((Data::U128(u128::MAX), 18)));
    assert_eq!(decode(&[0x02, 0x03, 0x01, 0x00]), Ok((Data::U128(256), 4)));
    let mut long = vec![0x11, 0x03];
    long.extend_from_slice(&[0; 17]);
    assert_eq!(decode(&long), Err(DbError::MalformedDb));
}

#[test]
fn decodes_boolean_from_its_length() {
    assert_eq!(decode(&[0x01, 0x07]), Ok((Data::Boolean(true), 2)));
    assert_eq!(decode(&[0x00, 0x07]), Ok((Data::Boolean(false), 2)));
    assert_eq!(decode(&[0x02, 0x07]), Ok((Data::Boolean(false), 2)));
}

#[test]
fn decodes_float_as_bits() {
    let value = -2.25f32;
    let mut bytes = vec![0x04, 0x08];
    bytes.extend_from_slice(&value.to_be_bytes());
    assert_eq!(decode(&bytes), Ok((Data::Float(value.to_bits()), 6)));
    assert_eq!(decode(&[0x03, 0x08, 0, 0, 0]), Err(DbError::MalformedDb));
}

#[test]
fn decodes_array() {
    let mut bytes = vec![0x02, 0x04];
    bytes.extend_from_slice(&text("a"));
    bytes.extend_from_slice(&[0xa1, 0x07]);
    assert_eq!(
        decode(&bytes),
        Ok((Data::Array(vec![Data::String(b"a".to_vec()), Data::U16(7)]), 6))
    );
    assert_eq!(decode(&[0x00, 0x04]), Ok((Data::Array(vec![]), 2)));
}

#[test]
fn decodes_map() {
    let mut bytes = vec![0xe2];
    bytes.extend_from_slice(&text("k"));
    bytes.extend_from_slice(&[0xa1, 0x07]);
    bytes.extend_from_slice(&text("name"));
    bytes.extend_from_slice(&text("v"));
    let mut expected = FxHashMap::default();
    expected.insert(b"k".to_vec(), Data::U16(7));
    expected.insert(b"name".to_vec(), Data::String(b"v".to_vec()));
    assert_eq!(decode(&bytes), Ok((Data::Mapping(expected), 12)));
}

#[test]
fn later_map_entry_replaces_earlier_one() {
    let mut bytes = vec![0xe2];
    bytes.extend_from_slice(&text("k"));
    bytes.extend_from_slice(&[0xa1, 0x01]);
    bytes.extend_from_slice(&text("k"));
    bytes.extend_from_slice(&[0xa1, 0x02]);
    let mut expected = FxHashMap::default();
    expected.insert(b"k".to_vec(), Data::U16(2));
    assert_eq!(decode(&bytes), Ok((Data::Mapping(expected), 9)));
}

#[test]
fn decodes_nested_map() {
    let mut bytes = vec![0xe1];
    bytes.extend_from_slice(&text("country"));
    bytes.push(0xe1);
    bytes.extend_from_slice(&text("iso_code"));
    bytes.extend_from_slice(&text("RU"));
    let mut inner = FxHashMap::default();
    inner.insert(b"iso_code".to_vec(), Data::String(b"RU".to_vec()));
    let mut outer = FxHashMap::default();
    outer.insert(b"country".to_vec(), Data::Mapping(inner));
    assert_eq!(decode(&bytes), Ok((Data::Mapping(outer), 22)));
}

#[test]
fn refuses_map_key_that_is_no_string() {
    let bytes = vec![0xe1, 0xa1, 0x07, 0xa1, 0x07];
    assert_eq!(decode(&bytes), Err(DbError::MalformedDb));
}

#[test]
fn refuses_truncated_values() {
    assert_eq!(decode(&[]), Err(DbError::MalformedDb));
    assert_eq!(decode(&[0x43, b'a', b'b']), Err(DbError::MalformedDb));
    assert_eq!(decode(&[0xe1, 0x41, b'k']), Err(DbError::MalformedDb));
    assert_eq!(decode(&[0x02, 0x04, 0x41, b'a']), Err(DbError::MalformedDb));
    assert_eq!(decode(&[0xc2, 0x01]), Err(DbError::MalformedDb));
}

#[test]
fn refuses_offset_behind_the_data() {
    let db = db_over(vec![0x40, 0x41, b'U'], 0);
    assert_eq!(db.read_data(3), Err(DbError::MalformedDb));
    assert_eq!(db.read_data(usize::MAX), Err(DbError::MalformedDb));
    assert_eq!(db.read_data(0), Ok((Data::String(vec![]), 1)));
    assert_eq!(db.read_data(1), Ok((Data::String(b"U".to_vec()), 2)));
}

#[test]
fn refuses_data_cache_and_end_marker() {
    assert_eq!(decode(&[0x00, 0x05]), Err(DbError::MalformedDb));
    assert_eq!(decode(&[0x00, 0x06]), Err(DbError::MalformedDb));
    assert_eq!(decode(&[0x00, 0x09]), Err(DbError::MalformedDb));
}

#[test]
fn follows_pointer_of_each_size() {
    // the target stands at offset 5000 of the data section, which starts at 10
    let base = 10usize;
    let mut data = vec![0u8; base + 600_000];
    let place = |data: &mut Vec<u8>, at: usize| {
        data[base + at] = 0x42;
        data[base + at + 1] = b'o';
        data[base + at + 2] = b'k';
    };
    place(&mut data, 5);
    place(&mut data, 2048 + 7);
    place(&mut data, 526336 + 9);
    place(&mut data, 70_000);
    // size 0: 11 bits
    data[0] = 0x20;
    data[1] = 0x05;
    // size 1: 19 bits plus 2048
    data[2] = 0x28;
    data[3] = 0x00;
    data[4] = 0x07;
    let db = db_over(data, base);
    assert_eq!(db.read_data(0), Ok((Data::String(b"ok".to_vec()), 2)));
    assert_eq!(db.read_data(2), Ok((Data::String(b"ok".to_vec()), 3)));
    let mut data = db.data;
    // size 2: 27 bits plus 526336
    data[0] = 0x30;
    data[1] = 0x00;
    data[2] = 0x00;
    data[3] = 0x09;
    // size 3: 32 bits
    data[4] = 0x38;
    data[5] = 0x00;
    data[6] = 0x01;
    data[7] = 0x11;
    data[8] = 0x70;
    let db = db_over(data, base);
    assert_eq!(db.read_data(0), Ok((Data::String(b"ok".to_vec()), 4)));
    assert_eq!(db.read_data(4), Ok((Data::String(b"ok".to_vec()), 5)));
}

#[test]
fn pointer_uses_its_low_three_bits() {
    // size 0 with top bits 0b101: 0x500 + 0x01
    let mut data = vec![0u8; 0x600];
    data[0] = 0x25;
    data[1] = 0x01;
    data[0x501] = 0xa1;
    data[0x502] = 0x09;
    let db = db_over(data, 0);
    assert_eq!(db.read_data(0), Ok((Data::U16(9), 2)));
}

#[test]
fn pointer_inside_map_takes_only_its_own_bytes() {
    // data section: "RU" at offset 0; map {"c": -> pointer to 0} at offset 3
    let mut data = text("RU");
    data.push(0xe1);
    data.extend_from_slice(&text("c"));
    data.extend_from_slice(&[0x20, 0x00]);
    let db = db_over(data, 0);
    let mut expected = FxHashMap::default();
    expected.insert(b"c".to_vec(), Data::String(b"RU".to_vec()));
    assert_eq!(db.read_data(3), Ok((Data::Mapping(expected), 5)));
}

#[test]
fn pointer_may_stand_for_a_map_key() {
    let mut data = text("key");
    data.push(0xe1);
    data.extend_from_slice(&[0x20, 0x00]);
    data.extend_from_slice(&[0xa1, 0x05]);
    let db = db_over(data, 0);
    let mut expected = FxHashMap::default();
    expected.insert(b"key".to_vec(), Data::U16(5));
    assert_eq!(db.read_data(4), Ok((Data::Mapping(expected), 5)));
}

#[test]
fn refuses_truncated_pointer() {
    assert_eq!(decode(&[0x20]), Err(DbError::MalformedDb));
    assert_eq!(decode(&[0x28, 0x00]), Err(DbError::MalformedDb));
    assert_eq!(decode(&[0x30, 0x00, 0x00]), Err(DbError::MalformedDb));
    assert_eq!(decode(&[0x38, 0x00, 0x00, 0x00]), Err(DbError::MalformedDb));
}

#[test]
fn refuses_pointer_behind_the_data() {
    assert_eq!(decode(&[0x20, 0x02]), Err(DbError::MalformedDb));
    assert_eq!(decode(&[0x38, 0xff, 0xff, 0xff, 0xff]), Err(DbError::MalformedDb));
}

#[test]
fn refuses_pointer_that_points_at_itself() {
    assert_eq!(decode(&[0x20, 0x00]), Err(DbError::MalformedDb));
}

#[test]
fn nesting_is_bounded() {
    // arrays of one element, nested; the innermost holds nothing
    let build = |levels: usize| {
        let mut bytes = Vec::new();
        for _ in 0..levels {
            bytes.extend_from_slice(&[0x01, 0x04]);
        }
        bytes.extend_from_slice(&[0x00, 0x04]);
        bytes
    };
    assert!(decode(&build(MAX_NESTING - 1)).is_ok());
    assert_eq!(decode(&build(MAX_NESTING)), Err(DbError::MalformedDb));
    let db = db_over(build(3), 0);
    assert!(db.read_nested(0, 4).is_ok());
    assert_eq!(db.read_nested(0, 3), Err(DbError::MalformedDb));
    assert_eq!(db.read_nested(0, 0), Err(DbError::MalformedDb));
}

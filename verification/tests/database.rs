use fxhash::FxHashMap;
use fxhash::FxHashSet;
use geofw::MaxmindDbType;
use geofw::common::ParameterTable;
use geofw::ProgramParameters;
use geofw::config::Config;
use geofw::config::Db;
use geofw::fastpath::descend;
use geofw::fastpath::should_block;
use geofw::maxmind::find_metadata;
use geofw::maxmind::DbError;
use geofw::maxmind::IpAddr;
use geofw::maxmind::MaxmindDB;
use geofw::maxmind::Metadata;
use geofw::maxmind::ProcessedDb;
use geofw::maxmind::METADATA_SECTION_START;
use geofw::node::read_child;
use geofw::BLOCK_MARKER;
use geofw::value::Data;

fn text(s: &str) -> Vec<u8> {
    let mut out = vec![(2u8 << 5) | s.len() as u8];
    out.extend_from_slice(s.as_bytes());
    out
}

fn map_of(entries: &[(&str, Vec<u8>)]) -> Vec<u8> {
    let mut out = vec![(7u8 << 5) | entries.len() as u8];
    for (key, value) in entries {
        out.extend_from_slice(&text(key));
        out.extend_from_slice(value);
    }
    out
}

fn u16_of(v: u16) -> Vec<u8> {
    vec![(5u8 << 5) | 2, (v >> 8) as u8, v as u8]
}

fn u32_of(v: u32) -> Vec<u8> {
    let mut out = vec![(6u8 << 5) | 4];
    out.extend_from_slice(&v.to_be_bytes());
    out
}

fn country(code: &str) -> Vec<u8> {
    map_of(&[("country", map_of(&[("iso_code", text(code))]))])
}

fn asn(number: u32) -> Vec<u8> {
    map_of(&[("autonomous_system_number", u32_of(number))])
}

fn node(record_size: u16, left: u32, right: u32) -> Vec<u8> {
    let l = left.to_be_bytes();
    let r = right.to_be_bytes();
    if record_size == 24 {
        vec![l[1], l[2], l[3], r[1], r[2], r[3]]
    } else {
        vec![l[1], l[2], l[3], (l[0] << 4) | (r[0] & 0x0f), r[1], r[2], r[3]]
    }
}

fn metadata(record_size: u16, node_count: u32) -> Vec<u8> {
    map_of(&[("node_count", u32_of(node_count)), ("record_size", u16_of(record_size))])
}

fn build(record_size: u16, nodes: &[(u32, u32)], records: &[u8]) -> Vec<u8> {
    let mut out = Vec::new();
    for &(left, right) in nodes {
        out.extend_from_slice(&node(record_size, left, right));
    }
    out.extend_from_slice(&[0u8; 16]);
    out.extend_from_slice(records);
    out.extend_from_slice(&METADATA_SECTION_START);
    out.extend_from_slice(&metadata(record_size, nodes.len() as u32));
    out
}

/// The pointer to the record at `offset` of the data section.
fn leaf(node_count: u32, offset: u32) -> u32 {
    node_count + 16 + offset
}

/// Two nodes; every path of two or more bits ends at the one record.
fn small_db(record_size: u16, record: &[u8]) -> Vec<u8> {
    build(record_size, &[(1, leaf(2, 0)), (leaf(2, 0), leaf(2, 0))], record)
}

fn countries(codes: &[&str]) -> Config {
    let mut config = Config::default();
    for code in codes {
        config.source_countries.insert(code.to_string());
    }
    config
}

fn numbers(list: &[u32]) -> Config {
    let mut config = Config::default();
    for n in list {
        config.source_asn.insert(*n);
    }
    config
}

fn table(db_type: MaxmindDbType, processed: &ProcessedDb) -> ParameterTable {
    let mut parameters = ParameterTable::new();
    parameters.insert(db_type.node_count_entry(), processed.node_count);
    parameters.insert(db_type.record_size_entry(), processed.record_size as u32);
    parameters
}

fn blocks_after(config: &Config, db_type: MaxmindDbType, data: &[u8], addr: IpAddr) -> bool {
    let db = MaxmindDB::new(data).unwrap();
    let processed = config.compact(db, db_type).unwrap();
    should_block(&table(db_type, &processed), db_type, &processed.db, addr)
}

fn v4(a: u8, b: u8, c: u8, d: u8) -> IpAddr {
    IpAddr::V4(u32::from_be_bytes([a, b, c, d]))
}

/// 98 nodes: the first 96 lead along clear bits to node 96, the root of the IPv4
/// addresses.  Below it, 0.0.0.0/1 is the first record, 192.0.0.0/2 the second, and
/// 128.0.0.0/2 has no data.
fn v4_db(record_size: u16, first: &[u8], second: &[u8]) -> Vec<u8> {
    let count = 98u32;
    let mut nodes = Vec::new();
    for i in 0..96u32 {
        nodes.push((i + 1, count));
    }
    nodes.push((leaf(count, 0), 97));
    nodes.push((count, leaf(count, first.len() as u32)));
    let mut records = first.to_vec();
    records.extend_from_slice(second);
    build(record_size, &nodes, &records)
}

/// 128 nodes along 2001:db8::/126: 2001:db8::1 ends at the first record and
/// 2001:db8::2/127 at the second.
fn v6_db(first: &[u8], second: &[u8]) -> Vec<u8> {
    let count = 128u32;
    let prefix: u128 = 0x2001_0db8 << 96;
    let mut nodes = Vec::new();
    for i in 0..126u32 {
        let bit = (prefix >> (127 - i)) & 1;
        if bit == 0 {
            nodes.push((i + 1, count));
        } else {
            nodes.push((count, i + 1));
        }
    }
    nodes.push((127, leaf(count, first.len() as u32)));
    nodes.push((count, leaf(count, 0)));
    let mut records = first.to_vec();
    records.extend_from_slice(second);
    build(24, &nodes, &records)
}

#[test]
fn marker_is_found_at_its_last_place() {
    let mut data = vec![1, 2, 3];
    data.extend_from_slice(&METADATA_SECTION_START);
    data.extend_from_slice(&[9, 9]);
    data.extend_from_slice(&METADATA_SECTION_START);
    data.extend_from_slice(&[7]);
    assert_eq!(find_metadata(&data), Some(3 + 14 + 2 + 14));
    assert_eq!(find_metadata(&data[..data.len() - 2]), Some(3 + 14));
    assert_eq!(find_metadata(&METADATA_SECTION_START), Some(14));
}

#[test]
fn marker_is_missing() {
    assert_eq!(find_metadata(&[]), None);
    assert_eq!(find_metadata(&[0xab, 0xcd, 0xef]), None);
    assert_eq!(find_metadata(&METADATA_SECTION_START[..13]), None);
    let mut near = METADATA_SECTION_START.to_vec();
    near[13] = b'n';
    assert_eq!(find_metadata(&near), None);
}

#[test]
fn marker_spells_the_provider() {
    assert_eq!(&METADATA_SECTION_START[3..], b"MaxMind.com");
    assert_eq!(&METADATA_SECTION_START[..3], &[0xab, 0xcd, 0xef]);
}

#[test]
fn new_reads_metadata() {
    let data = small_db(24, &country("RU"));
    let db = MaxmindDB::new(&data).unwrap();
    assert_eq!(db.metadata.record_size, 24);
    assert_eq!(db.metadata.node_count, 2);
    assert_eq!(db.metadata.data_section_start, 2 * 6 + 16);
    assert_eq!(db.data, data);
    assert!(db.is_well_formed());
    let data = small_db(28, &country("RU"));
    let db = MaxmindDB::new(&data).unwrap();
    assert_eq!(db.metadata.record_size, 28);
    assert_eq!(db.metadata.node_count, 2);
    assert_eq!(db.metadata.data_section_start, 2 * 7 + 16);
}

#[test]
fn new_takes_the_last_marker() {
    // a marker inside the data section, followed by the real trailer
    let mut records = country("RU");
    records.extend_from_slice(&METADATA_SECTION_START);
    records.extend_from_slice(&metadata(28, 77));
    let data = small_db(24, &records);
    let db = MaxmindDB::new(&data).unwrap();
    assert_eq!(db.metadata.record_size, 24);
    assert_eq!(db.metadata.node_count, 2);
}

#[test]
fn new_accepts_further_metadata_fields() {
    let mut data = Vec::new();
    data.extend_from_slice(&node(24, 1, 1));
    data.extend_from_slice(&[0u8; 16]);
    data.extend_from_slice(&METADATA_SECTION_START);
    data.extend_from_slice(&map_of(&[
        ("binary_format_major_version", u16_of(2)),
        ("record_size", u16_of(24)),
        ("database_type", text("GeoLite2-Country")),
        ("node_count", u32_of(1)),
    ]));
    let db = MaxmindDB::new(&data).unwrap();
    assert_eq!(db.metadata.node_count, 1);
    assert_eq!(db.metadata.record_size, 24);
}

#[test]
fn new_refuses_data_without_marker() {
    assert!(matches!(MaxmindDB::new(&[]), Err(DbError::MalformedDb)));
    assert!(matches!(MaxmindDB::new(&[0u8; 100]), Err(DbError::MalformedDb)));
}

#[test]
fn new_refuses_truncated_file() {
    let data = small_db(24, &country("RU"));
    for cut in 0..data.len() {
        assert!(
            matches!(MaxmindDB::new(&data[..cut]), Err(DbError::MalformedDb)),
            "cut at {}",
            cut
        );
    }
    assert!(MaxmindDB::new(&data).is_ok());
}

#[test]
fn new_refuses_metadata_that_is_no_map() {
    let mut data = vec![0u8; 28];
    data.extend_from_slice(&METADATA_SECTION_START);
    data.extend_from_slice(&text("record_size"));
    assert!(matches!(MaxmindDB::new(&data), Err(DbError::MalformedDb)));
}

#[test]
fn new_refuses_missing_or_mistyped_fields() {
    let with = |trailer: Vec<u8>| {
        let mut data = vec![0u8; 28];
        data.extend_from_slice(&METADATA_SECTION_START);
        data.extend_from_slice(&trailer);
        data
    };
    assert!(MaxmindDB::new(&with(metadata(24, 2))).is_ok());
    assert!(MaxmindDB::new(&with(map_of(&[("record_size", u16_of(24))]))).is_err());
    assert!(MaxmindDB::new(&with(map_of(&[("node_count", u32_of(2))]))).is_err());
    assert!(MaxmindDB::new(&with(map_of(&[
        ("node_count", u16_of(2)),
        ("record_size", u16_of(24))
    ])))
    .is_err());
    assert!(MaxmindDB::new(&with(map_of(&[
        ("node_count", u32_of(2)),
        ("record_size", u32_of(24))
    ])))
    .is_err());
}

#[test]
fn new_refuses_other_record_sizes() {
    for size in [0u16, 16, 25, 32, 1000] {
        let mut data = vec![0u8; 4000];
        data.extend_from_slice(&METADATA_SECTION_START);
        data.extend_from_slice(&metadata(size, 2));
        assert!(matches!(MaxmindDB::new(&data), Err(DbError::MalformedDb)), "size {}", size);
    }
}

#[test]
fn new_refuses_tree_that_does_not_fit() {
    let with = |room: usize, count: u32| {
        let mut data = vec![0u8; room];
        data.extend_from_slice(&METADATA_SECTION_START);
        data.extend_from_slice(&metadata(24, count));
        data
    };
    assert!(MaxmindDB::new(&with(28, 2)).is_ok());
    assert!(MaxmindDB::new(&with(27, 2)).is_err());
    assert!(MaxmindDB::new(&with(28, 3)).is_err());
    assert!(MaxmindDB::new(&with(28, u32::MAX)).is_err());
    assert!(MaxmindDB::new(&with(16, 0)).is_ok());
    assert!(MaxmindDB::new(&with(15, 0)).is_err());
}

#[test]
fn well_formedness_is_checked() {
    let db = MaxmindDB {
        metadata: Metadata { node_count: 2, record_size: 24, data_section_start: 28 },
        data: vec![0u8; 28],
    };
    assert!(db.is_well_formed());
    let short = MaxmindDB {
        metadata: Metadata { node_count: 2, record_size: 24, data_section_start: 28 },
        data: vec![0u8; 27],
    };
    assert!(!short.is_well_formed());
    let odd = MaxmindDB {
        metadata: Metadata { node_count: 2, record_size: 26, data_section_start: 28 },
        data: vec![0u8; 100],
    };
    assert!(!odd.is_well_formed());
    let off = MaxmindDB {
        metadata: Metadata { node_count: 2, record_size: 28, data_section_start: 28 },
        data: vec![0u8; 100],
    };
    assert!(!off.is_well_formed());
    assert!(!MaxmindDB { metadata: Metadata::default(), data: vec![] }.is_well_formed());
}

#[test]
fn default_metadata_is_empty() {
    let m = Metadata::default();
    assert_eq!((m.node_count, m.record_size, m.data_section_start), (0, 0, 0));
}

#[test]
fn lookup_ipv6_walks_from_node_zero() {
    let data = v6_db(&country("RU"), &country("DE"));
    let db = MaxmindDB::new(&data).unwrap();
    let prefix: u128 = 0x2001_0db8 << 96;
    let mut ru = FxHashMap::default();
    let mut inner = FxHashMap::default();
    inner.insert(b"iso_code".to_vec(), Data::String(b"RU".to_vec()));
    ru.insert(b"country".to_vec(), Data::Mapping(inner));
    assert_eq!(db.lookup(IpAddr::V6(prefix | 1)), Ok(Some(Data::Mapping(ru))));
    let found = db.lookup(IpAddr::V6(prefix | 2)).unwrap().unwrap();
    match found {
        Data::Mapping(m) => match m.get(&b"country"[..]) {
            Some(Data::Mapping(c)) => {
                assert_eq!(c.get(&b"iso_code"[..]), Some(&Data::String(b"DE".to_vec())))
            }
            other => panic!("no country: {:?}", other),
        },
        other => panic!("no map: {:?}", other),
    }
    assert_eq!(db.lookup(IpAddr::V6(prefix | 3)).unwrap().is_some(), true);
    assert_eq!(db.lookup(IpAddr::V6(prefix)), Ok(None));
    assert_eq!(db.lookup(IpAddr::V6(0)), Ok(None));
    assert_eq!(db.lookup(IpAddr::V6(u128::MAX)), Ok(None));
}

#[test]
fn lookup_ipv4_walks_from_node_96() {
    let data = v4_db(24, &country("RU"), &asn(12345));
    let db = MaxmindDB::new(&data).unwrap();
    let first = db.lookup(v4(1, 2, 3, 4)).unwrap().unwrap();
    assert!(matches!(first, Data::Mapping(ref m) if m.contains_key(&b"country"[..])));
    assert_eq!(db.lookup(v4(127, 255, 255, 255)).unwrap().is_some(), true);
    assert_eq!(db.lookup(v4(128, 0, 0, 1)), Ok(None));
    assert_eq!(db.lookup(v4(191, 255, 255, 255)), Ok(None));
    let mut expected = FxHashMap::default();
    expected.insert(b"autonomous_system_number".to_vec(), Data::U32(12345));
    assert_eq!(db.lookup(v4(192, 0, 2, 1)), Ok(Some(Data::Mapping(expected))));
}

#[test]
fn lookup_refuses_a_tree_deeper_than_the_address() {
    // one node whose children both lead back to it
    let data = build(24, &[(0, 0)], &[]);
    let db = MaxmindDB::new(&data).unwrap();
    assert_eq!(db.lookup(IpAddr::V6(5)), Err(DbError::MalformedDb));
}

#[test]
fn lookup_refuses_a_record_that_cannot_be_decoded() {
    let data = build(24, &[(leaf(1, 0), leaf(1, 900))], &[0x00, 0x05]);
    let db = MaxmindDB::new(&data).unwrap();
    assert_eq!(db.lookup(IpAddr::V6(0)), Err(DbError::MalformedDb));
    assert_eq!(db.lookup(IpAddr::V6(u128::MAX)), Err(DbError::MalformedDb));
}

#[test]
fn lookup_returns_records_of_any_type() {
    let data = build(24, &[(leaf(1, 0), 1)], &text("plain"));
    let db = MaxmindDB::new(&data).unwrap();
    assert_eq!(db.lookup(IpAddr::V6(0)), Ok(Some(Data::String(b"plain".to_vec()))));
    assert_eq!(db.lookup(IpAddr::V6(1 << 127)), Ok(None));
}

#[test]
fn blocked_ipv4_in_24_bit_tree() {
    let data = small_db(24, &country("RU"));
    assert!(blocks_after(&countries(&["RU"]), MaxmindDbType::Country, &data, v4(1, 2, 3, 4)));
}

#[test]
fn unrelated_ipv4_in_28_bit_tree() {
    let data = small_db(28, &country("DE"));
    let config = countries(&["RU"]);
    assert!(!blocks_after(&config, MaxmindDbType::Country, &data, v4(1, 2, 3, 4)));
    assert!(!blocks_after(&config, MaxmindDbType::Country, &data, v4(255, 255, 255, 255)));
    assert!(!blocks_after(&config, MaxmindDbType::Country, &data, IpAddr::V6(u128::MAX)));
    assert!(blocks_after(&countries(&["DE"]), MaxmindDbType::Country, &data, v4(1, 2, 3, 4)));
}

#[test]
fn asn_match() {
    let data = small_db(24, &asn(12345));
    assert!(blocks_after(&numbers(&[12345]), MaxmindDbType::Asn, &data, v4(1, 2, 3, 4)));
    assert!(!blocks_after(&numbers(&[99]), MaxmindDbType::Asn, &data, v4(1, 2, 3, 4)));
    assert!(!blocks_after(&numbers(&[]), MaxmindDbType::Asn, &data, v4(1, 2, 3, 4)));
}

#[test]
fn ipv6_prefix() {
    let data = v6_db(&country("RU"), &country("DE"));
    let config = countries(&["RU"]);
    let prefix: u128 = 0x2001_0db8 << 96;
    assert!(blocks_after(&config, MaxmindDbType::Country, &data, IpAddr::V6(prefix | 1)));
    assert!(!blocks_after(&config, MaxmindDbType::Country, &data, IpAddr::V6(prefix | 2)));
    assert!(!blocks_after(&config, MaxmindDbType::Country, &data, IpAddr::V6(prefix | 3)));
    assert!(!blocks_after(&config, MaxmindDbType::Country, &data, IpAddr::V6(prefix)));
}

#[test]
fn compacted_image_is_the_tree_alone() {
    for record_size in [24u16, 28] {
        let data = v4_db(record_size, &country("RU"), &country("DE"));
        let db = MaxmindDB::new(&data).unwrap();
        let processed = countries(&["RU"]).compact(db, MaxmindDbType::Country).unwrap();
        assert_eq!(processed.node_count, 98);
        assert_eq!(processed.record_size, record_size);
        assert_eq!(processed.db.len(), 98 * (record_size as usize * 2 / 8));
    }
}

#[test]
fn compaction_overwrites_exactly_the_blocked_leaves() {
    let data = v4_db(24, &country("RU"), &country("DE"));
    let ru_len = country("RU").len() as u32;
    let db = MaxmindDB::new(&data).unwrap();
    let processed = countries(&["RU"]).compact(db, MaxmindDbType::Country).unwrap();
    let mut expected = data[..98 * 6].to_vec();
    expected[96 * 6..96 * 6 + 3].copy_from_slice(&[0xff, 0xff, 0xff]);
    assert_eq!(processed.db, expected);
    let at = |n: usize, right: bool| read_child(&processed.db[n * 6..n * 6 + 6], right, 24);
    assert_eq!(at(96, false), BLOCK_MARKER);
    assert_eq!(at(96, true), 97);
    assert_eq!(at(97, false), 98);
    assert_eq!(at(97, true), leaf(98, ru_len));
    assert_eq!(at(0, false), 1);
    assert_eq!(at(0, true), 98);
}

#[test]
fn compaction_in_28_bit_tree_keeps_the_sibling_nibble() {
    let data = build(28, &[(leaf(1, 0), 0x0abc_def1)], &country("RU"));
    let db = MaxmindDB::new(&data).unwrap();
    let refused = db.consume(|record| record.contains_key(&b"country"[..])).err();
    assert_eq!(refused, Some(DbError::MalformedDb));
    let data = build(28, &[(leaf(2, 0), 1), (2, leaf(2, 0))], &country("RU"));
    let db = MaxmindDB::new(&data).unwrap();
    let processed = db.consume(|record| record.contains_key(&b"country"[..])).unwrap();
    assert_eq!(processed.db, [node(28, BLOCK_MARKER, 1), node(28, 2, BLOCK_MARKER)].concat());
}

#[test]
fn consume_with_a_closure() {
    let data = v4_db(24, &country("RU"), &asn(7));
    let db = MaxmindDB::new(&data).unwrap();
    let processed = db.consume(|_| false).unwrap();
    assert_eq!(processed.db, data[..98 * 6].to_vec());
    let db = MaxmindDB::new(&data).unwrap();
    let processed = db.consume(|_| true).unwrap();
    let at = |n: usize, right: bool| read_child(&processed.db[n * 6..n * 6 + 6], right, 24);
    assert_eq!(at(96, false), BLOCK_MARKER);
    assert_eq!(at(97, true), BLOCK_MARKER);
    assert_eq!(at(97, false), 98);
    assert_eq!(at(96, true), 97);
}

#[test]
fn consume_shows_each_record_to_the_predicate() {
    let data = v4_db(24, &country("RU"), &asn(7));
    let db = MaxmindDB::new(&data).unwrap();
    let seen = std::cell::RefCell::new(Vec::new());
    db.consume(|record: FxHashMap<Vec<u8>, Data>| {
        let mut keys: Vec<Vec<u8>> = record.keys().cloned().collect();
        keys.sort();
        seen.borrow_mut().push(keys);
        false
    })
    .unwrap();
    let mut seen = seen.into_inner();
    seen.sort();
    assert_eq!(seen, vec![vec![b"autonomous_system_number".to_vec()], vec![b"country".to_vec()]]);
}

#[test]
fn consume_leaves_unreachable_nodes_alone() {
    // node 1 is not reachable from node 0
    let data = build(24, &[(2, 2), (leaf(2, 0), leaf(2, 0))], &country("RU"));
    let db = MaxmindDB::new(&data).unwrap();
    let processed = db.consume(|_| true).unwrap();
    assert_eq!(processed.db, data[..12].to_vec());
}

#[test]
fn consume_leaves_marker_and_no_data_alone() {
    let data = build(24, &[(BLOCK_MARKER, 1)], &[]);
    let db = MaxmindDB::new(&data).unwrap();
    let processed = db.consume(|_| true).unwrap();
    assert_eq!(processed.db, node(24, BLOCK_MARKER, 1));
}

#[test]
fn consume_of_an_empty_tree() {
    let data = build(24, &[], &country("RU"));
    let db = MaxmindDB::new(&data).unwrap();
    let processed = db.consume(|_| true).unwrap();
    assert_eq!(processed.db, Vec::<u8>::new());
    assert_eq!(processed.node_count, 0);
    assert_eq!(processed.record_size, 24);
}

#[test]
fn consume_ends_on_a_tree_with_a_cycle() {
    let data = build(24, &[(0, leaf(1, 0))], &country("RU"));
    let db = MaxmindDB::new(&data).unwrap();
    let processed = db.consume(|_| true).unwrap();
    assert_eq!(processed.db, node(24, 0, BLOCK_MARKER));
}

#[test]
fn consume_refuses_a_record_that_is_no_map() {
    let data = small_db(24, &text("RU"));
    let db = MaxmindDB::new(&data).unwrap();
    assert!(matches!(db.consume(|_| true), Err(DbError::MalformedDb)));
}

#[test]
fn consume_refuses_a_record_that_cannot_be_decoded() {
    let data = build(24, &[(1, leaf(1, 500))], &country("RU"));
    let db = MaxmindDB::new(&data).unwrap();
    assert!(matches!(db.consume(|_| false), Err(DbError::MalformedDb)));
    let data = build(24, &[(1, leaf(1, 0))], &[0x00, 0x06]);
    let db = MaxmindDB::new(&data).unwrap();
    assert!(matches!(db.consume(|_| false), Err(DbError::MalformedDb)));
}

#[test]
fn consume_refuses_a_node_count_that_reaches_the_marker() {
    let count = BLOCK_MARKER;
    let mut data = vec![0u8; count as usize * 6 + 16];
    data.extend_from_slice(&METADATA_SECTION_START);
    data.extend_from_slice(&metadata(24, count));
    let db = MaxmindDB::new(&data).unwrap();
    assert!(matches!(db.consume(|_| false), Err(DbError::MalformedDb)));
}

#[test]
fn compacting_twice_changes_nothing() {
    for record_size in [24u16, 28] {
        let data = v4_db(record_size, &country("RU"), &country("DE"));
        let config = countries(&["RU"]);
        let db = MaxmindDB::new(&data).unwrap();
        let first = config.compact(db, MaxmindDbType::Country).unwrap();
        let mut again = first.db.clone();
        again.extend_from_slice(&data[first.db.len()..]);
        assert_ne!(again, data);
        let db = MaxmindDB::new(&again).unwrap();
        let second = config.compact(db, MaxmindDbType::Country).unwrap();
        assert_eq!(second.db, first.db);
        let db = MaxmindDB::new(&data).unwrap();
        let third = config.compact(db, MaxmindDbType::Country).unwrap();
        assert_eq!(third.db, first.db);
    }
}

#[test]
fn compaction_never_turns_a_pointer_into_another_kind() {
    let data = v4_db(28, &country("RU"), &country("DE"));
    let db = MaxmindDB::new(&data).unwrap();
    let processed = db.consume(|_| true).unwrap();
    let count = processed.node_count;
    for n in 0..count as usize {
        for right in [false, true] {
            let before = read_child(&data[n * 7..n * 7 + 7], right, 28);
            let after = read_child(&processed.db[n * 7..n * 7 + 7], right, 28);
            if before <= count {
                assert_eq!(after, before);
            } else {
                assert!(after == before || after == BLOCK_MARKER);
            }
            assert_eq!(after < count, before < count);
        }
    }
}

#[test]
fn fast_path_agrees_with_full_lookup() {
    let data = v4_db(24, &country("RU"), &country("DE"));
    let config = countries(&["RU"]);
    let db = MaxmindDB::new(&data).unwrap();
    let processed = config.compact(db, MaxmindDbType::Country).unwrap();
    let parameters = table(MaxmindDbType::Country, &processed);
    let db = MaxmindDB::new(&data).unwrap();
    let mut addresses = vec![IpAddr::V6(0), IpAddr::V6(u128::MAX), IpAddr::V6(1 << 127)];
    for a in [0u32, 1, 0x0102_0304, 0x7fff_ffff, 0x8000_0000, 0xbfff_ffff, 0xc000_0000, u32::MAX] {
        addresses.push(IpAddr::V4(a));
        addresses.push(IpAddr::V6(a as u128));
    }
    for addr in addresses {
        let expected = match db.lookup(addr) {
            Ok(Some(Data::Mapping(record))) => config.blocks_country(&record),
            _ => false,
        };
        let blocked = should_block(&parameters, MaxmindDbType::Country, &processed.db, addr);
        assert_eq!(blocked, expected, "{:?}", addr);
    }
    assert!(should_block(&parameters, MaxmindDbType::Country, &processed.db, v4(1, 2, 3, 4)));
    assert!(!should_block(&parameters, MaxmindDbType::Country, &processed.db, v4(200, 2, 3, 4)));
}

#[test]
fn descent_reads_at_most_128_nodes() {
    let cycle = node(24, 0, 0);
    let d = descend(&cycle, 24, 1, 0x1234_5678_9abc_def0);
    assert_eq!(d.reads, 128);
    assert_eq!(d.node, Some(0));
    let data = v6_db(&country("RU"), &country("DE"));
    let prefix: u128 = 0x2001_0db8 << 96;
    let d = descend(&data[..128 * 6], 24, 128, prefix | 1);
    assert_eq!(d.reads, 128);
    assert_eq!(d.node, Some(128 + 16));
    let d = descend(&data[..128 * 6], 24, 128, prefix | 2);
    assert_eq!(d.reads, 127);
    let d = descend(&data[..128 * 6], 24, 128, u128::MAX);
    assert_eq!(d.reads, 1);
    assert_eq!(d.node, Some(128));
    let d = descend(&data[..128 * 6], 24, 0, u128::MAX);
    assert_eq!(d.reads, 0);
    assert_eq!(d.node, Some(0));
}

#[test]
fn descent_stops_at_a_node_outside_the_image() {
    let image = node(24, 1, 2);
    let d = descend(&image, 24, 5, 0);
    assert_eq!(d.node, None);
    assert_eq!(d.reads, 1);
    let d = descend(&image[..5], 24, 5, 0);
    assert_eq!(d.node, None);
    assert_eq!(d.reads, 0);
    let d = descend(&[], 28, 5, 0);
    assert_eq!(d.node, None);
}

#[test]
fn fast_path_passes_without_parameters() {
    let image = node(24, BLOCK_MARKER, BLOCK_MARKER);
    let empty = ParameterTable::new();
    for addr in [v4(1, 2, 3, 4), IpAddr::V6(0), IpAddr::V6(u128::MAX)] {
        assert!(!should_block(&empty, MaxmindDbType::Country, &image, addr));
        assert!(!should_block(&empty, MaxmindDbType::Asn, &image, addr));
    }
    let mut only_size = ParameterTable::new();
    only_size.insert(ProgramParameters::CountryRecordSize, 24);
    assert!(!should_block(&only_size, MaxmindDbType::Country, &image, v4(1, 2, 3, 4)));
    let mut only_count = ParameterTable::new();
    only_count.insert(ProgramParameters::CountryNodeCount, 1);
    assert!(!should_block(&only_count, MaxmindDbType::Country, &image, v4(1, 2, 3, 4)));
    let mut both = ParameterTable::new();
    both.insert(ProgramParameters::CountryRecordSize, 24);
    both.insert(ProgramParameters::CountryNodeCount, 1);
    assert!(should_block(&both, MaxmindDbType::Country, &image, v4(1, 2, 3, 4)));
    assert!(!should_block(&both, MaxmindDbType::Asn, &image, v4(1, 2, 3, 4)));
}

#[test]
fn fast_path_passes_on_unknown_record_size_and_short_image() {
    let image = node(24, BLOCK_MARKER, BLOCK_MARKER);
    let mut parameters = ParameterTable::new();
    parameters.insert(ProgramParameters::AsnRecordSize, 32);
    parameters.insert(ProgramParameters::AsnNodeCount, 1);
    assert!(!should_block(&parameters, MaxmindDbType::Asn, &image, v4(1, 2, 3, 4)));
    parameters.insert(ProgramParameters::AsnRecordSize, 65536 + 24);
    assert!(!should_block(&parameters, MaxmindDbType::Asn, &image, v4(1, 2, 3, 4)));
    parameters.insert(ProgramParameters::AsnRecordSize, 24);
    assert!(should_block(&parameters, MaxmindDbType::Asn, &image, v4(1, 2, 3, 4)));
    assert!(!should_block(&parameters, MaxmindDbType::Asn, &image[..5], v4(1, 2, 3, 4)));
    parameters.insert(ProgramParameters::AsnRecordSize, 28);
    assert!(!should_block(&parameters, MaxmindDbType::Asn, &image, v4(1, 2, 3, 4)));
}

#[test]
fn parameter_keys() {
    assert_eq!(ProgramParameters::CountryNodeCount.key(), 1);
    assert_eq!(ProgramParameters::CountryRecordSize.key(), 2);
    assert_eq!(ProgramParameters::AsnNodeCount.key(), 3);
    assert_eq!(ProgramParameters::AsnRecordSize.key(), 4);
    assert_eq!(MaxmindDbType::Country.node_count_entry(), ProgramParameters::CountryNodeCount);
    assert_eq!(MaxmindDbType::Country.record_size_entry(), ProgramParameters::CountryRecordSize);
    assert_eq!(MaxmindDbType::Asn.node_count_entry(), ProgramParameters::AsnNodeCount);
    assert_eq!(MaxmindDbType::Asn.record_size_entry(), ProgramParameters::AsnRecordSize);
}

#[test]
fn parameter_table_keeps_the_last_value() {
    let mut t = ParameterTable::new();
    assert_eq!(t.get(ProgramParameters::AsnNodeCount), None);
    t.insert(ProgramParameters::AsnNodeCount, 5);
    t.insert(ProgramParameters::AsnNodeCount, 6);
    assert_eq!(t.get(ProgramParameters::AsnNodeCount), Some(6));
    assert_eq!(t.get(ProgramParameters::AsnRecordSize), None);
    assert_eq!(t.entries.len(), 1);
}

#[test]
fn edition_names() {
    assert_eq!(MaxmindDbType::Country.name(), "GeoLite2-Country");
    assert_eq!(MaxmindDbType::Asn.name(), "GeoLite2-ASN");
}

#[test]
fn default_configuration() {
    let db = Db::default();
    assert_eq!(db.maxmind_key, "");
    assert_eq!(db.refresh_interval, 86400);
    assert_eq!(db.path, "/tmp/geofw");
    let config = Config::default();
    assert_eq!(config.db, db);
    assert_eq!(config.interface, "enp1s0");
    assert!(config.source_countries.is_empty());
    assert!(config.source_asn.is_empty());
    assert_eq!(config.source_countries, FxHashSet::default());
}

#[test]
fn node_with_two_blocked_children_is_kept() {
    let data = small_db(24, &country("RU"));
    let db = MaxmindDB::new(&data).unwrap();
    let processed = countries(&["RU"]).compact(db, MaxmindDbType::Country).unwrap();
    assert_eq!(processed.node_count, 2);
    assert_eq!(
        processed.db,
        [node(24, 1, BLOCK_MARKER), node(24, BLOCK_MARKER, BLOCK_MARKER)].concat()
    );
    let parameters = table(MaxmindDbType::Country, &processed);
    for addr in [IpAddr::V6(0), IpAddr::V6(1), IpAddr::V6(1 << 127), IpAddr::V6(1 << 126)] {
        assert!(should_block(&parameters, MaxmindDbType::Country, &processed.db, addr));
    }
}

#[test]
fn records_shared_by_several_leaves_are_decided_alike() {
    // the record stands behind a pointer; both leaves name the pointer's target
    let mut records = country("KP");
    let at = records.len() as u32;
    records.extend_from_slice(&[0x20, 0x00]);
    let data = build(28, &[(leaf(1, 0), leaf(1, at))], &records);
    let db = MaxmindDB::new(&data).unwrap();
    let processed = countries(&["KP"]).compact(db, MaxmindDbType::Country).unwrap();
    assert_eq!(processed.db, node(28, BLOCK_MARKER, BLOCK_MARKER));
    let db = MaxmindDB::new(&data).unwrap();
    let processed = countries(&["RU"]).compact(db, MaxmindDbType::Country).unwrap();
    assert_eq!(processed.db, node(28, leaf(1, 0), leaf(1, at)));
}

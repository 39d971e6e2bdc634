use axmldecoder::parse;
use axmldecoder::resource_value::{decimal_string, ResourceValue, ResourceValueType};
use axmldecoder::stringpool::StringPool;
use axmldecoder::{Node, ParseError, XmlDocument};

const NONE: u32 = 0xFFFF_FFFF;
const T_STRING: u8 = 0x03;
const T_DEC: u8 = 0x10;
const T_HEX: u8 = 0x11;
const T_BOOL: u8 = 0x12;
const T_NULL: u8 = 0x00;

fn put16(v: &mut Vec<u8>, x: u16) {
    v.extend_from_slice(&x.to_le_bytes());
}

fn put32(v: &mut Vec<u8>, x: u32) {
    v.extend_from_slice(&x.to_le_bytes());
}

fn pool_chunk(strings: &[&str], utf8: bool) -> Vec<u8> {
    let mut data = Vec::new();
    let mut offsets = Vec::new();
    for s in strings {
        offsets.push(data.len() as u32);
        if utf8 {
            data.push(s.chars().count() as u8);
            data.push(s.len() as u8);
            data.extend_from_slice(s.as_bytes());
            data.push(0);
        } else {
            let units: Vec<u16> = s.encode_utf16().collect();
            put16(&mut data, units.len() as u16);
            for u in units {
                put16(&mut data, u);
            }
            put16(&mut data, 0);
        }
    }
    while data.len() % 4 != 0 {
        data.push(0);
    }
    let start = 28 + 4 * strings.len();
    let mut c = Vec::new();
    put16(&mut c, 0x0001);
    put16(&mut c, 28);
    put32(&mut c, (start + data.len()) as u32);
    put32(&mut c, strings.len() as u32);
    put32(&mut c, 0);
    put32(&mut c, if utf8 { 0x100 } else { 0 });
    put32(&mut c, start as u32);
    put32(&mut c, 0);
    for o in offsets {
        put32(&mut c, o);
    }
    c.extend_from_slice(&data);
    c
}

fn resource_map_chunk(ids: &[u32]) -> Vec<u8> {
    let mut c = Vec::new();
    put16(&mut c, 0x0180);
    put16(&mut c, 8);
    put32(&mut c, 8 + 4 * ids.len() as u32);
    for i in ids {
        put32(&mut c, *i);
    }
    c
}

fn node_header(c: &mut Vec<u8>, typ: u16, size: u32) {
    put16(c, typ);
    put16(c, 16);
    put32(c, size);
    put32(c, 1);
    put32(c, NONE);
}

fn start_ns(prefix: u32, uri: u32) -> Vec<u8> {
    let mut c = Vec::new();
    node_header(&mut c, 0x0100, 24);
    put32(&mut c, prefix);
    put32(&mut c, uri);
    c
}

fn end_ns(prefix: u32, uri: u32) -> Vec<u8> {
    let mut c = Vec::new();
    node_header(&mut c, 0x0101, 24);
    put32(&mut c, prefix);
    put32(&mut c, uri);
    c
}

/// An attribute: namespace, name, value type and data.
type Attr = (u32, u32, u8, u32);

fn start_el_ns(ns: u32, name: u32, attrs: &[Attr]) -> Vec<u8> {
    let mut c = Vec::new();
    node_header(&mut c, 0x0102, 36 + 20 * attrs.len() as u32);
    put32(&mut c, ns);
    put32(&mut c, name);
    put16(&mut c, 0x14);
    put16(&mut c, 0x14);
    put16(&mut c, attrs.len() as u16);
    put16(&mut c, 0);
    put16(&mut c, 0);
    put16(&mut c, 0);
    for (ans, aname, typ, data) in attrs {
        put32(&mut c, *ans);
        put32(&mut c, *aname);
        put32(&mut c, if *typ == T_STRING { *data } else { NONE });
        put16(&mut c, 8);
        c.push(0);
        c.push(*typ);
        put32(&mut c, *data);
    }
    c
}

fn start_el(name: u32, attrs: &[Attr]) -> Vec<u8> {
    start_el_ns(NONE, name, attrs)
}

fn end_el(name: u32) -> Vec<u8> {
    let mut c = Vec::new();
    node_header(&mut c, 0x0103, 24);
    put32(&mut c, NONE);
    put32(&mut c, name);
    c
}

fn cdata(data_ref: u32, typ: u8, data: u32) -> Vec<u8> {
    let mut c = Vec::new();
    node_header(&mut c, 0x0104, 28);
    put32(&mut c, data_ref);
    put16(&mut c, 8);
    c.push(0);
    c.push(typ);
    put32(&mut c, data);
    c
}

fn document(chunks: &[Vec<u8>]) -> Vec<u8> {
    let body: Vec<u8> = chunks.concat();
    let mut d = Vec::new();
    put16(&mut d, 0x0003);
    put16(&mut d, 8);
    put32(&mut d, 8 + body.len() as u32);
    d.extend_from_slice(&body);
    d
}

fn with_pool(strings: &[&str], events: &[Vec<u8>]) -> Vec<u8> {
    let mut chunks = vec![pool_chunk(strings, false), resource_map_chunk(&[0x0101_021b])];
    chunks.extend_from_slice(events);
    document(&chunks)
}

fn root_of(doc: &XmlDocument) -> &axmldecoder::Element {
    match doc.get_root() {
        Some(Node::Element(e)) => e,
        _ => panic!("no root element"),
    }
}

fn attr<'a>(e: &'a axmldecoder::Element, key: &str) -> Option<&'a str> {
    e.get_attributes().iter().find(|(k, _)| k == key).map(|(_, v)| v.as_str())
}

fn err_of(b: &[u8]) -> ParseError {
    match parse(b) {
        Ok(_) => panic!("decoded where an error was expected"),
        Err(e) => e,
    }
}

fn pool_of(strings: &[&str]) -> StringPool {
    StringPool::from_strings(strings.iter().map(|s| s.to_string()).collect())
}

fn value(t: ResourceValueType, data: u32) -> ResourceValue {
    ResourceValue { size: 8, res: 0, data_type: t, data }
}

#[test]
fn test_parse() {
    let strings = [
        "versionCode",
        "package",
        "android",
        "http://schemas.android.com/apk/res/android",
        "manifest",
        "com.example",
        "application",
        "debuggable",
    ];
    let b = with_pool(
        &strings,
        &[
            start_ns(2, 3),
            start_el(4, &[(3, 0, T_DEC, 7), (NONE, 1, T_STRING, 5)]),
            start_el(6, &[(NONE, 7, T_BOOL, 0xFFFF_FFFF)]),
            end_el(6),
            end_el(4),
            end_ns(2, 3),
        ],
    );
    let doc = parse(&b).expect("document decodes");
    let root = root_of(&doc);
    assert_eq!(root.get_tag(), "manifest");
    assert_eq!(attr(root, "android:versionCode"), Some("7"));
    assert_eq!(attr(root, "package"), Some("com.example"));
    assert_eq!(root.get_children().len(), 1);
    match &root.get_children()[0] {
        Node::Element(app) => {
            assert_eq!(app.get_tag(), "application");
            assert_eq!(attr(app, "debuggable"), Some("true"));
        },
        Node::Cdata(_) => panic!("expected an element"),
    }
}

#[test]
fn well_formed_input_has_root() {
    let b = with_pool(&["manifest"], &[start_el(0, &[]), end_el(0)]);
    let doc = parse(&b).unwrap();
    assert!(doc.get_root().is_some());
}

#[test]
fn unclosed_element_is_incomplete() {
    let b = with_pool(&["manifest", "application"], &[start_el(0, &[]), start_el(1, &[]), end_el(1)]);
    assert_eq!(err_of(&b), ParseError::IncompleteDocument);
}

#[test]
fn no_element_is_incomplete() {
    let b = with_pool(&["android", "uri"], &[start_ns(0, 1), end_ns(0, 1)]);
    assert_eq!(err_of(&b), ParseError::IncompleteDocument);
}

#[test]
fn sentinel_lookup_is_absent() {
    let pool = pool_of(&["a", "b"]);
    assert_eq!(pool.get(0xFFFF_FFFF), Ok(None));
    assert_eq!(pool.get(1).unwrap().unwrap().as_str(), "b");
    assert_eq!(pool.get(2), Err(ParseError::StringNotFound(2)));
    let empty = pool_of(&[]);
    assert_eq!(empty.get(0xFFFF_FFFF), Ok(None));
}

#[test]
fn utf8_pool_decodes() {
    let c = pool_chunk(&["abc"], true);
    let pool = StringPool::read_strings(&c, 0, c.len()).unwrap();
    assert_eq!(pool.len(), 1);
    assert_eq!(pool.get(0).unwrap().unwrap().as_str(), "abc");
}

#[test]
fn utf16_pool_decodes() {
    let c = pool_chunk(&["abc"], false);
    let pool = StringPool::read_strings(&c, 0, c.len()).unwrap();
    assert_eq!(pool.len(), 1);
    assert_eq!(pool.get(0).unwrap().unwrap().as_str(), "abc");
}

#[test]
fn non_ascii_pool_entries_decode() {
    let c8 = pool_chunk(&["h\u{e9}", "\u{65e5}\u{672c}"], true);
    let p8 = StringPool::read_strings(&c8, 0, c8.len()).unwrap();
    assert_eq!(p8.get(0).unwrap().unwrap().as_str(), "h\u{e9}");
    assert_eq!(p8.get(1).unwrap().unwrap().as_str(), "\u{65e5}\u{672c}");
    let c16 = pool_chunk(&["\u{1f600}x"], false);
    let p16 = StringPool::read_strings(&c16, 0, c16.len()).unwrap();
    assert_eq!(p16.get(0).unwrap().unwrap().as_str(), "\u{1f600}x");
}

#[test]
fn invalid_utf8_entry() {
    let mut c = pool_chunk(&["abc"], true);
    // the entry's bytes start after the two length bytes
    let at = 28 + 4 + 2;
    c[at] = 0xFF;
    assert_eq!(StringPool::read_strings(&c, 0, c.len()).err(), Some(ParseError::InvalidEncoding));
}

#[test]
fn unpaired_surrogate_entry() {
    let mut c = pool_chunk(&["ab"], false);
    let at = 28 + 4 + 2;
    c[at] = 0x00;
    c[at + 1] = 0xD8;
    assert_eq!(StringPool::read_strings(&c, 0, c.len()).err(), Some(ParseError::InvalidEncoding));
}

#[test]
fn long_utf16_entry_unsupported() {
    let mut c = pool_chunk(&["ab"], false);
    let at = 28 + 4;
    c[at + 1] = 0x80;
    assert_eq!(StringPool::read_strings(&c, 0, c.len()).err(), Some(ParseError::UnsupportedFeature));
}

#[test]
fn long_utf8_entry_unsupported() {
    let mut c = pool_chunk(&["ab"], true);
    let at = 28 + 4;
    c[at + 1] = 0x80;
    assert_eq!(StringPool::read_strings(&c, 0, c.len()).err(), Some(ParseError::UnsupportedFeature));
}

#[test]
fn styled_pool_unsupported() {
    let mut c = pool_chunk(&["ab"], false);
    c[12] = 1;
    assert_eq!(StringPool::read_strings(&c, 0, c.len()).err(), Some(ParseError::UnsupportedFeature));
}

#[test]
fn pool_count_beyond_chunk_is_truncated() {
    let mut c = pool_chunk(&["ab"], false);
    c[8..12].copy_from_slice(&0x4000_0000u32.to_le_bytes());
    assert_eq!(StringPool::read_strings(&c, 0, c.len()).err(), Some(ParseError::TruncatedInput));
}

#[test]
fn entry_offset_beyond_chunk_is_truncated() {
    let mut c = pool_chunk(&["ab"], false);
    c[28..32].copy_from_slice(&0x1000u32.to_le_bytes());
    assert_eq!(StringPool::read_strings(&c, 0, c.len()).err(), Some(ParseError::TruncatedInput));
}

#[test]
fn attribute_keys() {
    let strings = ["android", "http://schemas.android.com/apk/res/android", "versionCode", "debuggable", "manifest"];
    let b = with_pool(
        &strings,
        &[start_ns(0, 1), start_el(4, &[(1, 2, T_DEC, 3), (NONE, 3, T_BOOL, 0)]), end_el(4), end_ns(0, 1)],
    );
    let doc = parse(&b).unwrap();
    let root = root_of(&doc);
    let mut keys: Vec<&str> = root.get_attributes().iter().map(|(k, _)| k.as_str()).collect();
    keys.sort();
    assert_eq!(keys, vec!["android:versionCode", "debuggable"]);
    assert_eq!(attr(root, "android:versionCode"), Some("3"));
    assert_eq!(attr(root, "debuggable"), Some("false"));
}

#[test]
fn duplicate_attribute_key_last_wins() {
    let b = with_pool(&["manifest", "k", "first", "second"], &[start_el(0, &[(NONE, 1, T_STRING, 2), (NONE, 1, T_STRING, 3)]), end_el(0)]);
    let doc = parse(&b).unwrap();
    let root = root_of(&doc);
    assert_eq!(root.get_attributes().len(), 1);
    assert_eq!(attr(root, "k"), Some("second"));
}

#[test]
fn namespace_redeclared_overwrites() {
    let b = with_pool(
        &["a", "uri", "b", "x", "manifest"],
        &[start_ns(0, 1), start_ns(2, 1), start_el(4, &[(1, 3, T_DEC, 1)]), end_el(4)],
    );
    let doc = parse(&b).unwrap();
    assert_eq!(attr(root_of(&doc), "b:x"), Some("1"));
}

#[test]
fn undeclared_namespace() {
    let b = with_pool(&["uri", "x", "manifest"], &[start_el(2, &[(0, 1, T_DEC, 1)]), end_el(2)]);
    assert_eq!(err_of(&b), ParseError::NamespaceNotFound(0));
}

#[test]
fn value_resolution() {
    let pool = pool_of(&["zero", "one", "two"]);
    assert_eq!(value(ResourceValueType::Boolean, 0).get_value(&pool).unwrap(), "false");
    assert_eq!(value(ResourceValueType::Boolean, 1).get_value(&pool).unwrap(), "true");
    assert_eq!(value(ResourceValueType::Dec, 42).get_value(&pool).unwrap(), "42");
    assert_eq!(value(ResourceValueType::String, 2).get_value(&pool).unwrap(), "two");
}

#[test]
fn hex_value_uses_decimal_digits() {
    let pool = pool_of(&[]);
    assert_eq!(value(ResourceValueType::Hex, 255).get_value(&pool).unwrap(), "0x255");
}

#[test]
fn other_value_types_give_placeholder() {
    let pool = pool_of(&[]);
    assert_eq!(value(ResourceValueType::Reference, 2130837504).get_value(&pool).unwrap(), "Reference/2130837504");
    assert_eq!(value(ResourceValueType::ColorArgb8, 0).get_value(&pool).unwrap(), "ColorArgb8/0");
    assert_eq!(value(ResourceValueType::Null, 5).get_value(&pool).unwrap(), "Null/5");
}

#[test]
fn string_value_lookups_fail() {
    let pool = pool_of(&["a"]);
    assert_eq!(value(ResourceValueType::String, 1).get_value(&pool), Err(ParseError::StringNotFound(1)));
    assert_eq!(value(ResourceValueType::String, NONE).get_value(&pool), Err(ParseError::StringNotFound(NONE)));
}

#[test]
fn decimal_text() {
    assert_eq!(decimal_string(0), "0");
    assert_eq!(decimal_string(9), "9");
    assert_eq!(decimal_string(10), "10");
    assert_eq!(decimal_string(4294967295), "4294967295");
}

#[test]
fn value_type_codes() {
    assert_eq!(ResourceValueType::from_code(0x12), Ok(ResourceValueType::Boolean));
    assert_eq!(ResourceValueType::from_code(0x1c), Ok(ResourceValueType::ColorArgb8));
    assert_eq!(ResourceValueType::from_code(0x07), Err(ParseError::UnsupportedFeature));
}

#[test]
fn single_element_with_attribute() {
    let b = with_pool(&["manifest", "package", "com.example"], &[start_el(0, &[(NONE, 1, T_STRING, 2)]), end_el(0)]);
    let doc = parse(&b).unwrap();
    let root = root_of(&doc);
    assert_eq!(root.get_tag(), "manifest");
    assert_eq!(root.get_attributes().len(), 1);
    assert_eq!(attr(root, "package"), Some("com.example"));
    assert!(root.get_children().is_empty());
}

#[test]
fn nested_elements() {
    let b = with_pool(&["manifest", "application"], &[start_el(0, &[]), start_el(1, &[]), end_el(1), end_el(0)]);
    let doc = parse(&b).unwrap();
    let root = root_of(&doc);
    assert_eq!(root.get_tag(), "manifest");
    assert_eq!(root.get_children().len(), 1);
    match &root.get_children()[0] {
        Node::Element(app) => {
            assert_eq!(app.get_tag(), "application");
            assert!(app.get_children().is_empty());
        },
        Node::Cdata(_) => panic!("expected an element"),
    }
}

#[test]
fn text_and_children_keep_order() {
    let b = with_pool(
        &["manifest", "a", "b", "hello"],
        &[start_el(0, &[]), start_el(1, &[]), end_el(1), cdata(3, T_STRING, 3), start_el(2, &[]), end_el(2), end_el(0)],
    );
    let doc = parse(&b).unwrap();
    let kids = root_of(&doc).get_children();
    assert_eq!(kids.len(), 3);
    assert!(matches!(&kids[0], Node::Element(e) if e.get_tag() == "a"));
    assert!(matches!(&kids[1], Node::Cdata(c) if c.get_data() == "hello"));
    assert!(matches!(&kids[2], Node::Element(e) if e.get_tag() == "b"));
}

#[test]
fn bytes_after_root_are_ignored() {
    let mut b = with_pool(&["manifest"], &[start_el(0, &[]), end_el(0)]);
    let len = b.len();
    b.extend_from_slice(&[0xAB; 12]);
    let size = (len + 12) as u32;
    b[4..8].copy_from_slice(&size.to_le_bytes());
    assert!(parse(&b).is_ok());
}

#[test]
fn truncated_after_header() {
    let b = with_pool(&["manifest"], &[start_el(0, &[]), end_el(0)]);
    assert_eq!(err_of(&b[..8]), ParseError::TruncatedInput);
}

#[test]
fn every_prefix_fails_cleanly() {
    let b = with_pool(&["manifest", "package", "x"], &[start_el(0, &[(NONE, 1, T_STRING, 2)]), end_el(0)]);
    for n in 0..b.len() {
        assert!(parse(&b[..n]).is_err());
    }
    assert!(parse(&b).is_ok());
}

#[test]
fn short_buffer_is_truncated() {
    assert_eq!(err_of(&[3, 0, 8]), ParseError::TruncatedInput);
    assert_eq!(err_of(&[]), ParseError::TruncatedInput);
}

#[test]
fn wrong_top_level_type() {
    let mut b = with_pool(&["manifest"], &[start_el(0, &[]), end_el(0)]);
    b[0] = 0x02;
    assert_eq!(err_of(&b), ParseError::InvalidFormat);
}

#[test]
fn unknown_chunk_type() {
    let mut bad = end_el(0);
    bad[0] = 0x05;
    let b = with_pool(&["manifest"], &[start_el(0, &[]), bad, end_el(0)]);
    assert_eq!(err_of(&b), ParseError::InvalidFormat);
}

#[test]
fn text_outside_element() {
    let b = with_pool(&["hello"], &[cdata(0, T_STRING, 0)]);
    assert_eq!(err_of(&b), ParseError::InvalidFormat);
}

#[test]
fn end_without_start() {
    let b = with_pool(&["manifest"], &[end_el(0)]);
    assert_eq!(err_of(&b), ParseError::InvalidFormat);
}

#[test]
fn missing_resource_map() {
    let b = document(&[pool_chunk(&["manifest"], false), start_el(0, &[]), end_el(0)]);
    assert_eq!(err_of(&b), ParseError::MissingRequiredChunk);
}

#[test]
fn missing_string_pool() {
    let b = document(&[resource_map_chunk(&[1]), start_el(0, &[]), end_el(0)]);
    assert_eq!(err_of(&b), ParseError::MissingRequiredChunk);
    let empty = document(&[]);
    assert_eq!(err_of(&empty), ParseError::MissingRequiredChunk);
}

#[test]
fn missing_tag_string() {
    let b = with_pool(&["manifest"], &[start_el(5, &[]), end_el(5)]);
    assert_eq!(err_of(&b), ParseError::StringNotFound(5));
}

#[test]
fn namespaced_element_unsupported() {
    let b = with_pool(&["uri", "manifest"], &[start_el_ns(0, 1, &[]), end_el(1)]);
    assert_eq!(err_of(&b), ParseError::UnsupportedFeature);
}

#[test]
fn unknown_value_type_unsupported() {
    let b = with_pool(&["manifest", "k"], &[start_el(0, &[(NONE, 1, 0x07, 0)]), end_el(0)]);
    assert_eq!(err_of(&b), ParseError::UnsupportedFeature);
}

#[test]
fn placeholder_in_document() {
    let b = with_pool(&["manifest", "k"], &[start_el(0, &[(NONE, 1, T_NULL, 0)]), end_el(0)]);
    let doc = parse(&b).unwrap();
    assert_eq!(attr(root_of(&doc), "k"), Some("Null/0"));
}

#[test]
fn inconsistent_chunk_header() {
    let mut bad = end_el(0);
    bad[2] = 4;
    let b = with_pool(&["manifest"], &[start_el(0, &[]), bad]);
    assert_eq!(err_of(&b), ParseError::InvalidFormat);
}

#[test]
fn chunk_too_small_for_its_fields() {
    let mut bad = end_el(0);
    bad[4] = 16;
    bad.truncate(16);
    let b = with_pool(&["manifest"], &[start_el(0, &[]), bad]);
    assert_eq!(err_of(&b), ParseError::TruncatedInput);
}

#[test]
fn resource_map_ids_unused() {
    let b = document(&[pool_chunk(&["m"], true), resource_map_chunk(&[]), start_el(0, &[]), end_el(0)]);
    assert_eq!(root_of(&parse(&b).unwrap()).get_tag(), "m");
}

#[test]
fn string_data_inside_header_is_invalid() {
    let mut c = pool_chunk(&["ab"], false);
    c[20..24].copy_from_slice(&16u32.to_le_bytes());
    assert_eq!(StringPool::read_strings(&c, 0, c.len()).err(), Some(ParseError::InvalidFormat));
    c[16..20].copy_from_slice(&0x8000u32.to_le_bytes());
    assert_eq!(StringPool::read_strings(&c, 0, c.len()).err(), Some(ParseError::InvalidFormat));
}

#[test]
fn flags_other_than_utf8_bit_are_ignored() {
    let mut c = pool_chunk(&["abc", "de"], false);
    let plain = StringPool::read_strings(&c, 0, c.len()).unwrap();
    c[16..20].copy_from_slice(&0x8000u32.to_le_bytes());
    let flagged = StringPool::read_strings(&c, 0, c.len()).unwrap();
    assert_eq!(plain.len(), flagged.len());
    for i in 0..2 {
        assert_eq!(plain.get(i).unwrap().unwrap(), flagged.get(i).unwrap().unwrap());
    }
}

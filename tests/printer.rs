use axmldecoder::parse;
use axmldecoder::printer::{format_cdata, format_end_element, format_start_element, format_xml, tree_depth};
use axmldecoder::Node;

const NONE: u32 = 0xFFFF_FFFF;

fn put16(v: &mut Vec<u8>, x: u16) {
    v.extend_from_slice(&x.to_le_bytes());
}

fn put32(v: &mut Vec<u8>, x: u32) {
    v.extend_from_slice(&x.to_le_bytes());
}

fn pool_chunk(strings: &[&str]) -> Vec<u8> {
    let mut data = Vec::new();
    let mut offsets = Vec::new();
    for s in strings {
        offsets.push(data.len() as u32);
        data.push(s.chars().count() as u8);
        data.push(s.len() as u8);
        data.extend_from_slice(s.as_bytes());
        data.push(0);
    }
    while data.len() % 4 != 0 {
        data.push(0);
    }
    let start = 28 + 4 * strings.len();
    let mut c = Vec::new();
    put16(&mut c, 0x0001);
    put16(&mut c, 28);
    put32(&mut c, (start + data.len()) as u32);
    put32(&mut c, strings.len() as u32);
    put32(&mut c, 0);
    put32(&mut c, 0x100);
    put32(&mut c, start as u32);
    put32(&mut c, 0);
    for o in offsets {
        put32(&mut c, o);
    }
    c.extend_from_slice(&data);
    c
}

fn node(typ: u16, payload: &[u32]) -> Vec<u8> {
    let mut c = Vec::new();
    put16(&mut c, typ);
    put16(&mut c, 16);
    put32(&mut c, 16 + 4 * payload.len() as u32);
    put32(&mut c, 1);
    put32(&mut c, NONE);
    for p in payload {
        put32(&mut c, *p);
    }
    c
}

fn start_el(name: u32, attr: Option<(u32, u32)>) -> Vec<u8> {
    let mut c = Vec::new();
    let n = if attr.is_some() { 1 } else { 0 };
    put16(&mut c, 0x0102);
    put16(&mut c, 16);
    put32(&mut c, 36 + 20 * n);
    put32(&mut c, 1);
    put32(&mut c, NONE);
    put32(&mut c, NONE);
    put32(&mut c, name);
    put16(&mut c, 0x14);
    put16(&mut c, 0x14);
    put16(&mut c, n as u16);
    put16(&mut c, 0);
    put16(&mut c, 0);
    put16(&mut c, 0);
    if let Some((k, v)) = attr {
        put32(&mut c, NONE);
        put32(&mut c, k);
        put32(&mut c, v);
        put16(&mut c, 8);
        c.push(0);
        c.push(0x03);
        put32(&mut c, v);
    }
    c
}

fn text(i: u32) -> Vec<u8> {
    // data reference, then a string-typed value
    let mut c = node(0x0104, &[i]);
    c[4..8].copy_from_slice(&28u32.to_le_bytes());
    put16(&mut c, 8);
    c.push(0);
    c.push(0x03);
    put32(&mut c, i);
    c
}

fn sample() -> Vec<u8> {
    let strings = ["manifest", "package", "com.example", "application", "line one\nline two"];
    let mut res_map = Vec::new();
    put16(&mut res_map, 0x0180);
    put16(&mut res_map, 8);
    put32(&mut res_map, 8);
    let body = [
        pool_chunk(&strings),
        res_map,
        start_el(0, Some((1, 2))),
        start_el(3, None),
        text(4),
        node(0x0103, &[NONE, 3]),
        node(0x0103, &[NONE, 0]),
    ]
    .concat();
    let mut d = Vec::new();
    put16(&mut d, 0x0003);
    put16(&mut d, 8);
    put32(&mut d, 8 + body.len() as u32);
    d.extend_from_slice(&body);
    d
}

#[test]
fn prints_indented_tree() {
    let doc = parse(&sample()).unwrap();
    let root = doc.get_root().as_ref().unwrap();
    assert_eq!(tree_depth(root), Some(3));
    let mut out = String::new();
    format_xml(root, 0, &mut out);
    let expected = "<manifest package=\"com.example\">\n  <application>\n    <![CDATA[line one\n    line two]]>\n  </application>\n</manifest>\n";
    assert_eq!(out, expected);
}

#[test]
fn tags_and_cdata() {
    let doc = parse(&sample()).unwrap();
    let root = match doc.get_root() {
        Some(Node::Element(e)) => e,
        _ => panic!("no root element"),
    };
    assert_eq!(format_start_element(root), "<manifest package=\"com.example\">");
    assert_eq!(format_end_element(root), "</manifest>");
    let app = match &root.get_children()[0] {
        Node::Element(e) => e,
        Node::Cdata(_) => panic!("expected an element"),
    };
    assert_eq!(format_start_element(app), "<application>");
    match &app.get_children()[0] {
        Node::Cdata(c) => {
            assert_eq!(format_cdata(c, 0), "<![CDATA[line one\nline two]]>");
            assert_eq!(format_cdata(c, 2), "<![CDATA[line one\n    line two]]>");
        },
        Node::Element(_) => panic!("expected text"),
    }
}

#[test]
fn childless_element_self_closes() {
    let strings = ["uses-sdk"];
    let mut res_map = Vec::new();
    put16(&mut res_map, 0x0180);
    put16(&mut res_map, 8);
    put32(&mut res_map, 8);
    let body = [pool_chunk(&strings), res_map, start_el(0, None), node(0x0103, &[NONE, 0])].concat();
    let mut d = Vec::new();
    put16(&mut d, 0x0003);
    put16(&mut d, 8);
    put32(&mut d, 8 + body.len() as u32);
    d.extend_from_slice(&body);
    let doc = parse(&d).unwrap();
    let root = doc.get_root().as_ref().unwrap();
    let mut out = String::from(">");
    format_xml(root, 1, &mut out);
    assert_eq!(out, ">  <uses-sdk/>\n");
}

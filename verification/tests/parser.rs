use std::collections::HashMap;

use athanor_core::formats::Format;
use athanor_core::parser::{
    detect_format, disassemble_bytes, get_strings, get_symbols, parse_anim, parse_aud, parse_bnx,
    parse_bnx_text, parse_comp, parse_igb, parse_phys, parse_pipe, parse_plgn, parse_pbr,
    parse_save, parse_xmlb, parse_zam, parse_zsm,
};
use athanor_core::{AthanorError, FileMetadata, PropertyValue};

fn le32(v: u32) -> [u8; 4] {
    v.to_le_bytes()
}

fn metadata() -> FileMetadata {
    FileMetadata {
        path: "in.dat".to_string(),
        format: "X".to_string(),
        size: 0,
        magic: None,
        version: None,
        node_count: None,
        string_count: None,
    }
}

/// An XMLB file: header (magic, table offset at 8), two records, string table.
fn xmlb_sample() -> Vec<u8> {
    let mut d = Vec::new();
    d.extend_from_slice(&le32(0x11B1));
    d.extend_from_slice(&le32(0));
    d.extend_from_slice(&le32(24 + 3 * 32)); // string table after three records
    d.extend_from_slice(&[0u8; 12]);
    let table = 24 + 3 * 32;
    let s_node = table; // "Node"
    let s_name = table + 5; // "Hero"
    let s_key = table + 10; // "hp"
    let s_val = table + 13; // "full"
    // Record 0: type, name, (key, string value), (missing key label, int), (no key)
    for w in [s_node, s_name, s_key, s_val, 0x1234, 77, 0xFFFF_FFFF, 5] {
        d.extend_from_slice(&le32(w as u32));
    }
    // Record 1: empty.
    for _ in 0..8 {
        d.extend_from_slice(&le32(0xFFFF_FFFF));
    }
    // Record 2: no names, a key with a null value.
    for w in [0xFFFF_FFFFu32, 9, s_key as u32, 0xFFFF_FFFF, 0, 0, 0xFFFF_FFFF, 0] {
        d.extend_from_slice(&le32(w));
    }
    assert_eq!(d.len(), table);
    d.extend_from_slice(b"Node\0Hero\0hp\0full\0\0tail");
    d
}

#[test]
fn xmlb_string_table_and_nodes() {
    let data = xmlb_sample();
    let mut strings = HashMap::new();
    let nodes = parse_xmlb(&data, &mut strings);
    let table = 24 + 3 * 32u32;
    assert_eq!(strings.len(), 5);
    assert_eq!(strings[&table], "Node");
    assert_eq!(strings[&(table + 5)], "Hero");
    assert_eq!(strings[&(table + 10)], "hp");
    assert_eq!(strings[&(table + 13)], "full");
    assert_eq!(strings[&(table + 19)], "tail");
    assert_eq!(nodes.len(), 2);
    let n0 = &nodes[0];
    assert_eq!(n0.index, 0);
    assert_eq!(n0.file_offset, 24);
    assert_eq!(n0.node_type.as_deref(), Some("Node"));
    assert_eq!(n0.name.as_deref(), Some("Hero"));
    assert_eq!(n0.raw_bytes, data[24..56].to_vec());
    assert_eq!(n0.properties.len(), 2);
    assert_eq!(n0.properties[0].key.as_deref(), Some("hp"));
    assert!(matches!(&n0.properties[0].value, PropertyValue::String(s) if s == "full"));
    assert!(!n0.properties[0].is_raw);
    assert_eq!(n0.properties[1].key.as_deref(), Some("<0x00001234>"));
    assert!(matches!(n0.properties[1].value, PropertyValue::Integer(77)));
    assert!(n0.properties[1].is_raw);
    let n2 = &nodes[1];
    assert_eq!(n2.index, 2);
    assert_eq!(n2.file_offset, 88);
    assert_eq!(n2.node_type, None);
    assert_eq!(n2.name, None);
    assert_eq!(n2.properties.len(), 2);
    assert_eq!(n2.properties[0].key.as_deref(), Some("hp"));
    assert!(matches!(n2.properties[0].value, PropertyValue::Null));
    assert!(!n2.properties[0].is_raw);
    assert_eq!(n2.properties[1].key.as_deref(), Some("<0x00000000>"));
    assert!(matches!(n2.properties[1].value, PropertyValue::Integer(0)));
}

#[test]
fn xmlb_string_offsets_name_strings_anywhere_after_the_table_start() {
    // A key word that points into the middle of a string names no string.
    let mut data = xmlb_sample();
    let table = 24 + 3 * 32;
    data[24 + 8..24 + 12].copy_from_slice(&le32(table as u32 + 1));
    let mut strings = HashMap::new();
    let nodes = parse_xmlb(&data, &mut strings);
    assert_eq!(nodes[0].properties[0].key.as_deref(), Some("<0x00000079>"));
}

#[test]
fn xmlb_short_file_gives_nothing() {
    let mut strings = HashMap::new();
    strings.insert(1u32, "kept".to_string());
    let nodes = parse_xmlb(&[0u8; 23], &mut strings);
    assert!(nodes.is_empty());
    assert_eq!(strings.len(), 1);
}

#[test]
fn bnx_lines_with_equals_are_entries() {
    let text = "name = Wolverine\r\n\n# comment\n  speed=  12 \nflag=a=b";
    let mut strings = HashMap::new();
    let nodes = parse_bnx_text(text, &mut strings);
    assert_eq!(nodes.len(), 3);
    assert_eq!(nodes[0].index, 0);
    assert_eq!(nodes[0].file_offset, 0);
    assert_eq!(nodes[0].node_type.as_deref(), Some("BNX_ENTRY"));
    assert_eq!(nodes[0].name.as_deref(), Some("name"));
    assert_eq!(nodes[0].properties.len(), 1);
    assert_eq!(nodes[0].properties[0].key.as_deref(), Some("value"));
    assert!(matches!(&nodes[0].properties[0].value, PropertyValue::String(s) if s == "Wolverine"));
    assert_eq!(nodes[0].raw_bytes, b"name = Wolverine".to_vec());
    assert_eq!(nodes[1].index, 3);
    assert_eq!(nodes[1].file_offset, 192);
    assert_eq!(nodes[1].name.as_deref(), Some("speed"));
    assert!(matches!(&nodes[1].properties[0].value, PropertyValue::String(s) if s == "12"));
    assert_eq!(nodes[2].index, 4);
    assert_eq!(nodes[2].name.as_deref(), Some("flag"));
    assert!(matches!(&nodes[2].properties[0].value, PropertyValue::String(s) if s == "a=b"));
    assert_eq!(strings.len(), 3);
    assert_eq!(strings[&0], "name = Wolverine");
    assert_eq!(strings[&3], "  speed=  12 ");
    assert_eq!(strings[&4], "flag=a=b");
}

#[test]
fn bnx_bytes_are_read_lossily() {
    let mut data = b"k=v\n".to_vec();
    data.extend_from_slice(&[0xFF, b'=', b'x']);
    let mut strings = HashMap::new();
    let nodes = parse_bnx(&data, &mut strings).expect("offsets fit");
    assert_eq!(nodes.len(), 2);
    assert_eq!(nodes[1].name.as_deref(), Some("\u{FFFD}"));
    assert_eq!(nodes[1].raw_bytes, "\u{FFFD}=x".as_bytes().to_vec());
}

#[test]
fn igb_runs_of_three_printable_bytes() {
    let data = [b'a', b'b', 0, b'x', b'y', b'z', b'!', 0x7F, b'q', b'r', b's'];
    let mut strings = HashMap::new();
    let nodes = parse_igb(&data, &mut strings);
    assert_eq!(nodes.len(), 2);
    assert_eq!(nodes[0].index, 0);
    assert_eq!(nodes[0].file_offset, 3);
    assert_eq!(nodes[0].name.as_deref(), Some("xyz!"));
    assert_eq!(nodes[0].node_type.as_deref(), Some("IGB_STRING"));
    assert_eq!(nodes[0].raw_bytes, b"xyz!".to_vec());
    assert_eq!(nodes[1].index, 1);
    assert_eq!(nodes[1].file_offset, 8);
    assert_eq!(nodes[1].name.as_deref(), Some("qrs"));
    assert_eq!(strings.len(), 2);
    assert_eq!(strings[&3], "xyz!");
    assert_eq!(strings[&8], "qrs");
}

#[test]
fn zam_keeps_every_printable_run() {
    let data = [b'a', 0, b'b', b'c', 0x80];
    let nodes = parse_zam(&data);
    assert_eq!(nodes.len(), 2);
    assert_eq!(nodes[0].name.as_deref(), Some("a"));
    assert_eq!(nodes[0].file_offset, 0);
    assert_eq!(nodes[1].name.as_deref(), Some("bc"));
    assert_eq!(nodes[1].file_offset, 2);
    assert_eq!(nodes[1].index, 1);
    assert_eq!(nodes[1].node_type.as_deref(), Some("ZAM_DATA"));
}

#[test]
fn zsm_reads_the_counted_strings() {
    let mut d = vec![0u8; 16];
    d[8..12].copy_from_slice(&le32(16));
    d[12..16].copy_from_slice(&le32(2));
    d.extend_from_slice(b"\0one\0two\0three\0");
    let nodes = parse_zsm(&d);
    assert_eq!(nodes.len(), 2);
    assert_eq!(nodes[0].file_offset, 17);
    assert_eq!(nodes[0].index, 17);
    assert_eq!(nodes[0].name.as_deref(), Some("one"));
    assert_eq!(nodes[0].node_type.as_deref(), Some("ZSM_STRING"));
    assert!(nodes[0].raw_bytes.is_empty());
    assert_eq!(nodes[1].file_offset, 21);
    assert_eq!(nodes[1].name.as_deref(), Some("two"));
    assert!(parse_zsm(&[0u8; 15]).is_empty());
}

#[test]
fn fixed_records_follow_the_count_word() {
    let mut d = vec![0u8; 32];
    d[24..28].copy_from_slice(&le32(5));
    for i in 0..3u8 {
        d.extend_from_slice(&[i; 32]);
    }
    let nodes = parse_anim(&d);
    assert_eq!(nodes.len(), 3);
    for (i, n) in nodes.iter().enumerate() {
        assert_eq!(n.index, i);
        assert_eq!(n.file_offset as usize, 32 + 32 * i);
        assert_eq!(n.node_type.as_deref(), Some("ANIM_STATE"));
        assert_eq!(n.name, None);
        assert_eq!(n.raw_bytes, vec![i as u8; 32]);
    }
    assert_eq!(parse_phys(&d)[0].node_type.as_deref(), Some("PHYS_SHAPE"));
    assert_eq!(parse_aud(&d)[0].node_type.as_deref(), Some("AUD_BUS"));
    assert_eq!(parse_comp(&d)[0].node_type.as_deref(), Some("COMP_EFFECT"));
    assert_eq!(parse_pbr(&d)[0].node_type.as_deref(), Some("PBR_MATERIAL"));
    assert_eq!(parse_plgn(&d)[0].node_type.as_deref(), Some("PLGN_PLUGIN"));
    assert_eq!(parse_save(&d)[0].node_type.as_deref(), Some("SAVE_SECTION"));
    assert_eq!(parse_pipe(&d)[0].node_type.as_deref(), Some("PIPE_IMPORT"));
    d[24..28].copy_from_slice(&le32(1));
    assert_eq!(parse_anim(&d).len(), 1);
    assert!(parse_anim(&d[..31]).is_empty());
}

#[test]
fn unsupported_formats_are_refused() {
    match disassemble_bytes(Format::Unknown, vec![1, 2, 3], metadata()) {
        Err(AthanorError::UnsupportedFormat(m)) => assert_eq!(m, "Unknown"),
        _ => panic!("expected an unsupported format"),
    }
    match disassemble_bytes(Format::ZSS, vec![], metadata()) {
        Err(AthanorError::UnsupportedFormat(m)) => assert_eq!(m, "ZSS"),
        _ => panic!("expected an unsupported format"),
    }
}

#[test]
fn disassembly_keeps_raw_data_and_strings() {
    let data = xmlb_sample();
    let file = disassemble_bytes(Format::XMLB, data.clone(), metadata()).expect("XMLB parses");
    assert_eq!(file.raw_data, data);
    assert_eq!(file.nodes.len(), 2);
    assert_eq!(file.strings.len(), 5);
    assert_eq!(file.metadata.path, "in.dat");
    let mut symbols = get_symbols(&file);
    symbols.sort();
    assert_eq!(symbols, vec!["Hero", "Node", "full", "hp", "tail"]);
    let strings = get_strings(&file);
    assert_eq!(strings, file.strings);
    // The package kinds share XMLB's layout and are read the same way.
    for kind in [Format::PKGB, Format::ENGB, Format::CHRB, Format::NAVB, Format::BOYB] {
        let same = disassemble_bytes(kind, data.clone(), metadata()).expect("read as XMLB");
        assert_eq!(same.nodes.len(), 2);
        assert_eq!(same.strings, file.strings);
    }
    let bnx = disassemble_bytes(Format::BNX, b"a=1\nb=2\n".to_vec(), metadata()).expect("BNX parses");
    assert_eq!(bnx.nodes.len(), 2);
    assert_eq!(bnx.strings[&1], "b=2");
}

#[test]
fn detect_format_uses_extension_then_contents() {
    assert_eq!(detect_format("BNX", &[0xB1, 0x11, 0, 0]), Format::BNX);
    assert_eq!(detect_format("bin", &[0xB1, 0x11, 0, 0]), Format::XMLB);
    assert_eq!(detect_format("bin", b"x="), Format::BNX);
}

use std::collections::HashMap;

use athanor_core::builder::{BNXBuilder, BinaryBuilder, Builder, XMLBBuilder};
use athanor_core::parser::parse_bnx;
use athanor_core::{AthanorError, PropertyValue};

fn invalid(r: Result<(), AthanorError>) -> String {
    match r {
        Err(AthanorError::InvalidData(m)) => m,
        other => panic!("expected invalid data, got {:?}", other),
    }
}

#[test]
fn xmlb_validation() {
    let b = XMLBBuilder::new();
    assert_eq!(invalid(b.validate(&[0u8; 23])), "XMLB file too small");
    let mut data = vec![0u8; 24];
    assert_eq!(invalid(b.validate(&data)), "Invalid XMLB magic");
    data[0] = 0xB1;
    data[1] = 0x11;
    assert!(b.validate(&data).is_ok());
}

#[test]
fn xmlb_compilation_is_not_available() {
    let b = Builder::xmlb();
    assert!(b.nodes.is_empty());
    assert!(b.strings.is_empty());
    match b.compile(&[]) {
        Err(AthanorError::Build(m)) => assert_eq!(m, "XMLB compilation not yet implemented"),
        _ => panic!("expected a build error"),
    }
}

#[test]
fn bnx_compiles_one_line_per_pair() {
    let mut b = Builder::bnx();
    assert!(b.pairs.is_empty());
    b.pairs.push(("name".to_string(), "Storm".to_string()));
    b.pairs.push(("hp".to_string(), "100".to_string()));
    let bytes = b.compile(&[]).expect("BNX compiles");
    assert_eq!(bytes, b"name=Storm\nhp=100\n".to_vec());
    assert!(BNXBuilder::new().compile(&[]).expect("empty").is_empty());
}

#[test]
fn bnx_validation() {
    let b = BNXBuilder::new();
    assert!(b.validate(b"a=1\n\n  \r\nb=2").is_ok());
    assert_eq!(invalid(b.validate(&[0xFF])), "BNX file is not valid UTF-8");
    assert_eq!(
        invalid(b.validate(b"a=1\n  oops  \nc")),
        "BNX line missing '=' separator:   oops  "
    );
}

#[test]
fn compiled_bnx_validates_and_reads_back() {
    let mut b = BNXBuilder::new();
    b.pairs.push((" key ".to_string(), " v=w\r".to_string()));
    b.pairs.push(("".to_string(), "".to_string()));
    b.pairs.push(("x".to_string(), "\u{e9}t\u{e9}".to_string()));
    let bytes = b.compile(&[]).expect("BNX compiles");
    assert!(b.validate(&bytes).is_ok());
    let mut strings = HashMap::new();
    let nodes = parse_bnx(&bytes, &mut strings).expect("offsets fit");
    assert_eq!(nodes.len(), 3);
    let expected = [("key", "v=w"), ("", ""), ("x", "\u{e9}t\u{e9}")];
    for (i, (n, (k, v))) in nodes.iter().zip(expected.iter()).enumerate() {
        assert_eq!(n.index, i);
        assert_eq!(n.name.as_deref(), Some(*k));
        assert!(matches!(&n.properties[0].value, PropertyValue::String(s) if s == v));
    }
}

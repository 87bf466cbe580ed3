use std::collections::HashMap;

use athanor_core::compiler::Compiler;
use athanor_core::formats::Format;
use athanor_core::parser::disassemble_bytes;
use athanor_core::{
    FileMetadata, Modification, ModificationOp, ParsedFile, ParsedNode, ParsedProperty,
    PropertyValue,
};

fn prop(key: Option<&str>, v: i64) -> ParsedProperty {
    ParsedProperty { key: key.map(|k| k.to_string()), value: PropertyValue::Integer(v), is_raw: false }
}

fn node(index: usize, props: Vec<ParsedProperty>) -> ParsedNode {
    ParsedNode {
        index,
        file_offset: index as u32 * 32,
        node_type: Some("T".to_string()),
        name: Some(format!("n{}", index)),
        properties: props,
        raw_bytes: vec![index as u8],
    }
}

fn file() -> ParsedFile {
    let mut strings = HashMap::new();
    strings.insert(4u32, "s".to_string());
    ParsedFile {
        metadata: FileMetadata {
            path: "f".to_string(),
            format: "XMLB".to_string(),
            size: 3,
            magic: Some(1),
            version: None,
            node_count: None,
            string_count: None,
        },
        nodes: vec![node(1, vec![prop(Some("a"), 1), prop(None, 2), prop(Some("a"), 3)]), node(2, vec![]), node(1, vec![])],
        strings,
        raw_data: vec![9, 8, 7],
    }
}

fn m(op: ModificationOp, index: usize, n: Option<ParsedNode>, p: Option<ParsedProperty>) -> Modification {
    Modification { node_index: index, operation: op, new_node: n, new_property: p }
}

fn ints(n: &ParsedNode) -> Vec<i64> {
    n.properties.iter().map(|p| match p.value { PropertyValue::Integer(v) => v, _ => -1 }).collect()
}

#[test]
fn add_and_remove_nodes() {
    let c = Compiler::new();
    let mut f = file();
    assert!(c.apply_modification(&mut f, &m(ModificationOp::AddNode, 0, Some(node(7, vec![])), None)).is_ok());
    assert_eq!(f.nodes.len(), 4);
    assert_eq!(f.nodes[3].index, 7);
    c.apply_modification(&mut f, &m(ModificationOp::AddNode, 0, None, None)).unwrap();
    assert_eq!(f.nodes.len(), 4);
    c.apply_modification(&mut f, &m(ModificationOp::RemoveNode, 1, None, None)).unwrap();
    let left: Vec<usize> = f.nodes.iter().map(|n| n.index).collect();
    assert_eq!(left, vec![2, 7]);
    assert_eq!(f.raw_data, vec![9, 8, 7]);
}

#[test]
fn update_node_replaces_the_first_match() {
    let c = Compiler::new();
    let mut f = file();
    let mut new = node(5, vec![]);
    new.name = Some("fresh".to_string());
    c.apply_modification(&mut f, &m(ModificationOp::UpdateNode, 1, Some(new), None)).unwrap();
    assert_eq!(f.nodes[0].index, 5);
    assert_eq!(f.nodes[0].name.as_deref(), Some("fresh"));
    assert_eq!(f.nodes[2].index, 1);
    // No node with that index: nothing changes.
    c.apply_modification(&mut f, &m(ModificationOp::UpdateNode, 42, Some(node(0, vec![])), None)).unwrap();
    assert_eq!(f.nodes.len(), 3);
    assert_eq!(f.nodes[0].index, 5);
}

#[test]
fn property_operations_act_on_the_first_matching_node() {
    let c = Compiler::new();
    let mut f = file();
    c.apply_modification(&mut f, &m(ModificationOp::AddProperty, 1, None, Some(prop(Some("b"), 4)))).unwrap();
    assert_eq!(ints(&f.nodes[0]), vec![1, 2, 3, 4]);
    assert!(f.nodes[2].properties.is_empty());
    c.apply_modification(&mut f, &m(ModificationOp::UpdateProperty, 1, None, Some(prop(Some("a"), 10)))).unwrap();
    assert_eq!(ints(&f.nodes[0]), vec![10, 2, 3, 4]);
    c.apply_modification(&mut f, &m(ModificationOp::UpdateProperty, 1, None, Some(prop(None, 20)))).unwrap();
    assert_eq!(ints(&f.nodes[0]), vec![10, 20, 3, 4]);
    c.apply_modification(&mut f, &m(ModificationOp::UpdateProperty, 1, None, Some(prop(Some("zz"), 0)))).unwrap();
    assert_eq!(ints(&f.nodes[0]), vec![10, 20, 3, 4]);
    c.apply_modification(&mut f, &m(ModificationOp::RemoveProperty, 1, None, Some(prop(Some("a"), 0)))).unwrap();
    assert_eq!(ints(&f.nodes[0]), vec![20, 4]);
    c.apply_modification(&mut f, &m(ModificationOp::RemoveProperty, 1, None, None)).unwrap();
    assert_eq!(ints(&f.nodes[0]), vec![4]);
}

#[test]
fn compiling_writes_the_raw_bytes_and_recounts() {
    let c = Compiler::new();
    let mut f = file();
    let mods = Some(vec![
        m(ModificationOp::RemoveNode, 2, None, None),
        m(ModificationOp::AddNode, 0, Some(node(3, vec![])), None),
    ]);
    let bytes = c.compile_parsed(&mut f, &mods).expect("compiles");
    assert_eq!(bytes, vec![9, 8, 7]);
    assert_eq!(f.nodes.len(), 3);
    assert_eq!(f.metadata.node_count, Some(3));
    assert_eq!(f.metadata.string_count, Some(1));
    let mut g = file();
    assert_eq!(c.compile_parsed(&mut g, &None).unwrap(), vec![9, 8, 7]);
    assert_eq!(g.metadata.node_count, Some(3));
    assert_eq!(c.serialize(&g).unwrap(), vec![9, 8, 7]);
}

#[test]
fn disassemble_then_compile_gives_back_the_bytes() {
    let data = b"speed=3\nname = Rogue\n".to_vec();
    let metadata = file().metadata;
    let mut parsed = disassemble_bytes(Format::BNX, data.clone(), metadata).expect("BNX parses");
    let mods = Some(vec![m(ModificationOp::RemoveNode, 0, None, None)]);
    let out = Compiler::new().compile_parsed(&mut parsed, &mods).expect("compiles");
    assert_eq!(out, data);
    assert_eq!(parsed.nodes.len(), 1);
    assert_eq!(parsed.metadata.node_count, Some(1));
    assert_eq!(parsed.metadata.string_count, Some(2));
}

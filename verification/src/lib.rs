//! Binary format assembly, disassembly and compilation for console game assets.
//!
//! The library never stores game assets: callers hand it the bytes of their
//! own discs, executables and data files, and it decodes, checks and rebuilds them.
pub mod bytes;
pub mod text;
pub mod console;
pub mod dxt;
pub mod formats;
pub mod parser;
pub mod builder;
pub mod compiler;
pub mod ghidra;
pub mod anchorpoint_integration;

pub use compiler::Compiler;

use vstd::prelude::*;

verus! {

/// Errors reported by the library.
#[derive(Debug)]
pub enum AthanorError {
    Parse(String),
    Build(String),
    UnsupportedFormat(String),
    InvalidData(String),
}

impl AthanorError {
    /// This is an `InvalidData` error carrying exactly `msg`.
    pub open spec fn is_invalid_data(self, msg: Seq<char>) -> bool {
        self matches AthanorError::InvalidData(m) && m@ == msg
    }

    /// This is a `Build` error carrying exactly `msg`.
    pub open spec fn is_build(self, msg: Seq<char>) -> bool {
        self matches AthanorError::Build(m) && m@ == msg
    }

    /// This is a `Parse` error carrying exactly `msg`.
    pub open spec fn is_parse(self, msg: Seq<char>) -> bool {
        self matches AthanorError::Parse(m) && m@ == msg
    }

    /// This is an `UnsupportedFormat` error carrying exactly `msg`.
    pub open spec fn is_unsupported(self, msg: Seq<char>) -> bool {
        self matches AthanorError::UnsupportedFormat(m) && m@ == msg
    }
}

pub(crate) fn invalid_data(msg: &str) -> (e: AthanorError)
    ensures
        e.is_invalid_data(msg@),
{
    AthanorError::InvalidData(text::owned(msg))
}


/// Metadata of a data file.
#[derive(Debug, Clone)]
pub struct FileMetadata {
    pub path: String,
    pub format: String,
    pub size: u64,
    pub magic: Option<u32>,
    pub version: Option<u32>,
    pub node_count: Option<usize>,
    pub string_count: Option<u32>,
}

/// A disassembled data file.
#[derive(Debug, Clone)]
pub struct ParsedFile {
    pub metadata: FileMetadata,
    pub nodes: Vec<ParsedNode>,
    pub strings: std::collections::HashMap<u32, String>,
    pub raw_data: Vec<u8>,
}

#[derive(Debug, Clone)]
pub struct ParsedNode {
    pub index: usize,
    pub file_offset: u32,
    pub node_type: Option<String>,
    pub name: Option<String>,
    pub properties: Vec<ParsedProperty>,
    pub raw_bytes: Vec<u8>,
}

#[derive(Debug, Clone)]
pub struct ParsedProperty {
    pub key: Option<String>,
    pub value: PropertyValue,
    pub is_raw: bool,
}

/// A property value. `Number` holds the IEEE-754 bit pattern of a 64-bit float.
#[derive(Debug, Clone)]
pub enum PropertyValue {
    String(String),
    Number(u64),
    Integer(i64),
    Unsigned(u64),
    Boolean(bool),
    Bytes(Vec<u8>),
    Null,
}

#[derive(Debug, Clone)]
pub struct CompileRequest {
    pub input_path: String,
    pub output_path: String,
    pub format: String,
    /// Path to game.iso, game.xbe, or game directory - scanned dynamically at assembly time
    pub source: Option<String>,
    pub modifications: Option<Vec<Modification>>,
}

#[derive(Debug, Clone)]
pub struct Modification {
    pub node_index: usize,
    pub operation: ModificationOp,
    pub new_node: Option<ParsedNode>,
    pub new_property: Option<ParsedProperty>,
}

#[derive(Debug, Clone, Copy, PartialEq, Eq, Structural)]
pub enum ModificationOp {
    AddNode,
    RemoveNode,
    UpdateNode,
    AddProperty,
    UpdateProperty,
    RemoveProperty,
}

#[derive(Debug, Clone)]
pub struct CompileResult {
    pub success: bool,
    pub output_path: String,
    pub bytes_written: u64,
    pub errors: Vec<String>,
    pub warnings: Vec<String>,
}

/// A property value as plain values.
#[verifier::ext_equal]
pub enum ValueModel {
    String(Seq<char>),
    Number(u64),
    Integer(i64),
    Unsigned(u64),
    Boolean(bool),
    Bytes(Seq<u8>),
    Null,
}

/// A property as plain values.
#[verifier::ext_equal]
pub struct PropertyModel {
    pub key: Option<Seq<char>>,
    pub value: ValueModel,
    pub is_raw: bool,
}

/// A node as plain values.
#[verifier::ext_equal]
pub struct NodeModel {
    pub index: usize,
    pub file_offset: u32,
    pub node_type: Option<Seq<char>>,
    pub name: Option<Seq<char>>,
    pub properties: Seq<PropertyModel>,
    pub raw_bytes: Seq<u8>,
}

/// A modification as plain values.
#[verifier::ext_equal]
pub struct ModModel {
    pub node_index: usize,
    pub operation: ModificationOp,
    pub new_node: Option<NodeModel>,
    pub new_property: Option<PropertyModel>,
}

impl View for Modification {
    type V = ModModel;

    open spec fn view(&self) -> ModModel {
        ModModel {
            node_index: self.node_index,
            operation: self.operation,
            new_node: match self.new_node {
                Some(n) => Some(n@),
                None => None,
            },
            new_property: match self.new_property {
                Some(p) => Some(p@),
                None => None,
            },
        }
    }
}

/// The text of an optional string.
pub open spec fn opt_text(o: Option<String>) -> Option<Seq<char>> {
    match o {
        Some(s) => Some(s@),
        None => None,
    }
}

impl View for PropertyValue {
    type V = ValueModel;

    open spec fn view(&self) -> ValueModel {
        match self {
            PropertyValue::String(s) => ValueModel::String(s@),
            PropertyValue::Number(n) => ValueModel::Number(*n),
            PropertyValue::Integer(n) => ValueModel::Integer(*n),
            PropertyValue::Unsigned(n) => ValueModel::Unsigned(*n),
            PropertyValue::Boolean(b) => ValueModel::Boolean(*b),
            PropertyValue::Bytes(b) => ValueModel::Bytes(b@),
            PropertyValue::Null => ValueModel::Null,
        }
    }
}

impl View for ParsedProperty {
    type V = PropertyModel;

    open spec fn view(&self) -> PropertyModel {
        PropertyModel { key: opt_text(self.key), value: self.value@, is_raw: self.is_raw }
    }
}

impl View for ParsedNode {
    type V = NodeModel;

    open spec fn view(&self) -> NodeModel {
        NodeModel {
            index: self.index,
            file_offset: self.file_offset,
            node_type: opt_text(self.node_type),
            name: opt_text(self.name),
            properties: self.properties@.map_values(|p: ParsedProperty| p@),
            raw_bytes: self.raw_bytes@,
        }
    }
}

/// The models of a sequence of nodes.
pub open spec fn nodes_view(v: Seq<ParsedNode>) -> Seq<NodeModel> {
    v.map_values(|n: ParsedNode| n@)
}

/// The models of a sequence of properties.
pub open spec fn props_view(v: Seq<ParsedProperty>) -> Seq<PropertyModel> {
    v.map_values(|p: ParsedProperty| p@)
}

/// The texts of a string table.
pub open spec fn strings_view(m: Map<u32, String>) -> Map<u32, Seq<char>> {
    m.map_values(|s: String| s@)
}

pub(crate) fn copy_opt_string(o: &Option<String>) -> (r: Option<String>)
    ensures
        opt_text(r) == opt_text(*o),
{
    match o {
        Some(s) => Some(s.clone()),
        None => None,
    }
}

impl PropertyValue {
    /// A copy of this value.
    pub fn duplicate(&self) -> (r: PropertyValue)
        ensures
            r@ == self@,
    {
        match self {
            PropertyValue::String(s) => {
                let t = s.clone();
                assert(t@ == s@);
                PropertyValue::String(t)
            },
            PropertyValue::Number(n) => PropertyValue::Number(*n),
            PropertyValue::Integer(n) => PropertyValue::Integer(*n),
            PropertyValue::Unsigned(n) => PropertyValue::Unsigned(*n),
            PropertyValue::Boolean(b) => PropertyValue::Boolean(*b),
            PropertyValue::Bytes(b) => PropertyValue::Bytes(bytes::copy_range(b.as_slice(), 0, b.len())),
            PropertyValue::Null => PropertyValue::Null,
        }
    }
}

impl ParsedProperty {
    /// A copy of this property.
    pub fn duplicate(&self) -> (r: ParsedProperty)
        ensures
            r@ == self@,
    {
        ParsedProperty { key: copy_opt_string(&self.key), value: self.value.duplicate(), is_raw: self.is_raw }
    }
}

impl ParsedNode {
    /// A copy of this node.
    pub fn duplicate(&self) -> (r: ParsedNode)
        ensures
            r@ == self@,
    {
        let mut properties: Vec<ParsedProperty> = Vec::new();
        let mut i: usize = 0;
        while i < self.properties.len()
            invariant
                i <= self.properties@.len(),
                props_view(properties@) == props_view(self.properties@).take(i as int),
            decreases self.properties@.len() - i,
        {
            let p = self.properties[i].duplicate();
            let ghost before = properties@;
            properties.push(p);
            assert(properties@ =~= before.push(p));
            assert(props_view(properties@) =~= props_view(before).push(p@));
            assert(props_view(self.properties@).take(i + 1) =~= props_view(self.properties@).take(
                i as int,
            ).push(self.properties@[i as int]@));
            i += 1;
        }
        assert(props_view(self.properties@).take(i as int) =~= props_view(self.properties@));
        ParsedNode {
            index: self.index,
            file_offset: self.file_offset,
            node_type: copy_opt_string(&self.node_type),
            name: copy_opt_string(&self.name),
            properties,
            raw_bytes: bytes::copy_range(self.raw_bytes.as_slice(), 0, self.raw_bytes.len()),
        }
    }
}

} // verus!

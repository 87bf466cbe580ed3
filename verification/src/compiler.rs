//! The compilation pipeline: modifications of a parsed file, header
//! recounting and serialisation.
use vstd::prelude::*;
use crate::bytes::copy_range;
use crate::{
    nodes_view, props_view, AthanorError, ModModel, Modification, ModificationOp, NodeModel,
    ParsedFile, ParsedNode, ParsedProperty, PropertyModel,
};

verus! {

broadcast use vstd::std_specs::hash::group_hash_axioms;

/// Index of the first node whose `index` field is `ni`, or the length when none is.
pub open spec fn find_node(ns: Seq<NodeModel>, ni: usize) -> nat
    decreases ns.len(),
{
    if ns.len() == 0 {
        0
    } else if ns[0].index == ni {
        0
    } else {
        1 + find_node(ns.drop_first(), ni)
    }
}

/// Index of the first property whose key is `key`, or the length when none is.
pub open spec fn find_prop(ps: Seq<PropertyModel>, key: Option<Seq<char>>) -> nat
    decreases ps.len(),
{
    if ps.len() == 0 {
        0
    } else if ps[0].key == key {
        0
    } else {
        1 + find_prop(ps.drop_first(), key)
    }
}

/// The key that a property modification names: that of its new property, if any.
pub open spec fn mod_key(m: ModModel) -> Option<Seq<char>> {
    match m.new_property {
        Some(p) => p.key,
        None => None,
    }
}

/// `n` with its properties replaced by `ps`.
pub open spec fn with_props(n: NodeModel, ps: Seq<PropertyModel>) -> NodeModel {
    NodeModel { properties: ps, ..n }
}

/// The nodes after applying the modification `m` to `ns`. Node operations
/// other than adding and removing act on the first node whose `index` field
/// is the modification's node index, and do nothing when there is none.
pub open spec fn applied(ns: Seq<NodeModel>, m: ModModel) -> Seq<NodeModel> {
    let i = find_node(ns, m.node_index) as int;
    match m.operation {
        ModificationOp::AddNode => match m.new_node {
            Some(n) => ns.push(n),
            None => ns,
        },
        ModificationOp::RemoveNode => ns.filter(|n: NodeModel| n.index != m.node_index),
        ModificationOp::UpdateNode => if i < ns.len() && m.new_node is Some {
            ns.update(i, m.new_node->0)
        } else {
            ns
        },
        ModificationOp::AddProperty => if i < ns.len() && m.new_property is Some {
            ns.update(i, with_props(ns[i], ns[i].properties.push(m.new_property->0)))
        } else {
            ns
        },
        ModificationOp::UpdateProperty => {
            let j = find_prop(ns[i].properties, mod_key(m)) as int;
            if i < ns.len() && j < ns[i].properties.len() && m.new_property is Some {
                ns.update(i, with_props(ns[i], ns[i].properties.update(j, m.new_property->0)))
            } else {
                ns
            }
        },
        ModificationOp::RemoveProperty => if i < ns.len() {
            ns.update(
                i,
                with_props(
                    ns[i],
                    ns[i].properties.filter(|p: PropertyModel| p.key != mod_key(m)),
                ),
            )
        } else {
            ns
        },
    }
}

/// The nodes after applying the modifications `ms` in order.
pub open spec fn applied_all(ns: Seq<NodeModel>, ms: Seq<ModModel>) -> Seq<NodeModel>
    decreases ms.len(),
{
    if ms.len() == 0 {
        ns
    } else {
        applied(applied_all(ns, ms.drop_last()), ms.last())
    }
}

/// The models of a list of modifications.
pub open spec fn mods_view(v: Seq<Modification>) -> Seq<ModModel> {
    v.map_values(|m: Modification| m@)
}

proof fn lemma_find_node(ns: Seq<NodeModel>, ni: usize, i: int)
    requires
        0 <= i <= ns.len(),
        forall|j: int| 0 <= j < i ==> ns[j].index != ni,
        i == ns.len() || ns[i].index == ni,
    ensures
        find_node(ns, ni) == i,
    decreases i,
{
    if i > 0 {
        assert forall|j: int| 0 <= j < i - 1 implies ns.drop_first()[j].index != ni by {
            assert(ns.drop_first()[j] == ns[j + 1]);
        }
        lemma_find_node(ns.drop_first(), ni, i - 1);
    }
}

proof fn lemma_find_prop(ps: Seq<PropertyModel>, key: Option<Seq<char>>, i: int)
    requires
        0 <= i <= ps.len(),
        forall|j: int| 0 <= j < i ==> ps[j].key != key,
        i == ps.len() || ps[i].key == key,
    ensures
        find_prop(ps, key) == i,
    decreases i,
{
    if i > 0 {
        assert forall|j: int| 0 <= j < i - 1 implies ps.drop_first()[j].key != key by {
            assert(ps.drop_first()[j] == ps[j + 1]);
        }
        lemma_find_prop(ps.drop_first(), key, i - 1);
    }
}

/// Position of the first node of `nodes` whose `index` field is `ni`.
fn node_position(nodes: &Vec<ParsedNode>, ni: usize) -> (r: usize)
    ensures
        r == find_node(nodes_view(nodes@), ni),
{
    let mut i: usize = 0;
    while i < nodes.len() && nodes[i].index != ni
        invariant
            i <= nodes@.len(),
            forall|j: int| 0 <= j < i ==> nodes@[j].index != ni,
        decreases nodes@.len() - i,
    {
        i += 1;
    }
    proof {
        lemma_find_node(nodes_view(nodes@), ni, i as int);
    }
    i
}

/// Whether two optional keys hold the same text.
fn same_key(a: &Option<String>, b: &Option<String>) -> (r: bool)
    ensures
        r == (crate::opt_text(*a) == crate::opt_text(*b)),
{
    match (a, b) {
        (Some(x), Some(y)) => *x == *y,
        (None, None) => true,
        _ => false,
    }
}

/// Position of the first property of `props` whose key is `key`.
fn property_position(props: &Vec<ParsedProperty>, key: &Option<String>) -> (r: usize)
    ensures
        r == find_prop(props_view(props@), crate::opt_text(*key)),
{
    let mut i: usize = 0;
    while i < props.len() && !same_key(&props[i].key, key)
        invariant
            i <= props@.len(),
            forall|j: int| 0 <= j < i ==> crate::opt_text(props@[j].key) != crate::opt_text(*key),
        decreases props@.len() - i,
    {
        i += 1;
    }
    proof {
        lemma_find_prop(props_view(props@), crate::opt_text(*key), i as int);
    }
    i
}

/// The key named by a property modification, as a string.
fn key_of(m: &Modification) -> (r: Option<String>)
    ensures
        crate::opt_text(r) == mod_key(m@),
{
    match &m.new_property {
        Some(p) => crate::copy_opt_string(&p.key),
        None => None,
    }
}

/// Copies of the nodes whose `index` field is not `ni`.
fn nodes_without(nodes: &Vec<ParsedNode>, ni: usize) -> (r: Vec<ParsedNode>)
    ensures
        nodes_view(r@) == nodes_view(nodes@).filter(|n: NodeModel| n.index != ni),
{
    let ghost pred = |n: NodeModel| n.index != ni;
    let ghost all = nodes_view(nodes@);
    let mut kept: Vec<ParsedNode> = Vec::new();
    let mut i: usize = 0;
    while i < nodes.len()
        invariant
            i <= nodes@.len(),
            all == nodes_view(nodes@),
            pred == (|n: NodeModel| n.index != ni),
            nodes_view(kept@) == all.take(i as int).filter(pred),
        decreases nodes@.len() - i,
    {
        let ghost before = kept@;
        let ghost next = all.take(i + 1);
        proof {
            reveal(Seq::filter);
        }
        assert(next.drop_last() =~= all.take(i as int));
        assert(next.last() == nodes@[i as int]@);
        assert(pred(next.last()) == (nodes@[i as int].index != ni));
        assert(next.filter(pred) == if pred(next.last()) {
            all.take(i as int).filter(pred).push(next.last())
        } else {
            all.take(i as int).filter(pred)
        });
        if nodes[i].index != ni {
            let n = nodes[i].duplicate();
            kept.push(n);
            assert(nodes_view(kept@) =~= nodes_view(before).push(n@));
        }
        i += 1;
    }
    assert(all.take(i as int) =~= all);
    kept
}

/// Copies of the properties whose key is not `key`.
fn props_without(props: &Vec<ParsedProperty>, key: &Option<String>) -> (r: Vec<ParsedProperty>)
    ensures
        props_view(r@) == props_view(props@).filter(
            |p: PropertyModel| p.key != crate::opt_text(*key),
        ),
{
    let ghost pred = |p: PropertyModel| p.key != crate::opt_text(*key);
    let ghost all = props_view(props@);
    let mut kept: Vec<ParsedProperty> = Vec::new();
    let mut i: usize = 0;
    while i < props.len()
        invariant
            i <= props@.len(),
            all == props_view(props@),
            pred == (|p: PropertyModel| p.key != crate::opt_text(*key)),
            props_view(kept@) == all.take(i as int).filter(pred),
        decreases props@.len() - i,
    {
        let ghost before = kept@;
        let ghost next = all.take(i + 1);
        proof {
            reveal(Seq::filter);
        }
        assert(next.drop_last() =~= all.take(i as int));
        assert(next.last() == props@[i as int]@);
        assert(pred(next.last()) == (crate::opt_text(props@[i as int].key) != crate::opt_text(
            *key,
        )));
        assert(next.filter(pred) == if pred(next.last()) {
            all.take(i as int).filter(pred).push(next.last())
        } else {
            all.take(i as int).filter(pred)
        });
        if !same_key(&props[i].key, key) {
            let p = props[i].duplicate();
            kept.push(p);
            assert(props_view(kept@) =~= props_view(before).push(p@));
        }
        i += 1;
    }
    assert(all.take(i as int) =~= all);
    kept
}

/// Removing the nodes with index `ni` leaves no node with that index, and
/// keeps every other node.
pub proof fn removal_leaves_no_such_node(ns: Seq<NodeModel>, ni: usize, m: ModModel)
    requires
        m.operation == ModificationOp::RemoveNode,
        m.node_index == ni,
    ensures
        forall|k: int| 0 <= k < applied(ns, m).len() ==> (#[trigger] applied(ns, m)[k]).index != ni,
        forall|k: int|
            0 <= k < ns.len() && (#[trigger] ns[k]).index != ni ==> applied(ns, m).contains(ns[k]),
{
    let pred = |n: NodeModel| n.index != ni;
    assert(applied(ns, m) == ns.filter(pred));
    assert forall|k: int| 0 <= k < ns.filter(pred).len() implies (#[trigger] ns.filter(
        pred,
    )[k]).index != ni by {
        ns.lemma_filter_pred(pred, k);
    }
    assert forall|k: int| 0 <= k < ns.len() && (#[trigger] ns[k]).index != ni implies ns.filter(
        pred,
    ).contains(ns[k]) by {
        ns.lemma_filter_contains(pred, k);
    }
}

/// Updating a node replaces the first node whose index is the modification's
/// node index by the modification's new node, whole (name, type, offset, bytes
/// and properties), and leaves every other node as it was.
pub proof fn update_replaces_the_first_such_node(ns: Seq<NodeModel>, m: ModModel, k: int)
    requires
        m.operation == ModificationOp::UpdateNode,
        m.new_node is Some,
        0 <= k < ns.len(),
        ns[k].index == m.node_index,
        forall|j: int| 0 <= j < k ==> ns[j].index != m.node_index,
    ensures
        applied(ns, m).len() == ns.len(),
        applied(ns, m)[k] == m.new_node->0,
        applied(ns, m)[k].properties == (m.new_node->0).properties,
        forall|j: int| 0 <= j < ns.len() && j != k ==> #[trigger] applied(ns, m)[j] == ns[j],
{
    lemma_find_node(ns, m.node_index, k);
}

/// Updating a node that no node's index names leaves the nodes as they were.
pub proof fn update_of_a_missing_node_changes_nothing(ns: Seq<NodeModel>, m: ModModel)
    requires
        m.operation == ModificationOp::UpdateNode,
        forall|j: int| 0 <= j < ns.len() ==> ns[j].index != m.node_index,
    ensures
        applied(ns, m) == ns,
{
    lemma_find_node(ns, m.node_index, ns.len() as int);
}

/// `a` and `b` agree in every field but their properties.
pub open spec fn same_but_properties(a: NodeModel, b: NodeModel) -> bool {
    &&& a.index == b.index
    &&& a.file_offset == b.file_offset
    &&& a.node_type == b.node_type
    &&& a.name == b.name
    &&& a.raw_bytes == b.raw_bytes
}

/// Adding a node appends it after all the others.
pub proof fn adding_a_node_appends_it(ns: Seq<NodeModel>, m: ModModel)
    requires
        m.operation == ModificationOp::AddNode,
        m.new_node is Some,
    ensures
        applied(ns, m).len() == ns.len() + 1,
        applied(ns, m).last() == m.new_node->0,
        applied(ns, m).take(ns.len() as int) == ns,
{
    assert(applied(ns, m).take(ns.len() as int) =~= ns);
}

/// Adding a property appends it to the properties of the first node whose
/// index is the modification's node index; nothing else changes.
pub proof fn adding_a_property_appends_it(ns: Seq<NodeModel>, m: ModModel, k: int)
    requires
        m.operation == ModificationOp::AddProperty,
        m.new_property is Some,
        0 <= k < ns.len(),
        ns[k].index == m.node_index,
        forall|j: int| 0 <= j < k ==> ns[j].index != m.node_index,
    ensures
        applied(ns, m).len() == ns.len(),
        same_but_properties(applied(ns, m)[k], ns[k]),
        applied(ns, m)[k].properties.len() == ns[k].properties.len() + 1,
        applied(ns, m)[k].properties.last() == m.new_property->0,
        applied(ns, m)[k].properties.take(ns[k].properties.len() as int) == ns[k].properties,
        forall|j: int| 0 <= j < ns.len() && j != k ==> #[trigger] applied(ns, m)[j] == ns[j],
{
    lemma_find_node(ns, m.node_index, k);
    assert(applied(ns, m)[k].properties.take(ns[k].properties.len() as int) =~= ns[k].properties);
}

/// Updating a property replaces, in the first node whose index is the
/// modification's node index, the first property with the new property's key
/// by the new property; nothing else changes.
pub proof fn updating_a_property_replaces_it(ns: Seq<NodeModel>, m: ModModel, k: int, q: int)
    requires
        m.operation == ModificationOp::UpdateProperty,
        m.new_property is Some,
        0 <= k < ns.len(),
        ns[k].index == m.node_index,
        forall|j: int| 0 <= j < k ==> ns[j].index != m.node_index,
        0 <= q < ns[k].properties.len(),
        ns[k].properties[q].key == (m.new_property->0).key,
        forall|j: int| 0 <= j < q ==> ns[k].properties[j].key != (m.new_property->0).key,
    ensures
        applied(ns, m).len() == ns.len(),
        same_but_properties(applied(ns, m)[k], ns[k]),
        applied(ns, m)[k].properties.len() == ns[k].properties.len(),
        applied(ns, m)[k].properties[q] == m.new_property->0,
        forall|j: int|
            0 <= j < ns[k].properties.len() && j != q ==> #[trigger] applied(ns, m)[k].properties[j]
                == ns[k].properties[j],
        forall|j: int| 0 <= j < ns.len() && j != k ==> #[trigger] applied(ns, m)[j] == ns[j],
{
    lemma_find_node(ns, m.node_index, k);
    lemma_find_prop(ns[k].properties, (m.new_property->0).key, q);
}

/// Removing a property removes from the first node whose index is the
/// modification's node index every property with the new property's key (or
/// with no key, when the modification carries no property), keeping the others
/// in order; nothing else changes.
pub proof fn removing_a_property_drops_that_key(ns: Seq<NodeModel>, m: ModModel, k: int)
    requires
        m.operation == ModificationOp::RemoveProperty,
        0 <= k < ns.len(),
        ns[k].index == m.node_index,
        forall|j: int| 0 <= j < k ==> ns[j].index != m.node_index,
    ensures
        applied(ns, m).len() == ns.len(),
        same_but_properties(applied(ns, m)[k], ns[k]),
        forall|j: int|
            0 <= j < applied(ns, m)[k].properties.len() ==> (#[trigger] applied(ns, m)[k].properties[j]).key
                != mod_key(m),
        forall|j: int|
            0 <= j < ns[k].properties.len() && (#[trigger] ns[k].properties[j]).key != mod_key(m)
                ==> applied(ns, m)[k].properties.contains(ns[k].properties[j]),
        forall|j: int| 0 <= j < ns.len() && j != k ==> #[trigger] applied(ns, m)[j] == ns[j],
{
    lemma_find_node(ns, m.node_index, k);
    let ps = ns[k].properties;
    let pred = |p: PropertyModel| p.key != mod_key(m);
    assert(applied(ns, m)[k].properties == ps.filter(pred));
    assert forall|j: int| 0 <= j < ps.filter(pred).len() implies (#[trigger] ps.filter(pred)[j]).key
        != mod_key(m) by {
        ps.lemma_filter_pred(pred, j);
    }
    assert forall|j: int| 0 <= j < ps.len() && (#[trigger] ps[j]).key != mod_key(m) implies ps.filter(
        pred,
    ).contains(ps[j]) by {
        ps.lemma_filter_contains(pred, j);
    }
}

/// The compiler of modified files.
pub struct Compiler;

impl Compiler {
    pub fn new() -> (r: Self) {
        Compiler
    }

    /// Applies one modification to the nodes of `file`; nothing else of the
    /// file changes, and it never fails.
    pub fn apply_modification(&self, file: &mut ParsedFile, modification: &Modification) -> (r:
        Result<(), AthanorError>)
        ensures
            r is Ok,
            nodes_view(final(file).nodes@) == applied(nodes_view(old(file).nodes@), modification@),
            final(file).metadata == old(file).metadata,
            final(file).strings == old(file).strings,
            final(file).raw_data == old(file).raw_data,
    {
        let ghost ns = nodes_view(file.nodes@);
        let ghost m = modification@;
        let ni = modification.node_index;
        match modification.operation {
            ModificationOp::AddNode => {
                if let Some(node) = &modification.new_node {
                    let n = node.duplicate();
                    file.nodes.push(n);
                    assert(nodes_view(file.nodes@) =~= ns.push(n@));
                }
            },
            ModificationOp::RemoveNode => {
                let kept = nodes_without(&file.nodes, ni);
                file.nodes = kept;
            },
            ModificationOp::UpdateNode => {
                let i = node_position(&file.nodes, ni);
                if i < file.nodes.len() {
                    if let Some(node) = &modification.new_node {
                        let n = node.duplicate();
                        file.nodes.remove(i);
                        file.nodes.insert(i, n);
                        assert(nodes_view(file.nodes@) =~= ns.update(i as int, n@));
                    }
                }
            },
            ModificationOp::AddProperty => {
                let i = node_position(&file.nodes, ni);
                if i < file.nodes.len() {
                    if let Some(prop) = &modification.new_property {
                        let p = prop.duplicate();
                        let mut node = file.nodes.remove(i);
                        let ghost old_node = node@;
                        node.properties.push(p);
                        assert(props_view(node.properties@) =~= old_node.properties.push(p@));
                        assert(node@ =~= with_props(old_node, old_node.properties.push(p@)));
                        file.nodes.insert(i, node);
                        assert(nodes_view(file.nodes@) =~= ns.update(
                            i as int,
                            with_props(ns[i as int], ns[i as int].properties.push(p@)),
                        ));
                    }
                }
            },
            ModificationOp::UpdateProperty => {
                let i = node_position(&file.nodes, ni);
                if i < file.nodes.len() {
                    let key = key_of(modification);
                    let j = property_position(&file.nodes[i].properties, &key);
                    if j < file.nodes[i].properties.len() {
                        if let Some(prop) = &modification.new_property {
                            let p = prop.duplicate();
                            let mut node = file.nodes.remove(i);
                            let ghost old_node = node@;
                            node.properties.remove(j);
                            node.properties.insert(j, p);
                            assert(props_view(node.properties@) =~= old_node.properties.update(
                                j as int,
                                p@,
                            ));
                            assert(node@ =~= with_props(
                                old_node,
                                old_node.properties.update(j as int, p@),
                            ));
                            file.nodes.insert(i, node);
                            assert(nodes_view(file.nodes@) =~= ns.update(
                                i as int,
                                with_props(
                                    ns[i as int],
                                    ns[i as int].properties.update(j as int, p@),
                                ),
                            ));
                        }
                    }
                }
            },
            ModificationOp::RemoveProperty => {
                let i = node_position(&file.nodes, ni);
                if i < file.nodes.len() {
                    let key = key_of(modification);
                    let mut node = file.nodes.remove(i);
                    let ghost old_node = node@;
                    let kept = props_without(&node.properties, &key);
                    node.properties = kept;
                    assert(node@ =~= with_props(
                        old_node,
                        old_node.properties.filter(|p: PropertyModel| p.key != mod_key(m)),
                    ));
                    file.nodes.insert(i, node);
                    assert(nodes_view(file.nodes@) =~= ns.update(
                        i as int,
                        with_props(
                            ns[i as int],
                            ns[i as int].properties.filter(|p: PropertyModel| p.key != mod_key(m)),
                        ),
                    ));
                }
            },
        }
        Ok(())
    }

    /// Records the node and string counts in the metadata of `file`.
    pub fn recalculate_headers(&self, file: &mut ParsedFile)
        ensures
            final(file).metadata.string_count == Some(old(file).strings@.len() as u32),
            final(file).metadata.node_count == Some(old(file).nodes@.len() as usize),
            final(file).metadata.path == old(file).metadata.path,
            final(file).metadata.format == old(file).metadata.format,
            final(file).metadata.size == old(file).metadata.size,
            final(file).metadata.magic == old(file).metadata.magic,
            final(file).metadata.version == old(file).metadata.version,
            final(file).nodes == old(file).nodes,
            final(file).strings == old(file).strings,
            final(file).raw_data == old(file).raw_data,
    {
        let n = file.strings.len();
        file.metadata.string_count = Some(#[verifier::truncate] (n as u32));
        file.metadata.node_count = Some(file.nodes.len());
    }

    /// The bytes of `file`: its raw data.
    pub fn serialize(&self, file: &ParsedFile) -> (r: Result<Vec<u8>, AthanorError>)
        ensures
            r matches Ok(b) && b@ == file.raw_data@,
    {
        Ok(copy_range(file.raw_data.as_slice(), 0, file.raw_data.len()))
    }

    /// The part of compilation that does not touch the disk: applies the
    /// modifications, if any, in order, recounts the headers and returns the
    /// bytes to write.
    pub fn compile_parsed(
        &self,
        file: &mut ParsedFile,
        modifications: &Option<Vec<Modification>>,
    ) -> (r: Result<Vec<u8>, AthanorError>)
        ensures
            r matches Ok(b) && b@ == old(file).raw_data@,
            nodes_view(final(file).nodes@) == match modifications {
                Some(ms) => applied_all(nodes_view(old(file).nodes@), mods_view(ms@)),
                None => nodes_view(old(file).nodes@),
            },
            final(file).metadata.node_count == Some(final(file).nodes@.len() as usize),
            final(file).metadata.string_count == Some(old(file).strings@.len() as u32),
            final(file).strings == old(file).strings,
            final(file).raw_data == old(file).raw_data,
    {
        if let Some(ms) = modifications {
            let ghost start = nodes_view(file.nodes@);
            let mut k: usize = 0;
            while k < ms.len()
                invariant
                    k <= ms@.len(),
                    nodes_view(file.nodes@) == applied_all(start, mods_view(ms@).take(k as int)),
                    file.strings == old(file).strings,
                    file.raw_data == old(file).raw_data,
                    start == nodes_view(old(file).nodes@),
                decreases ms@.len() - k,
            {
                let _ = self.apply_modification(file, &ms[k]);
                assert(mods_view(ms@).take(k + 1).drop_last() =~= mods_view(ms@).take(k as int));
                k += 1;
            }
            assert(mods_view(ms@).take(k as int) =~= mods_view(ms@));
        }
        self.recalculate_headers(file);
        self.serialize(file)
    }
}

} // verus!

//! The addressed structural graph: a description, its core elements, and the
//! extension parameters attached to them.
use vstd::prelude::*;

use crate::address::Address;
use crate::map::{MapKey, OrderedMap};
use crate::namespace::Namespace;
use crate::projection::{copy_layers, Layer};
use crate::same::{
    block_same, connection_same, core_same, description_same, extension_value_same, group_same, label_same,
    parameter_same, parameters_same, port_same,
};
use crate::value::Value;
use crate::version::Version;

verus! {

/// A whole description: its address, core graph, description-level
/// extensions and layers.
#[derive(Debug, PartialEq)]
pub struct Description {
    pub address: Address,
    pub label: Option<String>,
    pub core_spec: Version,
    pub core: CoreGraph,
    pub extensions: Vec<ExtensionParameter>,
    pub layers: Vec<Layer>,
}

/// The core graph, each element kind keyed by address.
#[derive(Debug, PartialEq)]
pub struct CoreGraph {
    pub blocks: OrderedMap<Address, Block>,
    pub connections: OrderedMap<Address, Connection>,
    pub groups: OrderedMap<Address, Group>,
}

#[derive(Debug, PartialEq)]
pub struct Block {
    pub address: Address,
    pub name: String,
    pub ports: OrderedMap<Address, Port>,
    pub extensions: Vec<ExtensionParameter>,
}

#[derive(Debug, PartialEq)]
pub struct Port {
    pub address: Address,
    pub label: Option<String>,
    pub extensions: Vec<ExtensionParameter>,
}

#[derive(Debug, PartialEq)]
pub struct Connection {
    pub address: Address,
    pub label: Option<String>,
    pub source: Address,
    pub destination: Address,
    pub extensions: Vec<ExtensionParameter>,
}

#[derive(Debug, PartialEq)]
pub struct Group {
    pub address: Address,
    pub label: Option<String>,
    pub members: Vec<Address>,
    pub extensions: Vec<ExtensionParameter>,
}

/// A named, schema-typed parameter in an extension namespace.
#[derive(Debug, PartialEq)]
pub struct ExtensionParameter {
    pub namespace: Namespace,
    pub name: String,
    pub schema: String,
    pub version: Version,
    pub value: ExtensionValue,
}

/// A value of a recognized namespace, or the source bytes of one that is not.
#[derive(Debug, PartialEq)]
pub enum ExtensionValue {
    Known(Value),
    Opaque(Vec<u8>),
}

impl Clone for ExtensionValue {
    /// A copy with the same value or the same bytes.
    fn clone(&self) -> (r: Self)
        ensures
            extension_value_same(r, *self),
    {
        match self {
            ExtensionValue::Known(v) => ExtensionValue::Known(v.clone()),
            ExtensionValue::Opaque(bytes) => {
                let copy = bytes.clone();
                proof {
                    assert(copy@ =~= bytes@);
                }
                ExtensionValue::Opaque(copy)
            },
        }
    }
}

impl Clone for ExtensionParameter {
    /// A copy with the same namespace, name, schema, version and value.
    fn clone(&self) -> (r: Self)
        ensures
            r.namespace == self.namespace,
            r.name == self.name,
            r.schema == self.schema,
            r.version == self.version,
            parameter_same(r, *self),
    {
        ExtensionParameter {
            namespace: self.namespace.clone(),
            name: self.name.clone(),
            schema: self.schema.clone(),
            version: self.version,
            value: self.value.clone(),
        }
    }
}

/// A copy of a list of parameters.
pub fn copy_parameters(v: &Vec<ExtensionParameter>) -> (r: Vec<ExtensionParameter>)
    ensures
        parameters_same(r@, v@),
{
    let mut out: Vec<ExtensionParameter> = Vec::new();
    let mut i: usize = 0;
    while i < v.len()
        invariant
            i <= v@.len(),
            out@.len() == i,
            forall|j: int| 0 <= j < i ==> parameter_same(#[trigger] out@[j], v@[j]),
        decreases v@.len() - i,
    {
        out.push(v[i].clone());
        i = i + 1;
    }
    out
}

pub fn copy_label(label: &Option<String>) -> (r: Option<String>)
    ensures
        label_same(r, *label),
{
    match label {
        Some(l) => Some(l.clone()),
        None => None,
    }
}

impl Clone for Port {
    fn clone(&self) -> (r: Self)
        ensures
            port_same(r, *self),
    {
        Port {
            address: self.address.clone(),
            label: copy_label(&self.label),
            extensions: copy_parameters(&self.extensions),
        }
    }
}

impl Clone for Connection {
    fn clone(&self) -> (r: Self)
        ensures
            connection_same(r, *self),
    {
        Connection {
            address: self.address.clone(),
            label: copy_label(&self.label),
            source: self.source.clone(),
            destination: self.destination.clone(),
            extensions: copy_parameters(&self.extensions),
        }
    }
}

/// A copy of a list of addresses.
pub fn copy_addresses(v: &Vec<Address>) -> (r: Vec<Address>)
    ensures
        r@ == v@,
{
    let mut out: Vec<Address> = Vec::new();
    let mut i: usize = 0;
    while i < v.len()
        invariant
            i <= v@.len(),
            out@ == v@.take(i as int),
        decreases v@.len() - i,
    {
        out.push(v[i].clone());
        proof {
            assert(v@.take(i + 1) =~= v@.take(i as int).push(v@[i as int]));
        }
        i = i + 1;
    }
    proof {
        assert(v@.take(i as int) =~= v@);
    }
    out
}

impl Clone for Group {
    fn clone(&self) -> (r: Self)
        ensures
            group_same(r, *self),
    {
        Group {
            address: self.address.clone(),
            label: copy_label(&self.label),
            members: copy_addresses(&self.members),
            extensions: copy_parameters(&self.extensions),
        }
    }
}

impl Clone for Block {
    fn clone(&self) -> (r: Self)
        ensures
            block_same(r, *self),
    {
        Block {
            address: self.address.clone(),
            name: self.name.clone(),
            ports: copy_ports(&self.ports),
            extensions: copy_parameters(&self.extensions),
        }
    }
}

impl Clone for CoreGraph {
    fn clone(&self) -> (r: Self)
        ensures
            core_same(r, *self),
    {
        CoreGraph {
            blocks: copy_blocks(&self.blocks),
            connections: copy_connections(&self.connections),
            groups: copy_groups(&self.groups),
        }
    }
}

impl Clone for Description {
    fn clone(&self) -> (r: Self)
        ensures
            description_same(r, *self),
    {
        Description {
            address: self.address.clone(),
            label: copy_label(&self.label),
            core_spec: self.core_spec,
            core: self.core.clone(),
            extensions: copy_parameters(&self.extensions),
            layers: copy_layers(&self.layers),
        }
    }
}

fn copy_ports(m: &OrderedMap<Address, Port>) -> (r: OrderedMap<Address, Port>)
    ensures
        r.keys() == m.keys(),
        forall|i: int| 0 <= i < r.values().len() ==> port_same(#[trigger] r.values()[i], m.values()[i]),
{
    let mut entries: Vec<(Address, Port)> = Vec::new();
    let mut i: usize = 0;
    while i < m.len()
        invariant
            i <= m.entries().len(),
            i > 0 ==> m.wf(),
            entries@.len() == i,
            entries@.map_values(|e: (Address, Port)| e.0.key()) == m.keys().take(i as int),
            forall|j: int| 0 <= j < i ==> port_same(#[trigger] entries@[j].1, m.entries()[j].1),
        decreases m.entries().len() - i,
    {
        let k = m.key_at(i).clone();
        let v = m.value_at(i).clone();
        let ghost before = entries@;
        entries.push((k, v));
        proof {
            assert(entries@.map_values(|e: (Address, Port)| e.0.key()) =~= before.map_values(
                |e: (Address, Port)| e.0.key(),
            ).push(k.key()));
            assert(m.keys().take(i + 1) =~= m.keys().take(i as int).push(m.keys()[i as int]));
        }
        i = i + 1;
    }
    proof {
        assert(m.keys().take(i as int) =~= m.keys());
    }
    let r = OrderedMap::from_sorted_entries(entries);
    proof {
        assert(r.keys() =~= m.keys());
    }
    r
}

fn copy_blocks(m: &OrderedMap<Address, Block>) -> (r: OrderedMap<Address, Block>)
    ensures
        r.keys() == m.keys(),
        forall|i: int| 0 <= i < r.values().len() ==> block_same(#[trigger] r.values()[i], m.values()[i]),
{
    let mut entries: Vec<(Address, Block)> = Vec::new();
    let mut i: usize = 0;
    while i < m.len()
        invariant
            i <= m.entries().len(),
            i > 0 ==> m.wf(),
            entries@.len() == i,
            entries@.map_values(|e: (Address, Block)| e.0.key()) == m.keys().take(i as int),
            forall|j: int| 0 <= j < i ==> block_same(#[trigger] entries@[j].1, m.entries()[j].1),
        decreases m.entries().len() - i,
    {
        let k = m.key_at(i).clone();
        let v = m.value_at(i).clone();
        let ghost before = entries@;
        entries.push((k, v));
        proof {
            assert(entries@.map_values(|e: (Address, Block)| e.0.key()) =~= before.map_values(
                |e: (Address, Block)| e.0.key(),
            ).push(k.key()));
            assert(m.keys().take(i + 1) =~= m.keys().take(i as int).push(m.keys()[i as int]));
        }
        i = i + 1;
    }
    proof {
        assert(m.keys().take(i as int) =~= m.keys());
    }
    let r = OrderedMap::from_sorted_entries(entries);
    proof {
        assert(r.keys() =~= m.keys());
    }
    r
}

fn copy_connections(m: &OrderedMap<Address, Connection>) -> (r: OrderedMap<Address, Connection>)
    ensures
        r.keys() == m.keys(),
        forall|i: int| 0 <= i < r.values().len() ==> connection_same(#[trigger] r.values()[i], m.values()[i]),
{
    let mut entries: Vec<(Address, Connection)> = Vec::new();
    let mut i: usize = 0;
    while i < m.len()
        invariant
            i <= m.entries().len(),
            i > 0 ==> m.wf(),
            entries@.len() == i,
            entries@.map_values(|e: (Address, Connection)| e.0.key()) == m.keys().take(i as int),
            forall|j: int| 0 <= j < i ==> connection_same(#[trigger] entries@[j].1, m.entries()[j].1),
        decreases m.entries().len() - i,
    {
        let k = m.key_at(i).clone();
        let v = m.value_at(i).clone();
        let ghost before = entries@;
        entries.push((k, v));
        proof {
            assert(entries@.map_values(|e: (Address, Connection)| e.0.key()) =~= before.map_values(
                |e: (Address, Connection)| e.0.key(),
            ).push(k.key()));
            assert(m.keys().take(i + 1) =~= m.keys().take(i as int).push(m.keys()[i as int]));
        }
        i = i + 1;
    }
    proof {
        assert(m.keys().take(i as int) =~= m.keys());
    }
    let r = OrderedMap::from_sorted_entries(entries);
    proof {
        assert(r.keys() =~= m.keys());
    }
    r
}

fn copy_groups(m: &OrderedMap<Address, Group>) -> (r: OrderedMap<Address, Group>)
    ensures
        r.keys() == m.keys(),
        forall|i: int| 0 <= i < r.values().len() ==> group_same(#[trigger] r.values()[i], m.values()[i]),
{
    let mut entries: Vec<(Address, Group)> = Vec::new();
    let mut i: usize = 0;
    while i < m.len()
        invariant
            i <= m.entries().len(),
            i > 0 ==> m.wf(),
            entries@.len() == i,
            entries@.map_values(|e: (Address, Group)| e.0.key()) == m.keys().take(i as int),
            forall|j: int| 0 <= j < i ==> group_same(#[trigger] entries@[j].1, m.entries()[j].1),
        decreases m.entries().len() - i,
    {
        let k = m.key_at(i).clone();
        let v = m.value_at(i).clone();
        let ghost before = entries@;
        entries.push((k, v));
        proof {
            assert(entries@.map_values(|e: (Address, Group)| e.0.key()) =~= before.map_values(
                |e: (Address, Group)| e.0.key(),
            ).push(k.key()));
            assert(m.keys().take(i + 1) =~= m.keys().take(i as int).push(m.keys()[i as int]));
        }
        i = i + 1;
    }
    proof {
        assert(m.keys().take(i as int) =~= m.keys());
    }
    let r = OrderedMap::from_sorted_entries(entries);
    proof {
        assert(r.keys() =~= m.keys());
    }
    r
}


/// The addresses of the ports of each block, block after block.
pub open spec fn port_addresses(blocks: Seq<Block>) -> Seq<Seq<char>>
    decreases blocks.len(),
{
    if blocks.len() == 0 {
        Seq::empty()
    } else {
        port_addresses(blocks.drop_last()) + blocks.last().ports.keys()
    }
}

/// Every address a core graph defines: blocks, connections, groups, then
/// the ports of each block.
pub open spec fn core_addresses(core: CoreGraph) -> Seq<Seq<char>> {
    core.blocks.keys() + core.connections.keys() + core.groups.keys() + port_addresses(
        core.blocks.values(),
    )
}

impl CoreGraph {
    /// An empty core graph.
    pub fn new() -> (c: CoreGraph)
        ensures
            c.blocks.entries().len() == 0,
            c.connections.entries().len() == 0,
            c.groups.entries().len() == 0,
    {
        CoreGraph { blocks: OrderedMap::new(), connections: OrderedMap::new(), groups: OrderedMap::new() }
    }

    /// The addresses of every element, in the order of `core_addresses`.
    pub fn addresses(&self) -> (v: Vec<&Address>)
        ensures
            v@.map_values(|a: &Address| a@) == core_addresses(*self),
    {
        let mut v: Vec<&Address> = Vec::new();
        push_keys(&mut v, &self.blocks);
        push_keys(&mut v, &self.connections);
        push_keys(&mut v, &self.groups);
        push_port_keys(&mut v, &self.blocks);
        proof {
            assert(v@.map_values(|a: &Address| a@) =~= core_addresses(*self));
        }
        v
    }
}

fn push_keys<'a, V>(v: &mut Vec<&'a Address>, map: &'a OrderedMap<Address, V>)
    ensures
        final(v)@.map_values(|a: &Address| a@) == old(v)@.map_values(|a: &Address| a@) + map.keys(),
{
    let ghost start = v@.map_values(|a: &Address| a@);
    let mut i: usize = 0;
    while i < map.len()
        invariant
            i <= map.entries().len(),
            v@.map_values(|a: &Address| a@) == start + map.keys().take(i as int),
        decreases map.entries().len() - i,
    {
        let k = map.key_at(i);
        let ghost before = v@;
        v.push(k);
        proof {
            assert(map.keys()[i as int] == k@);
            assert(v@.map_values(|a: &Address| a@) =~= before.map_values(|a: &Address| a@).push(k@));
            assert(map.keys().take(i + 1) =~= map.keys().take(i as int).push(k@));
            assert(v@.map_values(|a: &Address| a@) =~= start + map.keys().take(i + 1));
        }
        i = i + 1;
    }
    proof {
        assert(map.keys().take(i as int) =~= map.keys());
    }
}

fn push_port_keys<'a>(v: &mut Vec<&'a Address>, blocks: &'a OrderedMap<Address, Block>)
    ensures
        final(v)@.map_values(|a: &Address| a@) == old(v)@.map_values(|a: &Address| a@) + port_addresses(
            blocks.values(),
        ),
{
    let ghost start = v@.map_values(|a: &Address| a@);
    let mut i: usize = 0;
    while i < blocks.len()
        invariant
            i <= blocks.entries().len(),
            v@.map_values(|a: &Address| a@) == start + port_addresses(blocks.values().take(i as int)),
        decreases blocks.entries().len() - i,
    {
        let block = blocks.value_at(i);
        push_keys(v, &block.ports);
        proof {
            let t = blocks.values().take(i + 1);
            assert(t.drop_last() =~= blocks.values().take(i as int));
            assert(t.last() == *block);
            assert(v@.map_values(|a: &Address| a@) =~= start + port_addresses(t));
        }
        i = i + 1;
    }
    proof {
        assert(blocks.values().take(i as int) =~= blocks.values());
    }
}

impl Description {
    /// A description with an empty core graph, no extensions and no layers.
    pub fn new(address: Address, label: Option<String>, core_spec: Version) -> (d: Description)
        ensures
            d.address == address,
            d.label == label,
            d.core_spec == core_spec,
            d.core.blocks.entries().len() == 0,
            d.core.connections.entries().len() == 0,
            d.core.groups.entries().len() == 0,
            d.extensions@.len() == 0,
            d.layers@.len() == 0,
    {
        Description { address, label, core_spec, core: CoreGraph::new(), extensions: Vec::new(), layers: Vec::new() }
    }

    /// The description's own address, then every core address.
    pub fn addresses(&self) -> (v: Vec<&Address>)
        ensures
            v@.map_values(|a: &Address| a@) == seq![self.address@] + core_addresses(self.core),
    {
        let mut v: Vec<&Address> = Vec::new();
        v.push(&self.address);
        push_keys(&mut v, &self.core.blocks);
        push_keys(&mut v, &self.core.connections);
        push_keys(&mut v, &self.core.groups);
        push_port_keys(&mut v, &self.core.blocks);
        proof {
            assert(v@.map_values(|a: &Address| a@) =~= seq![self.address@] + core_addresses(self.core));
        }
        v
    }
}

} // verus!

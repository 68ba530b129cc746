//! Layers: named views over the core graph, each a projection from its
//! declared inputs.
use vstd::prelude::*;

use crate::address::Address;
use crate::model::{copy_addresses, Block, Connection, ExtensionParameter, Group};
use crate::same::{decoration_same, layer_same, layers_same, projection_same, select_same};
use crate::namespace::Namespace;
use crate::version::Version;

verus! {

/// A named layer: its inputs, the projection language and schemas it
/// consumes, and its projection.
#[derive(Debug, PartialEq)]
pub struct Layer {
    pub name: String,
    pub inputs: Vec<LayerInput>,
    pub projection_language: Version,
    pub schemas: Vec<SchemaUse>,
    pub projection: Projection,
}

/// A standalone layer document: the description it is for, and the layer.
#[derive(Clone, Debug, PartialEq)]
pub struct LayerFile {
    pub description: Address,
    pub layer: Layer,
}

/// What a layer reads: the core graph or another layer by name.
#[derive(Debug, PartialEq)]
pub enum LayerInput {
    Core,
    Layer(String),
}

/// A schema a layer consumes.
#[derive(Debug, PartialEq)]
pub struct SchemaUse {
    pub namespace: Namespace,
    pub name: String,
    pub version: Version,
}

/// The four projection stages, in order.
#[derive(Debug, PartialEq)]
pub struct Projection {
    pub select: Vec<SelectItem>,
    pub invert: Vec<Address>,
    pub decorate: Vec<Decoration>,
    pub checks: Vec<Check>,
}

/// One selection: reuse visible elements, or define new ones.
#[derive(Debug, PartialEq)]
pub enum SelectItem {
    Use(Vec<Address>),
    GenerateBlock(Block),
    GenerateConnection(Connection),
    GenerateGroup(Group),
}

/// An extension parameter attached to a selected element.
#[derive(Debug, PartialEq)]
pub struct Decoration {
    pub target: Address,
    pub parameter: ExtensionParameter,
}

impl Clone for Decoration {
    /// A copy with the same target and the same parameter.
    fn clone(&self) -> (r: Self)
        ensures
            r.target == self.target,
            r.parameter.namespace == self.parameter.namespace,
            r.parameter.name == self.parameter.name,
            r.parameter.schema == self.parameter.schema,
            r.parameter.version == self.parameter.version,
            decoration_same(r, *self),
    {
        Decoration { target: self.target.clone(), parameter: self.parameter.clone() }
    }
}

impl Clone for LayerInput {
    fn clone(&self) -> (r: Self)
        ensures
            r == *self,
    {
        match self {
            LayerInput::Core => LayerInput::Core,
            LayerInput::Layer(name) => LayerInput::Layer(name.clone()),
        }
    }
}

impl Clone for SchemaUse {
    fn clone(&self) -> (r: Self)
        ensures
            r == *self,
    {
        SchemaUse { namespace: self.namespace.clone(), name: self.name.clone(), version: self.version }
    }
}

impl Clone for Check {
    fn clone(&self) -> (r: Self)
        ensures
            r == *self,
    {
        Check {
            name: self.name.clone(),
            expected: self.expected,
            namespace: self.namespace.clone(),
            parameter: self.parameter.clone(),
        }
    }
}

impl Clone for SelectItem {
    fn clone(&self) -> (r: Self)
        ensures
            select_same(r, *self),
    {
        match self {
            SelectItem::Use(addresses) => SelectItem::Use(copy_addresses(addresses)),
            SelectItem::GenerateBlock(b) => SelectItem::GenerateBlock(b.clone()),
            SelectItem::GenerateConnection(c) => SelectItem::GenerateConnection(c.clone()),
            SelectItem::GenerateGroup(g) => SelectItem::GenerateGroup(g.clone()),
        }
    }
}

fn copy_inputs(v: &Vec<LayerInput>) -> (r: Vec<LayerInput>)
    ensures
        r@ == v@,
{
    let mut out: Vec<LayerInput> = Vec::new();
    let mut i: usize = 0;
    while i < v.len()
        invariant
            i <= v@.len(),
            out@ == v@.take(i as int),
        decreases v@.len() - i,
    {
        out.push(v[i].clone());
        proof {
            assert(v@.take(i + 1) =~= v@.take(i as int).push(v@[i as int]));
        }
        i = i + 1;
    }
    proof {
        assert(v@.take(i as int) =~= v@);
    }
    out
}

fn copy_uses(v: &Vec<SchemaUse>) -> (r: Vec<SchemaUse>)
    ensures
        r@ == v@,
{
    let mut out: Vec<SchemaUse> = Vec::new();
    let mut i: usize = 0;
    while i < v.len()
        invariant
            i <= v@.len(),
            out@ == v@.take(i as int),
        decreases v@.len() - i,
    {
        out.push(v[i].clone());
        proof {
            assert(v@.take(i + 1) =~= v@.take(i as int).push(v@[i as int]));
        }
        i = i + 1;
    }
    proof {
        assert(v@.take(i as int) =~= v@);
    }
    out
}

fn copy_checks(v: &Vec<Check>) -> (r: Vec<Check>)
    ensures
        r@ == v@,
{
    let mut out: Vec<Check> = Vec::new();
    let mut i: usize = 0;
    while i < v.len()
        invariant
            i <= v@.len(),
            out@ == v@.take(i as int),
        decreases v@.len() - i,
    {
        out.push(v[i].clone());
        proof {
            assert(v@.take(i + 1) =~= v@.take(i as int).push(v@[i as int]));
        }
        i = i + 1;
    }
    proof {
        assert(v@.take(i as int) =~= v@);
    }
    out
}

impl Clone for Projection {
    fn clone(&self) -> (r: Self)
        ensures
            projection_same(r, *self),
    {
        let mut select: Vec<SelectItem> = Vec::new();
        let mut i: usize = 0;
        while i < self.select.len()
            invariant
                i <= self.select@.len(),
                select@.len() == i,
                forall|j: int| 0 <= j < i ==> select_same(#[trigger] select@[j], self.select@[j]),
            decreases self.select@.len() - i,
        {
            select.push(self.select[i].clone());
            i = i + 1;
        }
        let mut decorate: Vec<Decoration> = Vec::new();
        let mut k: usize = 0;
        while k < self.decorate.len()
            invariant
                k <= self.decorate@.len(),
                decorate@.len() == k,
                forall|j: int| 0 <= j < k ==> decoration_same(#[trigger] decorate@[j], self.decorate@[j]),
            decreases self.decorate@.len() - k,
        {
            decorate.push(self.decorate[k].clone());
            k = k + 1;
        }
        Projection { select, invert: copy_addresses(&self.invert), decorate, checks: copy_checks(&self.checks) }
    }
}

impl Clone for Layer {
    fn clone(&self) -> (r: Self)
        ensures
            layer_same(r, *self),
    {
        Layer {
            name: self.name.clone(),
            inputs: copy_inputs(&self.inputs),
            projection_language: self.projection_language,
            schemas: copy_uses(&self.schemas),
            projection: self.projection.clone(),
        }
    }
}

/// A copy of a list of layers.
pub fn copy_layers(v: &Vec<Layer>) -> (r: Vec<Layer>)
    ensures
        layers_same(r@, v@),
{
    let mut out: Vec<Layer> = Vec::new();
    let mut i: usize = 0;
    while i < v.len()
        invariant
            i <= v@.len(),
            out@.len() == i,
            forall|j: int| 0 <= j < i ==> layer_same(#[trigger] out@[j], v@[j]),
        decreases v@.len() - i,
    {
        out.push(v[i].clone());
        i = i + 1;
    }
    out
}

/// A named check on how many elements carry a parameter.
#[derive(Debug, PartialEq)]
pub struct Check {
    pub name: String,
    pub expected: ExpectedCardinality,
    pub namespace: Namespace,
    pub parameter: String,
}

#[derive(Clone, Copy, Debug, Eq, Hash, Ord, PartialEq, PartialOrd, Structural)]
pub enum ExpectedCardinality {
    Empty,
    Nonempty,
}

impl Default for Projection {
    fn default() -> (p: Projection)
        ensures
            p.select@.len() == 0,
            p.invert@.len() == 0,
            p.decorate@.len() == 0,
            p.checks@.len() == 0,
    {
        Projection { select: Vec::new(), invert: Vec::new(), decorate: Vec::new(), checks: Vec::new() }
    }
}

} // verus!

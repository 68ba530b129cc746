//! Structural equality of values and graph elements: the same fields, with
//! numbers compared as doubles.
use vstd::prelude::*;

use crate::model::{Block, Connection, CoreGraph, Description, ExtensionParameter, ExtensionValue, Group, Port};
use crate::projection::{Decoration, Layer, Projection, SelectItem};
use crate::text::str_eq;
use crate::value::{same_number_bits, Value};

verus! {

pub open spec fn value_same(a: Value, b: Value) -> bool
    decreases a, 1int,
{
    match a {
        Value::Bool(x) => b matches Value::Bool(y) && x == y,
        Value::PositiveInteger(x) => b matches Value::PositiveInteger(y) && x == y,
        Value::Number(x) => b matches Value::Number(y) && same_number_bits(x.spec_bits(), y.spec_bits()),
        Value::Text(x) => b matches Value::Text(y) && x@ == y@,
        Value::Enum(x) => b matches Value::Enum(y) && x@ == y@,
        Value::Product(x) => b matches Value::Product(y) && fields_same(x@, y@),
        Value::Sequence(x) => b matches Value::Sequence(y) && items_same(x@, y@),
        Value::AddressReference(x) => b matches Value::AddressReference(y) && x@ == y@,
        Value::Absent => b is Absent,
        Value::Present(x) => b matches Value::Present(y) && value_same(*x, *y),
        Value::Tagged { tag, value } => b matches Value::Tagged { tag: t2, value: v2 } && tag@ == t2@ && value_same(
            *value,
            *v2,
        ),
    }
}

pub open spec fn fields_same(a: Seq<(String, Value)>, b: Seq<(String, Value)>) -> bool
    decreases a, 0int,
{
    a.len() == b.len() && (a.len() > 0 ==> fields_same(a.drop_last(), b.drop_last()) && a.last().0@ == b.last().0@
        && value_same(a.last().1, b.last().1))
}

pub open spec fn items_same(a: Seq<Value>, b: Seq<Value>) -> bool
    decreases a, 0int,
{
    a.len() == b.len() && (a.len() > 0 ==> items_same(a.drop_last(), b.drop_last()) && value_same(a.last(), b.last()))
}

/// Whether two values are equal, field by field.
pub fn same_value(a: &Value, b: &Value) -> (r: bool)
    ensures
        r == value_same(*a, *b),
    decreases a,
{
    match (a, b) {
        (Value::Bool(x), Value::Bool(y)) => *x == *y,
        (Value::PositiveInteger(x), Value::PositiveInteger(y)) => *x == *y,
        (Value::Number(x), Value::Number(y)) => *x == *y,
        (Value::Text(x), Value::Text(y)) => str_eq(x.as_str(), y.as_str()),
        (Value::Enum(x), Value::Enum(y)) => str_eq(x.as_str(), y.as_str()),
        (Value::AddressReference(x), Value::AddressReference(y)) => x.same(y),
        (Value::Absent, Value::Absent) => true,
        (Value::Present(x), Value::Present(y)) => same_value(x, y),
        (Value::Tagged { tag: t1, value: v1 }, Value::Tagged { tag: t2, value: v2 }) => str_eq(t1.as_str(), t2.as_str())
            && same_value(v1, v2),
        (Value::Product(x), Value::Product(y)) => {
            if x.len() != y.len() {
                proof {
                    assert(!fields_same(x@, y@));
                    assert(value_same(*a, *b) == fields_same(x@, y@));
                }
                return false;
            }
            let mut i: usize = 0;
            while i < x.len()
                invariant
                    *a == Value::Product(*x),
                    *b == Value::Product(*y),
                    x@.len() == y@.len(),
                    i <= x@.len(),
                    fields_same(x@.take(i as int), y@.take(i as int)),
                decreases x@.len() - i,
            {
                proof {
                    let e = x@[i as int];
                    assert(decreases_to!(*a => (*a)->Product_0));
                    assert(decreases_to!(*x => e));
                    assert(decreases_to!(e => e.1));
                    assert(x@.take(i + 1).drop_last() =~= x@.take(i as int));
                    assert(y@.take(i + 1).drop_last() =~= y@.take(i as int));
                }
                if !str_eq(x[i].0.as_str(), y[i].0.as_str()) || !same_value(&x[i].1, &y[i].1) {
                    proof {
                        assert(value_same(*a, *b) == fields_same(x@, y@));
                        if fields_same(x@, y@) {
                            lemma_fields_same_prefix(x@, y@, i + 1);
                            assert(x@.take(i + 1).last() == x@[i as int]);
                            assert(y@.take(i + 1).last() == y@[i as int]);
                        }
                    }
                    return false;
                }
                i = i + 1;
            }
            proof {
                assert(x@.take(i as int) =~= x@);
                assert(y@.take(i as int) =~= y@);
                assert(value_same(*a, *b) == fields_same(x@, y@));
            }
            true
        },
        (Value::Sequence(x), Value::Sequence(y)) => {
            if x.len() != y.len() {
                proof {
                    assert(!items_same(x@, y@));
                    assert(value_same(*a, *b) == items_same(x@, y@));
                }
                return false;
            }
            let mut i: usize = 0;
            while i < x.len()
                invariant
                    *a == Value::Sequence(*x),
                    *b == Value::Sequence(*y),
                    x@.len() == y@.len(),
                    i <= x@.len(),
                    items_same(x@.take(i as int), y@.take(i as int)),
                decreases x@.len() - i,
            {
                proof {
                    assert(decreases_to!(*a => (*a)->Sequence_0));
                    assert(decreases_to!(*x => x@[i as int]));
                    assert(x@.take(i + 1).drop_last() =~= x@.take(i as int));
                    assert(y@.take(i + 1).drop_last() =~= y@.take(i as int));
                }
                if !same_value(&x[i], &y[i]) {
                    proof {
                        assert(value_same(*a, *b) == items_same(x@, y@));
                        if items_same(x@, y@) {
                            lemma_items_same_prefix(x@, y@, i + 1);
                            assert(x@.take(i + 1).last() == x@[i as int]);
                            assert(y@.take(i + 1).last() == y@[i as int]);
                        }
                    }
                    return false;
                }
                i = i + 1;
            }
            proof {
                assert(x@.take(i as int) =~= x@);
                assert(y@.take(i as int) =~= y@);
                assert(value_same(*a, *b) == items_same(x@, y@));
            }
            true
        },
        _ => false,
    }
}

/// Equal sequences have equal prefixes.
proof fn lemma_fields_same_prefix(a: Seq<(String, Value)>, b: Seq<(String, Value)>, k: int)
    requires
        0 <= k <= a.len(),
        fields_same(a, b),
    ensures
        fields_same(a.take(k), b.take(k)),
    decreases a.len(),
{
    if k < a.len() {
        lemma_fields_same_prefix(a.drop_last(), b.drop_last(), k);
        assert(a.drop_last().take(k) =~= a.take(k));
        assert(b.drop_last().take(k) =~= b.take(k));
    } else {
        assert(a.take(k) =~= a);
        assert(b.take(k) =~= b);
    }
}

proof fn lemma_items_same_prefix(a: Seq<Value>, b: Seq<Value>, k: int)
    requires
        0 <= k <= a.len(),
        items_same(a, b),
    ensures
        items_same(a.take(k), b.take(k)),
    decreases a.len(),
{
    if k < a.len() {
        lemma_items_same_prefix(a.drop_last(), b.drop_last(), k);
        assert(a.drop_last().take(k) =~= a.take(k));
        assert(b.drop_last().take(k) =~= b.take(k));
    } else {
        assert(a.take(k) =~= a);
        assert(b.take(k) =~= b);
    }
}

pub open spec fn extension_value_same(a: ExtensionValue, b: ExtensionValue) -> bool {
    match a {
        ExtensionValue::Known(x) => b matches ExtensionValue::Known(y) && value_same(x, y),
        ExtensionValue::Opaque(x) => b matches ExtensionValue::Opaque(y) && x@ == y@,
    }
}

pub open spec fn parameter_same(a: ExtensionParameter, b: ExtensionParameter) -> bool {
    &&& a.namespace@ == b.namespace@
    &&& a.name@ == b.name@
    &&& a.schema@ == b.schema@
    &&& a.version == b.version
    &&& extension_value_same(a.value, b.value)
}

pub open spec fn parameters_same(a: Seq<ExtensionParameter>, b: Seq<ExtensionParameter>) -> bool {
    a.len() == b.len() && forall|i: int| 0 <= i < a.len() ==> parameter_same(#[trigger] a[i], b[i])
}

pub open spec fn label_same(a: Option<String>, b: Option<String>) -> bool {
    match a {
        None => b is None,
        Some(x) => b matches Some(y) && x@ == y@,
    }
}

pub open spec fn port_same(a: Port, b: Port) -> bool {
    a.address@ == b.address@ && label_same(a.label, b.label) && parameters_same(a.extensions@, b.extensions@)
}

pub open spec fn block_same(a: Block, b: Block) -> bool {
    &&& a.address@ == b.address@
    &&& a.name@ == b.name@
    &&& a.ports.keys() == b.ports.keys()
    &&& forall|i: int| 0 <= i < a.ports.values().len() ==> port_same(#[trigger] a.ports.values()[i], b.ports.values()[i])
    &&& parameters_same(a.extensions@, b.extensions@)
}

/// The texts of a list of addresses.
pub open spec fn member_views(v: Seq<crate::address::Address>) -> Seq<Seq<char>> {
    v.map_values(|a: crate::address::Address| a@)
}

pub open spec fn connection_same(a: Connection, b: Connection) -> bool {
    &&& a.address@ == b.address@
    &&& label_same(a.label, b.label)
    &&& a.source@ == b.source@
    &&& a.destination@ == b.destination@
    &&& parameters_same(a.extensions@, b.extensions@)
}

pub open spec fn group_same(a: Group, b: Group) -> bool {
    &&& a.address@ == b.address@
    &&& label_same(a.label, b.label)
    &&& member_views(a.members@) == member_views(b.members@)
    &&& parameters_same(a.extensions@, b.extensions@)
}

/// Two core graphs with the same addresses, in order, holding the same
/// elements.
pub open spec fn core_same(a: CoreGraph, b: CoreGraph) -> bool {
    &&& a.blocks.keys() == b.blocks.keys()
    &&& forall|i: int| 0 <= i < a.blocks.values().len() ==> block_same(#[trigger] a.blocks.values()[i], b.blocks.values()[i])
    &&& a.connections.keys() == b.connections.keys()
    &&& forall|i: int|
        0 <= i < a.connections.values().len() ==> connection_same(#[trigger] a.connections.values()[i], b.connections.values()[i])
    &&& a.groups.keys() == b.groups.keys()
    &&& forall|i: int| 0 <= i < a.groups.values().len() ==> group_same(#[trigger] a.groups.values()[i], b.groups.values()[i])
}

pub open spec fn select_same(a: SelectItem, b: SelectItem) -> bool {
    match a {
        SelectItem::Use(x) => b matches SelectItem::Use(y) && member_views(x@) == member_views(y@),
        SelectItem::GenerateBlock(x) => b matches SelectItem::GenerateBlock(y) && block_same(x, y),
        SelectItem::GenerateConnection(x) => b matches SelectItem::GenerateConnection(y) && connection_same(x, y),
        SelectItem::GenerateGroup(x) => b matches SelectItem::GenerateGroup(y) && group_same(x, y),
    }
}

pub open spec fn decoration_same(a: Decoration, b: Decoration) -> bool {
    a.target@ == b.target@ && parameter_same(a.parameter, b.parameter)
}

pub open spec fn projection_same(a: Projection, b: Projection) -> bool {
    &&& a.select@.len() == b.select@.len()
    &&& forall|i: int| 0 <= i < a.select@.len() ==> select_same(#[trigger] a.select@[i], b.select@[i])
    &&& member_views(a.invert@) == member_views(b.invert@)
    &&& a.decorate@.len() == b.decorate@.len()
    &&& forall|i: int| 0 <= i < a.decorate@.len() ==> decoration_same(#[trigger] a.decorate@[i], b.decorate@[i])
    &&& a.checks@ == b.checks@
}

pub open spec fn layer_same(a: Layer, b: Layer) -> bool {
    &&& a.name@ == b.name@
    &&& a.inputs@ == b.inputs@
    &&& a.projection_language == b.projection_language
    &&& a.schemas@ == b.schemas@
    &&& projection_same(a.projection, b.projection)
}

pub open spec fn layers_same(a: Seq<Layer>, b: Seq<Layer>) -> bool {
    a.len() == b.len() && forall|i: int| 0 <= i < a.len() ==> layer_same(#[trigger] a[i], b[i])
}

/// Two descriptions with the same address, label, core spec, core graph,
/// extensions and layers.
pub open spec fn description_same(a: Description, b: Description) -> bool {
    &&& a.address@ == b.address@
    &&& label_same(a.label, b.label)
    &&& a.core_spec == b.core_spec
    &&& core_same(a.core, b.core)
    &&& parameters_same(a.extensions@, b.extensions@)
    &&& layers_same(a.layers@, b.layers@)
}

fn same_bytes(a: &Vec<u8>, b: &Vec<u8>) -> (r: bool)
    ensures
        r == (a@ == b@),
{
    if a.len() != b.len() {
        return false;
    }
    let mut i: usize = 0;
    while i < a.len()
        invariant
            a@.len() == b@.len(),
            i <= a@.len(),
            forall|j: int| 0 <= j < i ==> a@[j] == b@[j],
        decreases a@.len() - i,
    {
        if a[i] != b[i] {
            return false;
        }
        i = i + 1;
    }
    proof {
        assert(a@ =~= b@);
    }
    true
}

fn same_parameter(a: &ExtensionParameter, b: &ExtensionParameter) -> (r: bool)
    ensures
        r == parameter_same(*a, *b),
{
    let values = match (&a.value, &b.value) {
        (ExtensionValue::Known(x), ExtensionValue::Known(y)) => same_value(x, y),
        (ExtensionValue::Opaque(x), ExtensionValue::Opaque(y)) => same_bytes(x, y),
        _ => false,
    };
    a.namespace.same(&b.namespace) && str_eq(a.name.as_str(), b.name.as_str()) && str_eq(a.schema.as_str(), b.schema.as_str())
        && a.version.same(b.version) && values
}

fn same_parameters(a: &Vec<ExtensionParameter>, b: &Vec<ExtensionParameter>) -> (r: bool)
    ensures
        r == parameters_same(a@, b@),
{
    if a.len() != b.len() {
        return false;
    }
    let mut i: usize = 0;
    while i < a.len()
        invariant
            a@.len() == b@.len(),
            i <= a@.len(),
            forall|j: int| 0 <= j < i ==> parameter_same(#[trigger] a@[j], b@[j]),
        decreases a@.len() - i,
    {
        if !same_parameter(&a[i], &b[i]) {
            return false;
        }
        i = i + 1;
    }
    true
}

fn same_label(a: &Option<String>, b: &Option<String>) -> (r: bool)
    ensures
        r == label_same(*a, *b),
{
    match (a, b) {
        (None, None) => true,
        (Some(x), Some(y)) => str_eq(x.as_str(), y.as_str()),
        _ => false,
    }
}

pub fn same_port(a: &Port, b: &Port) -> (r: bool)
    ensures
        r == port_same(*a, *b),
{
    a.address.same(&b.address) && same_label(&a.label, &b.label) && same_parameters(&a.extensions, &b.extensions)
}

pub fn same_block(a: &Block, b: &Block) -> (r: bool)
    ensures
        r == block_same(*a, *b),
{
    if !a.address.same(&b.address) || !str_eq(a.name.as_str(), b.name.as_str()) || !same_parameters(&a.extensions, &b.extensions) {
        return false;
    }
    if a.ports.len() != b.ports.len() {
        proof {
            assert(a.ports.keys().len() != b.ports.keys().len());
        }
        return false;
    }
    let mut i: usize = 0;
    while i < a.ports.len()
        invariant
            a.ports.entries().len() == b.ports.entries().len(),
            i <= a.ports.entries().len(),
            forall|j: int| 0 <= j < i ==> a.ports.keys()[j] == b.ports.keys()[j],
            forall|j: int| 0 <= j < i ==> port_same(#[trigger] a.ports.values()[j], b.ports.values()[j]),
        decreases a.ports.entries().len() - i,
    {
        if !a.ports.key_at(i).same(b.ports.key_at(i)) || !same_port(a.ports.value_at(i), b.ports.value_at(i)) {
            proof {
                assert(a.ports.keys()[i as int] == a.ports.entries()[i as int].0@);
                assert(b.ports.keys()[i as int] == b.ports.entries()[i as int].0@);
                assert(a.ports.values()[i as int] == a.ports.entries()[i as int].1);
                assert(b.ports.values()[i as int] == b.ports.entries()[i as int].1);
            }
            return false;
        }
        i = i + 1;
    }
    proof {
        assert(a.ports.keys() =~= b.ports.keys());
    }
    true
}

pub fn same_connection(a: &Connection, b: &Connection) -> (r: bool)
    ensures
        r == connection_same(*a, *b),
{
    a.address.same(&b.address) && same_label(&a.label, &b.label) && a.source.same(&b.source) && a.destination.same(
        &b.destination,
    ) && same_parameters(&a.extensions, &b.extensions)
}

fn same_members(a: &Vec<crate::address::Address>, b: &Vec<crate::address::Address>) -> (r: bool)
    ensures
        r == (member_views(a@) == member_views(b@)),
{
    if a.len() != b.len() {
        proof {
            assert(member_views(a@).len() != member_views(b@).len());
        }
        return false;
    }
    let mut i: usize = 0;
    while i < a.len()
        invariant
            a@.len() == b@.len(),
            i <= a@.len(),
            forall|j: int| 0 <= j < i ==> a@[j]@ == b@[j]@,
        decreases a@.len() - i,
    {
        if !a[i].same(&b[i]) {
            proof {
                assert(member_views(a@)[i as int] != member_views(b@)[i as int]);
            }
            return false;
        }
        i = i + 1;
    }
    proof {
        assert(member_views(a@) =~= member_views(b@));
    }
    true
}

pub fn same_group(a: &Group, b: &Group) -> (r: bool)
    ensures
        r == group_same(*a, *b),
{
    a.address.same(&b.address) && same_label(&a.label, &b.label) && same_members(&a.members, &b.members)
        && same_parameters(&a.extensions, &b.extensions)
}

} // verus!

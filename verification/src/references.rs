//! The references of a description: every address it mentions outside a
//! definition, with the site that mentions it.
use vstd::prelude::*;

use crate::address::Address;
use crate::definitions::Site;
use crate::model::{Block, Connection, Description, ExtensionParameter, ExtensionValue, Group, Port};
use crate::projection::{Decoration, Layer, SelectItem};
use crate::text::{owned, push_str};
use crate::decimal::{decimal_text, push_decimal};
use crate::value::Value;

verus! {

/// A mentioned address, the site that mentions it, and where.
#[derive(Debug)]
pub struct Reference {
    pub target: Address,
    pub site: Site,
    pub location: String,
}

/// An address and the site that mentions it.
pub type RefEntry = (Seq<char>, Option<Seq<char>>);

/// The address references inside a value, in order.
pub open spec fn value_refs(v: Value) -> Seq<Seq<char>>
    decreases v, 1int,
{
    match v {
        Value::AddressReference(a) => seq![a@],
        Value::Product(fields) => fields_refs(fields@),
        Value::Sequence(items) => items_refs(items@),
        Value::Present(inner) => value_refs(*inner),
        Value::Tagged { value, .. } => value_refs(*value),
        _ => Seq::empty(),
    }
}

pub open spec fn fields_refs(fields: Seq<(String, Value)>) -> Seq<Seq<char>>
    decreases fields, 0int,
{
    if fields.len() == 0 {
        Seq::empty()
    } else {
        fields_refs(fields.drop_last()) + value_refs(fields.last().1)
    }
}

pub open spec fn items_refs(items: Seq<Value>) -> Seq<Seq<char>>
    decreases items, 0int,
{
    if items.len() == 0 {
        Seq::empty()
    } else {
        items_refs(items.drop_last()) + value_refs(items.last())
    }
}

/// The references inside the known values of a list of extensions.
pub open spec fn extension_refs(exts: Seq<ExtensionParameter>) -> Seq<Seq<char>>
    decreases exts.len(),
{
    if exts.len() == 0 {
        Seq::empty()
    } else {
        extension_refs(exts.drop_last()) + match exts.last().value {
            ExtensionValue::Known(v) => value_refs(v),
            ExtensionValue::Opaque(_) => Seq::empty(),
        }
    }
}

/// Each address paired with a site.
pub open spec fn at_site(addresses: Seq<Seq<char>>, site: Option<Seq<char>>) -> Seq<RefEntry> {
    addresses.map_values(|a: Seq<char>| (a, site))
}

/// The addresses of a list.
pub open spec fn address_views(v: Seq<Address>) -> Seq<Seq<char>> {
    v.map_values(|a: Address| a@)
}

/// The references inside a block's extensions and its ports' extensions.
pub open spec fn block_refs(b: Block) -> Seq<Seq<char>> {
    extension_refs(b.extensions@) + ports_refs(b.ports.values())
}

pub open spec fn ports_refs(ports: Seq<Port>) -> Seq<Seq<char>>
    decreases ports.len(),
{
    if ports.len() == 0 {
        Seq::empty()
    } else {
        ports_refs(ports.drop_last()) + extension_refs(ports.last().extensions@)
    }
}

pub open spec fn blocks_refs(blocks: Seq<Block>) -> Seq<Seq<char>>
    decreases blocks.len(),
{
    if blocks.len() == 0 {
        Seq::empty()
    } else {
        blocks_refs(blocks.drop_last()) + block_refs(blocks.last())
    }
}

/// The endpoints of each connection, in order.
pub open spec fn endpoints(connections: Seq<Connection>) -> Seq<Seq<char>>
    decreases connections.len(),
{
    if connections.len() == 0 {
        Seq::empty()
    } else {
        endpoints(connections.drop_last()) + seq![connections.last().source@, connections.last().destination@]
    }
}

pub open spec fn members_of(groups: Seq<Group>) -> Seq<Seq<char>>
    decreases groups.len(),
{
    if groups.len() == 0 {
        Seq::empty()
    } else {
        members_of(groups.drop_last()) + address_views(groups.last().members@)
    }
}

pub open spec fn connections_ext_refs(connections: Seq<Connection>) -> Seq<Seq<char>>
    decreases connections.len(),
{
    if connections.len() == 0 {
        Seq::empty()
    } else {
        connections_ext_refs(connections.drop_last()) + extension_refs(connections.last().extensions@)
    }
}

pub open spec fn groups_ext_refs(groups: Seq<Group>) -> Seq<Seq<char>>
    decreases groups.len(),
{
    if groups.len() == 0 {
        Seq::empty()
    } else {
        groups_ext_refs(groups.drop_last()) + extension_refs(groups.last().extensions@)
    }
}

/// The addresses a selection item mentions.
pub open spec fn item_refs(item: SelectItem) -> Seq<Seq<char>> {
    match item {
        SelectItem::Use(addresses) => address_views(addresses@),
        SelectItem::GenerateBlock(b) => block_refs(b),
        SelectItem::GenerateConnection(c) => seq![c.source@, c.destination@] + extension_refs(c.extensions@),
        SelectItem::GenerateGroup(g) => address_views(g.members@) + extension_refs(g.extensions@),
    }
}

pub open spec fn items_refs_of(items: Seq<SelectItem>) -> Seq<Seq<char>>
    decreases items.len(),
{
    if items.len() == 0 {
        Seq::empty()
    } else {
        items_refs_of(items.drop_last()) + item_refs(items.last())
    }
}

pub open spec fn decorations_refs(decorations: Seq<Decoration>) -> Seq<Seq<char>>
    decreases decorations.len(),
{
    if decorations.len() == 0 {
        Seq::empty()
    } else {
        decorations_refs(decorations.drop_last()) + seq![decorations.last().target@] + extension_refs(
            seq![decorations.last().parameter],
        )
    }
}

/// The addresses a layer mentions: its selection, the groups it inverts,
/// then its decorations' targets and values.
pub open spec fn layer_refs(layer: Layer) -> Seq<Seq<char>> {
    items_refs_of(layer.projection.select@) + address_views(layer.projection.invert@) + decorations_refs(
        layer.projection.decorate@,
    )
}

pub open spec fn layers_refs(layers: Seq<Layer>) -> Seq<RefEntry>
    decreases layers.len(),
{
    if layers.len() == 0 {
        Seq::empty()
    } else {
        layers_refs(layers.drop_last()) + at_site(layer_refs(layers.last()), Some(layers.last().name@))
    }
}

/// Every reference of a description, in order: core connection endpoints
/// and group members, the references in core extension values, then each
/// layer's references.
pub open spec fn reference_entries(d: Description) -> Seq<RefEntry> {
    at_site(
        endpoints(d.core.connections.values()) + members_of(d.core.groups.values()) + extension_refs(d.extensions@)
            + blocks_refs(d.core.blocks.values()) + connections_ext_refs(d.core.connections.values())
            + groups_ext_refs(d.core.groups.values()),
        None,
    ) + layers_refs(d.layers@)
}

/// The addresses and sites of a list of references.
pub open spec fn ref_views(refs: Seq<Reference>) -> Seq<RefEntry> {
    refs.map_values(|r: Reference| (r.target@, r.site.view()))
}

/// `<location>/<index>`.
pub fn indexed(location: &str, index: usize) -> (s: String)
    ensures
        s@ == location@ + "/"@ + decimal_text(index as nat),
{
    let mut s = owned(location);
    push_str(&mut s, "/");
    push_decimal(&mut s, index as u64);
    s
}

/// `<location>/<name>`.
pub fn named(location: &str, name: &str) -> (s: String)
    ensures
        s@ == location@ + "/"@ + name@,
{
    let mut s = owned(location);
    push_str(&mut s, "/");
    push_str(&mut s, name);
    s
}

/// Appends a reference.
pub fn add_reference(refs: &mut Vec<Reference>, target: &Address, site: &Site, location: String)
    ensures
        ref_views(final(refs)@) == ref_views(old(refs)@).push((target@, site.view())),
{
    refs.push(Reference { target: target.clone(), site: site.duplicate(), location });
    proof {
        assert(ref_views(refs@) =~= ref_views(old(refs)@).push((target@, site.view())));
    }
}

/// Appends the references inside a value.
pub fn collect_value_refs(v: &Value, site: &Site, location: &str, refs: &mut Vec<Reference>)
    ensures
        ref_views(final(refs)@) == ref_views(old(refs)@) + at_site(value_refs(*v), site.view()),
    decreases v,
{
    let ghost start = ref_views(refs@);
    match v {
        Value::AddressReference(a) => {
            add_reference(refs, a, site, owned(location));
            proof {
                assert(at_site(value_refs(*v), site.view()) =~= seq![(a@, site.view())]);
                assert(ref_views(refs@) =~= start + at_site(value_refs(*v), site.view()));
            }
        },
        Value::Product(fields) => {
            let mut i: usize = 0;
            while i < fields.len()
                invariant
                    *v == Value::Product(*fields),
                    i <= fields@.len(),
                    ref_views(refs@) == start + at_site(fields_refs(fields@.take(i as int)), site.view()),
                decreases fields@.len() - i,
            {
                proof {
                    let e = fields@[i as int];
                    assert(decreases_to!(*v => (*v)->Product_0));
                    assert(decreases_to!(*fields => e));
                    assert(decreases_to!(e => e.1));
                }
                let here = named(location, fields[i].0.as_str());
                collect_value_refs(&fields[i].1, site, here.as_str(), refs);
                proof {
                    let t = fields@.take(i + 1);
                    assert(t.drop_last() =~= fields@.take(i as int));
                    assert(t.last() == fields@[i as int]);
                    assert(at_site(fields_refs(t), site.view()) =~= at_site(fields_refs(fields@.take(i as int)), site.view())
                        + at_site(value_refs(fields@[i as int].1), site.view()));
                }
                i = i + 1;
            }
            proof {
                assert(fields@.take(i as int) =~= fields@);
            }
        },
        Value::Sequence(items) => {
            let mut i: usize = 0;
            while i < items.len()
                invariant
                    *v == Value::Sequence(*items),
                    i <= items@.len(),
                    ref_views(refs@) == start + at_site(items_refs(items@.take(i as int)), site.view()),
                decreases items@.len() - i,
            {
                proof {
                    assert(decreases_to!(*v => (*v)->Sequence_0));
                    assert(decreases_to!(*items => items@[i as int]));
                }
                let here = indexed(location, i);
                collect_value_refs(&items[i], site, here.as_str(), refs);
                proof {
                    let t = items@.take(i + 1);
                    assert(t.drop_last() =~= items@.take(i as int));
                    assert(t.last() == items@[i as int]);
                    assert(at_site(items_refs(t), site.view()) =~= at_site(items_refs(items@.take(i as int)), site.view())
                        + at_site(value_refs(items@[i as int]), site.view()));
                }
                i = i + 1;
            }
            proof {
                assert(items@.take(i as int) =~= items@);
            }
        },
        Value::Present(inner) => {
            collect_value_refs(inner, site, location, refs);
        },
        Value::Tagged { value, .. } => {
            collect_value_refs(value, site, location, refs);
        },
        _ => {
            proof {
                assert(at_site(value_refs(*v), site.view()) =~= Seq::<RefEntry>::empty());
                assert(ref_views(refs@) =~= start + at_site(value_refs(*v), site.view()));
            }
        },
    }
}

/// The references inside one extension's value, if it is known.
pub open spec fn parameter_refs(p: ExtensionParameter) -> Seq<Seq<char>> {
    match p.value {
        ExtensionValue::Known(v) => value_refs(v),
        ExtensionValue::Opaque(_) => Seq::empty(),
    }
}

/// Appends the references inside one extension's value; `location` names
/// the extension.
pub fn collect_parameter_refs(ext: &ExtensionParameter, site: &Site, location: &str, refs: &mut Vec<Reference>)
    ensures
        ref_views(final(refs)@) == ref_views(old(refs)@) + at_site(parameter_refs(*ext), site.view()),
{
    if let ExtensionValue::Known(value) = &ext.value {
        let path = named(location, "value");
        collect_value_refs(value, site, path.as_str(), refs);
    } else {
        proof {
            assert(ref_views(refs@) =~= ref_views(refs@) + at_site(parameter_refs(*ext), site.view()));
        }
    }
}

/// Appends the references inside the known values of a list of extensions.
pub fn collect_extension_refs(exts: &Vec<ExtensionParameter>, site: &Site, location: &str, refs: &mut Vec<Reference>)
    ensures
        ref_views(final(refs)@) == ref_views(old(refs)@) + at_site(extension_refs(exts@), site.view()),
{
    let ghost start = ref_views(refs@);
    let mut i: usize = 0;
    while i < exts.len()
        invariant
            i <= exts@.len(),
            ref_views(refs@) == start + at_site(extension_refs(exts@.take(i as int)), site.view()),
        decreases exts@.len() - i,
    {
        let ghost before = ref_views(refs@);
        let here = indexed(location, i);
        collect_parameter_refs(&exts[i], site, here.as_str(), refs);
        proof {
            let t = exts@.take(i + 1);
            assert(t.drop_last() =~= exts@.take(i as int));
            assert(t.last() == exts@[i as int]);
            let more = match exts@[i as int].value {
                ExtensionValue::Known(v) => value_refs(v),
                ExtensionValue::Opaque(_) => Seq::empty(),
            };
            assert(at_site(extension_refs(t), site.view()) =~= at_site(extension_refs(exts@.take(i as int)), site.view())
                + at_site(more, site.view()));
            assert(ref_views(refs@) =~= before + at_site(more, site.view()));
        }
        i = i + 1;
    }
    proof {
        assert(exts@.take(i as int) =~= exts@);
    }
}

/// Appends the references inside a block's extensions and its ports'.
fn collect_block_refs(block: &Block, site: &Site, location: &str, refs: &mut Vec<Reference>)
    ensures
        ref_views(final(refs)@) == ref_views(old(refs)@) + at_site(block_refs(*block), site.view()),
{
    let ghost start = ref_views(refs@);
    let ext_location = named(location, "extensions");
    collect_extension_refs(&block.extensions, site, ext_location.as_str(), refs);
    let ghost mid = ref_views(refs@);
    let mut j: usize = 0;
    while j < block.ports.len()
        invariant
            j <= block.ports.entries().len(),
            mid == start + at_site(extension_refs(block.extensions@), site.view()),
            ref_views(refs@) == mid + at_site(ports_refs(block.ports.values().take(j as int)), site.view()),
        decreases block.ports.entries().len() - j,
    {
        let port_key = block.ports.key_at(j);
        let port = block.ports.value_at(j);
        let mut here = named(location, "port");
        push_str(&mut here, "/");
        push_str(&mut here, port_key.as_str());
        push_str(&mut here, "/extensions");
        let ghost before = ref_views(refs@);
        collect_extension_refs(&port.extensions, site, here.as_str(), refs);
        proof {
            let t = block.ports.values().take(j + 1);
            assert(t.drop_last() =~= block.ports.values().take(j as int));
            assert(t.last() == *port);
            assert(at_site(ports_refs(t), site.view()) =~= at_site(ports_refs(block.ports.values().take(j as int)), site.view())
                + at_site(extension_refs(port.extensions@), site.view()));
        }
        j = j + 1;
    }
    proof {
        assert(block.ports.values().take(j as int) =~= block.ports.values());
        assert(at_site(block_refs(*block), site.view()) =~= at_site(extension_refs(block.extensions@), site.view())
            + at_site(ports_refs(block.ports.values()), site.view()));
    }
}

/// Appends the references a layer makes.
fn collect_layer_refs(layer: &Layer, refs: &mut Vec<Reference>)
    ensures
        ref_views(final(refs)@) == ref_views(old(refs)@) + at_site(layer_refs(*layer), Some(layer.name@)),
{
    let ghost start = ref_views(refs@);
    let site = Site::Layer(owned(layer.name.as_str()));
    let base = crate::validate::located_at("layer/", layer.name.as_str(), "");
    let select = &layer.projection.select;
    let mut k: usize = 0;
    while k < select.len()
        invariant
            *select == layer.projection.select,
            site.view() == Some(layer.name@),
            k <= select@.len(),
            ref_views(refs@) == start + at_site(items_refs_of(select@.take(k as int)), site.view()),
        decreases select@.len() - k,
    {
        let ghost before = ref_views(refs@);
        match &select[k] {
            SelectItem::Use(addresses) => {
                let mut a: usize = 0;
                while a < addresses.len()
                    invariant
                        a <= addresses@.len(),
                        ref_views(refs@) == before + at_site(address_views(addresses@.take(a as int)), site.view()),
                    decreases addresses@.len() - a,
                {
                    let mut here = named(base.as_str(), "select/use");
                    here = indexed(here.as_str(), k);
                    here = indexed(here.as_str(), a);
                    add_reference(refs, &addresses[a], &site, here);
                    proof {
                        assert(address_views(addresses@.take(a + 1)) =~= address_views(addresses@.take(a as int)).push(addresses@[a as int]@));
                        assert(ref_views(refs@) =~= before + at_site(address_views(addresses@.take(a + 1)), site.view()));
                    }
                    a = a + 1;
                }
                proof {
                    assert(addresses@.take(a as int) =~= addresses@);
                }
            },
            SelectItem::GenerateBlock(block) => {
                let mut here = named(base.as_str(), "select/block");
                here = indexed(here.as_str(), k);
                collect_block_refs(block, &site, here.as_str(), refs);
            },
            SelectItem::GenerateConnection(connection) => {
                let mut here = named(base.as_str(), "select/connection");
                here = indexed(here.as_str(), k);
                add_reference(refs, &connection.source, &site, named(here.as_str(), "source"));
                add_reference(refs, &connection.destination, &site, named(here.as_str(), "destination"));
                let ghost mid = ref_views(refs@);
                collect_extension_refs(&connection.extensions, &site, named(here.as_str(), "extensions").as_str(), refs);
                proof {
                    assert(at_site(seq![connection.source@, connection.destination@] + extension_refs(connection.extensions@), site.view())
                        =~= seq![(connection.source@, site.view()), (connection.destination@, site.view())] + at_site(extension_refs(connection.extensions@), site.view()));
                    assert(ref_views(refs@) =~= before + at_site(item_refs(select@[k as int]), site.view()));
                }
            },
            SelectItem::GenerateGroup(group) => {
                let mut here = named(base.as_str(), "select/group");
                here = indexed(here.as_str(), k);
                let mut m: usize = 0;
                while m < group.members.len()
                    invariant
                        m <= group.members@.len(),
                        ref_views(refs@) == before + at_site(address_views(group.members@.take(m as int)), site.view()),
                    decreases group.members@.len() - m,
                {
                    let member_here = indexed(named(here.as_str(), "member").as_str(), m);
                    add_reference(refs, &group.members[m], &site, member_here);
                    proof {
                        assert(address_views(group.members@.take(m + 1)) =~= address_views(group.members@.take(m as int)).push(group.members@[m as int]@));
                        assert(ref_views(refs@) =~= before + at_site(address_views(group.members@.take(m + 1)), site.view()));
                    }
                    m = m + 1;
                }
                proof {
                    assert(group.members@.take(m as int) =~= group.members@);
                }
                collect_extension_refs(&group.extensions, &site, named(here.as_str(), "extensions").as_str(), refs);
                proof {
                    assert(at_site(address_views(group.members@) + extension_refs(group.extensions@), site.view())
                        =~= at_site(address_views(group.members@), site.view()) + at_site(extension_refs(group.extensions@), site.view()));
                }
            },
        }
        proof {
            let t = select@.take(k + 1);
            assert(t.drop_last() =~= select@.take(k as int));
            assert(t.last() == select@[k as int]);
            assert(at_site(items_refs_of(t), site.view()) =~= at_site(items_refs_of(select@.take(k as int)), site.view())
                + at_site(item_refs(select@[k as int]), site.view()));
        }
        k = k + 1;
    }
    proof {
        assert(select@.take(k as int) =~= select@);
    }
    let ghost after_select = ref_views(refs@);
    let invert = &layer.projection.invert;
    let mut k: usize = 0;
    while k < invert.len()
        invariant
            *invert == layer.projection.invert,
            k <= invert@.len(),
            ref_views(refs@) == after_select + at_site(address_views(invert@.take(k as int)), site.view()),
        decreases invert@.len() - k,
    {
        let here = indexed(named(base.as_str(), "invert").as_str(), k);
        add_reference(refs, &invert[k], &site, here);
        proof {
            assert(address_views(invert@.take(k + 1)) =~= address_views(invert@.take(k as int)).push(invert@[k as int]@));
            assert(ref_views(refs@) =~= after_select + at_site(address_views(invert@.take(k + 1)), site.view()));
        }
        k = k + 1;
    }
    proof {
        assert(invert@.take(k as int) =~= invert@);
    }
    let ghost after_invert = ref_views(refs@);
    let decorate = &layer.projection.decorate;
    let mut k: usize = 0;
    while k < decorate.len()
        invariant
            *decorate == layer.projection.decorate,
            k <= decorate@.len(),
            ref_views(refs@) == after_invert + at_site(decorations_refs(decorate@.take(k as int)), site.view()),
        decreases decorate@.len() - k,
    {
        let ghost before = ref_views(refs@);
        let here = indexed(named(base.as_str(), "decorate").as_str(), k);
        let decoration = &decorate[k];
        add_reference(refs, &decoration.target, &site, named(here.as_str(), "target"));
        let ghost mid = ref_views(refs@);
        let parameter_here = indexed(named(here.as_str(), "parameter").as_str(), 0);
        collect_parameter_refs(&decoration.parameter, &site, parameter_here.as_str(), refs);
        proof {
            let p = decoration.parameter;
            assert(seq![p].drop_last() =~= Seq::<ExtensionParameter>::empty());
            assert(seq![p].last() == p);
            assert(extension_refs(Seq::<ExtensionParameter>::empty()) =~= Seq::<Seq<char>>::empty());
            assert(extension_refs(seq![p]) =~= extension_refs(Seq::<ExtensionParameter>::empty()) + parameter_refs(p));
            assert(extension_refs(seq![p]) =~= parameter_refs(p));
            let t = decorate@.take(k + 1);
            assert(t.drop_last() =~= decorate@.take(k as int));
            assert(t.last() == *decoration);
            assert(at_site(decorations_refs(t), site.view()) =~= at_site(decorations_refs(decorate@.take(k as int)), site.view())
                + seq![(decoration.target@, site.view())] + at_site(extension_refs(seq![decoration.parameter]), site.view()));
        }
        k = k + 1;
    }
    proof {
        assert(decorate@.take(k as int) =~= decorate@);
        assert(at_site(layer_refs(*layer), Some(layer.name@)) =~= at_site(items_refs_of(select@), site.view())
            + at_site(address_views(invert@), site.view()) + at_site(decorations_refs(decorate@), site.view()));
    }
}

/// Collects every reference of a description, in order.
pub fn collect_references(d: &Description) -> (refs: Vec<Reference>)
    ensures
        ref_views(refs@) == reference_entries(*d),
{
    let mut refs: Vec<Reference> = Vec::new();
    let core = Site::Core;
    let connections = &d.core.connections;
    let groups = &d.core.groups;
    let blocks = &d.core.blocks;
    let mut i: usize = 0;
    while i < connections.len()
        invariant
            *connections == d.core.connections,
            core.view() is None,
            i <= connections.entries().len(),
            ref_views(refs@) == at_site(endpoints(connections.values().take(i as int)), None),
        decreases connections.entries().len() - i,
    {
        let c = connections.value_at(i);
        let here = crate::validate::located_at("core/connection/", c.address.as_str(), "");
        let ghost before = ref_views(refs@);
        add_reference(&mut refs, &c.source, &core, named(here.as_str(), "source"));
        add_reference(&mut refs, &c.destination, &core, named(here.as_str(), "destination"));
        proof {
            let t = connections.values().take(i + 1);
            assert(t.drop_last() =~= connections.values().take(i as int));
            assert(t.last() == *c);
            assert(at_site(endpoints(t), None) =~= at_site(endpoints(connections.values().take(i as int)), None)
                + seq![(c.source@, None::<Seq<char>>), (c.destination@, None::<Seq<char>>)]);
            assert(ref_views(refs@) =~= at_site(endpoints(t), None));
        }
        i = i + 1;
    }
    proof {
        assert(connections.values().take(i as int) =~= connections.values());
    }
    let ghost r1 = ref_views(refs@);
    let mut i: usize = 0;
    while i < groups.len()
        invariant
            *groups == d.core.groups,
            core.view() is None,
            i <= groups.entries().len(),
            ref_views(refs@) == r1 + at_site(members_of(groups.values().take(i as int)), None),
        decreases groups.entries().len() - i,
    {
        let g = groups.value_at(i);
        let here = crate::validate::located_at("core/group/", g.address.as_str(), "/member");
        let ghost before = ref_views(refs@);
        let mut m: usize = 0;
        while m < g.members.len()
            invariant
                core.view() is None,
                m <= g.members@.len(),
                ref_views(refs@) == before + at_site(address_views(g.members@.take(m as int)), None),
            decreases g.members@.len() - m,
        {
            add_reference(&mut refs, &g.members[m], &core, indexed(here.as_str(), m));
            proof {
                assert(address_views(g.members@.take(m + 1)) =~= address_views(g.members@.take(m as int)).push(g.members@[m as int]@));
                assert(ref_views(refs@) =~= before + at_site(address_views(g.members@.take(m + 1)), None));
            }
            m = m + 1;
        }
        proof {
            assert(g.members@.take(m as int) =~= g.members@);
            let t = groups.values().take(i + 1);
            assert(t.drop_last() =~= groups.values().take(i as int));
            assert(t.last() == *g);
            assert(at_site(members_of(t), None) =~= at_site(members_of(groups.values().take(i as int)), None)
                + at_site(address_views(g.members@), None));
        }
        i = i + 1;
    }
    proof {
        assert(groups.values().take(i as int) =~= groups.values());
    }
    let ghost r2 = ref_views(refs@);
    collect_extension_refs(&d.extensions, &core, "description/extensions", &mut refs);
    let ghost r3 = ref_views(refs@);
    let mut i: usize = 0;
    while i < blocks.len()
        invariant
            *blocks == d.core.blocks,
            core.view() is None,
            i <= blocks.entries().len(),
            ref_views(refs@) == r3 + at_site(blocks_refs(blocks.values().take(i as int)), None),
        decreases blocks.entries().len() - i,
    {
        let key = blocks.key_at(i);
        let block = blocks.value_at(i);
        let here = crate::validate::located_at("core/block/", key.as_str(), "");
        collect_block_refs(block, &core, here.as_str(), &mut refs);
        proof {
            let t = blocks.values().take(i + 1);
            assert(t.drop_last() =~= blocks.values().take(i as int));
            assert(t.last() == *block);
            assert(at_site(blocks_refs(t), None) =~= at_site(blocks_refs(blocks.values().take(i as int)), None)
                + at_site(block_refs(*block), None));
        }
        i = i + 1;
    }
    proof {
        assert(blocks.values().take(i as int) =~= blocks.values());
    }
    let ghost r4 = ref_views(refs@);
    let mut i: usize = 0;
    while i < connections.len()
        invariant
            *connections == d.core.connections,
            core.view() is None,
            i <= connections.entries().len(),
            ref_views(refs@) == r4 + at_site(connections_ext_refs(connections.values().take(i as int)), None),
        decreases connections.entries().len() - i,
    {
        let key = connections.key_at(i);
        let c = connections.value_at(i);
        let here = crate::validate::located_at("core/connection/", key.as_str(), "/extensions");
        collect_extension_refs(&c.extensions, &core, here.as_str(), &mut refs);
        proof {
            let t = connections.values().take(i + 1);
            assert(t.drop_last() =~= connections.values().take(i as int));
            assert(t.last() == *c);
            assert(at_site(connections_ext_refs(t), None) =~= at_site(connections_ext_refs(connections.values().take(i as int)), None)
                + at_site(extension_refs(c.extensions@), None));
        }
        i = i + 1;
    }
    proof {
        assert(connections.values().take(i as int) =~= connections.values());
    }
    let ghost r5 = ref_views(refs@);
    let mut i: usize = 0;
    while i < groups.len()
        invariant
            *groups == d.core.groups,
            core.view() is None,
            i <= groups.entries().len(),
            ref_views(refs@) == r5 + at_site(groups_ext_refs(groups.values().take(i as int)), None),
        decreases groups.entries().len() - i,
    {
        let key = groups.key_at(i);
        let g = groups.value_at(i);
        let here = crate::validate::located_at("core/group/", key.as_str(), "/extensions");
        collect_extension_refs(&g.extensions, &core, here.as_str(), &mut refs);
        proof {
            let t = groups.values().take(i + 1);
            assert(t.drop_last() =~= groups.values().take(i as int));
            assert(t.last() == *g);
            assert(at_site(groups_ext_refs(t), None) =~= at_site(groups_ext_refs(groups.values().take(i as int)), None)
                + at_site(extension_refs(g.extensions@), None));
        }
        i = i + 1;
    }
    proof {
        assert(groups.values().take(i as int) =~= groups.values());
    }
    let ghost r6 = ref_views(refs@);
    proof {
        assert(r6 =~= at_site(
            endpoints(d.core.connections.values()) + members_of(d.core.groups.values()) + extension_refs(d.extensions@)
                + blocks_refs(d.core.blocks.values()) + connections_ext_refs(d.core.connections.values())
                + groups_ext_refs(d.core.groups.values()),
            None,
        ));
    }
    let mut l: usize = 0;
    while l < d.layers.len()
        invariant
            l <= d.layers@.len(),
            ref_views(refs@) == r6 + layers_refs(d.layers@.take(l as int)),
        decreases d.layers@.len() - l,
    {
        collect_layer_refs(&d.layers[l], &mut refs);
        proof {
            let t = d.layers@.take(l + 1);
            assert(t.drop_last() =~= d.layers@.take(l as int));
            assert(t.last() == d.layers@[l as int]);
            assert(ref_views(refs@) =~= r6 + layers_refs(t));
        }
        l = l + 1;
    }
    proof {
        assert(d.layers@.take(l as int) =~= d.layers@);
    }
    refs
}

} // verus!

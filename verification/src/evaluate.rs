//! Projection evaluation: a layer's inputs are folded by address, its
//! selection picks and defines elements, group inversion reverses the
//! connections of selected groups, and decorations and checks apply to the
//! finished structure.
use vstd::prelude::*;

use crate::address::Address;
use crate::definitions::{
    addresses_distinct, block_defs, blocks_defs, core_definition_entries, entry_addresses, lemma_blocks_repeat, lemma_repeat_after,
    lemma_repeat_concat, lemma_repeat_extend, repeats_address, Site,
};
use crate::map::{strictly_increasing, MapKey, OrderedMap};
use crate::model::{Block, Connection, Description, Group, Port};
use crate::projection::{Decoration, ExpectedCardinality, Layer, LayerInput, Projection, SelectItem};
use crate::same::{
    member_views, block_same, connection_same, group_same, label_same, parameters_same, port_same, same_block, same_connection, same_group,
    same_port,
};
use crate::text::{lemma_seq_lt_irreflexive, owned, push_str, seq_lt, str_eq};
use crate::validate::{contains_name, string_views};

verus! {

/// A structural element of a reprojection.
#[derive(Clone, Debug, PartialEq)]
pub enum Element {
    Description(Address),
    Block(Block),
    Port(Port),
    Connection(Connection),
    Group(Group),
}

/// Every group of `s` stands at one of the addresses `gs`.
pub open spec fn groups_within(s: StructuralReprojection, gs: Seq<Seq<char>>) -> bool {
    forall|q: Seq<char>| (#[trigger] s.elements.lookup(q) matches Some(Element::Group(_))) ==> gs.contains(q)
}

/// The addresses of the core graph's groups.
pub open spec fn core_group_addresses(d: Description) -> Seq<Seq<char>> {
    d.core.groups.values().map_values(|g: Group| g.address@)
}

/// The same element, field by field.
pub open spec fn element_same(a: Element, b: Element) -> bool {
    match a {
        Element::Description(x) => b matches Element::Description(y) && x@ == y@,
        Element::Block(x) => b matches Element::Block(y) && block_same(x, y),
        Element::Port(x) => b matches Element::Port(y) && port_same(x, y),
        Element::Connection(x) => b matches Element::Connection(y) && connection_same(x, y),
        Element::Group(x) => b matches Element::Group(y) && group_same(x, y),
    }
}

pub fn same_element(a: &Element, b: &Element) -> (r: bool)
    ensures
        r == element_same(*a, *b),
{
    match (a, b) {
        (Element::Description(x), Element::Description(y)) => x.same(y),
        (Element::Block(x), Element::Block(y)) => same_block(x, y),
        (Element::Port(x), Element::Port(y)) => same_port(x, y),
        (Element::Connection(x), Element::Connection(y)) => same_connection(x, y),
        (Element::Group(x), Element::Group(y)) => same_group(x, y),
        _ => false,
    }
}

/// A folded structure: elements by address, each with the site that
/// defines it.
#[derive(Debug)]
pub struct StructuralReprojection {
    pub elements: OrderedMap<Address, Element>,
    pub origins: OrderedMap<Address, Site>,
}

/// The same addresses, in order, holding the same elements.
pub open spec fn elements_same(a: OrderedMap<Address, Element>, b: OrderedMap<Address, Element>) -> bool {
    a.keys() == b.keys() && forall|i: int| 0 <= i < a.values().len() ==> element_same(#[trigger] a.values()[i], b.values()[i])
}

fn same_elements(a: &OrderedMap<Address, Element>, b: &OrderedMap<Address, Element>) -> (r: bool)
    ensures
        r == elements_same(*a, *b),
{
    if a.len() != b.len() {
        proof {
            assert(a.keys().len() != b.keys().len());
        }
        return false;
    }
    let mut i: usize = 0;
    while i < a.len()
        invariant
            a.entries().len() == b.entries().len(),
            i <= a.entries().len(),
            forall|j: int| 0 <= j < i ==> a.keys()[j] == b.keys()[j],
            forall|j: int| 0 <= j < i ==> element_same(#[trigger] a.values()[j], b.values()[j]),
        decreases a.entries().len() - i,
    {
        if !a.key_at(i).same(b.key_at(i)) || !same_element(a.value_at(i), b.value_at(i)) {
            proof {
                assert(a.keys()[i as int] == a.entries()[i as int].0@);
                assert(b.keys()[i as int] == b.entries()[i as int].0@);
                assert(a.values()[i as int] == a.entries()[i as int].1);
                assert(b.values()[i as int] == b.entries()[i as int].1);
            }
            return false;
        }
        i = i + 1;
    }
    proof {
        assert(a.keys() =~= b.keys());
    }
    true
}

impl PartialEq for StructuralReprojection {
    /// Two structures are equal when they hold the same elements; where an
    /// element was defined is not compared.
    fn eq(&self, other: &StructuralReprojection) -> (r: bool) {
        same_elements(&self.elements, &other.elements)
    }
}

impl vstd::std_specs::cmp::PartialEqSpecImpl for StructuralReprojection {
    open spec fn obeys_eq_spec() -> bool {
        true
    }

    open spec fn eq_spec(&self, other: &StructuralReprojection) -> bool {
        elements_same(self.elements, other.elements)
    }
}

/// A finished projection: its structure, decorations and check results.
#[derive(Debug, PartialEq)]
pub struct FinalizedReprojection {
    pub structural: StructuralReprojection,
    pub decorations: Vec<Decoration>,
    pub checks: Vec<CheckResult>,
}

/// How many decorations carry a check's parameter, and whether that meets
/// the expectation.
#[derive(Clone, Debug, PartialEq)]
pub struct CheckResult {
    pub name: String,
    pub expected: ExpectedCardinality,
    pub observed: usize,
    pub passed: bool,
}

/// A projection that cannot be evaluated: the stage, the identifier
/// involved and why.
#[derive(Clone, Debug, PartialEq, Eq)]
pub struct ProjectionError {
    pub stage: &'static str,
    pub identifier: Option<String>,
    pub message: String,
}

impl ProjectionError {
    fn new(stage: &'static str, identifier: &str, message: &str) -> (e: ProjectionError)
        ensures
            e.stage == stage,
            e.identifier matches Some(i) && i@ == identifier@,
            e.message@ == message@,
    {
        ProjectionError { stage, identifier: Some(owned(identifier)), message: owned(message) }
    }

    /// `projection <stage> for `<identifier>`: <message>`, or without the
    /// identifier part when there is none.
    pub fn to_string(&self) -> (s: String)
        ensures
            s@ == match self.identifier {
                Some(id) => "projection "@ + self.stage@ + " for `"@ + id@ + "`: "@ + self.message@,
                None => "projection "@ + self.stage@ + ": "@ + self.message@,
            },
    {
        let mut s = owned("projection ");
        push_str(&mut s, self.stage);
        match &self.identifier {
            Some(id) => {
                push_str(&mut s, " for `");
                push_str(&mut s, id.as_str());
                push_str(&mut s, "`: ");
            },
            None => push_str(&mut s, ": "),
        }
        push_str(&mut s, self.message.as_str());
        s
    }
}

fn same_origin(a: &Site, b: &Site) -> (r: bool)
    ensures
        r == (a.view() == b.view()),
{
    match (a, b) {
        (Site::Core, Site::Core) => true,
        (Site::Layer(x), Site::Layer(y)) => str_eq(x.as_str(), y.as_str()),
        _ => false,
    }
}

impl StructuralReprojection {
    /// Every element has a definition site.
    pub open spec fn wf(&self) -> bool {
        forall|q: Seq<char>| #[trigger] self.elements.contains(q) ==> self.origins.contains(q)
    }

    /// The addresses it holds.
    pub open spec fn holds(&self, q: Seq<char>) -> bool {
        self.elements.contains(q)
    }

    pub fn empty() -> (s: StructuralReprojection)
        ensures
            s.wf(),
            forall|q: Seq<char>| !#[trigger] s.holds(q),
            s.elements.len_spec() == 0 && s.origins.len_spec() == 0,
    {
        let s = StructuralReprojection { elements: OrderedMap::new(), origins: OrderedMap::new() };
        proof {
            assert forall|q: Seq<char>| !#[trigger] s.holds(q) by {
                assert(s.elements.keys() =~= Seq::<Seq<char>>::empty());
            }
        }
        s
    }

    /// Adds a block and its ports, all defined at `origin`.
    fn add_block(&mut self, block: &Block, origin: &Site) -> (r: Result<(), ProjectionError>)
        requires
            old(self).wf(),
        ensures
            final(self).wf(),
            r is Ok ==> forall|q: Seq<char>|
                #[trigger] final(self).holds(q) <==> (old(self).holds(q) || entry_addresses(block_defs(*block, origin.view())).contains(q)),
            r is Err ==> !addresses_distinct(entry_addresses(block_defs(*block, origin.view()))) || exists|q: Seq<char>|
                old(self).holds(q) && #[trigger] entry_addresses(block_defs(*block, origin.view())).contains(q),
            forall|gs: Seq<Seq<char>>| groups_within(*old(self), gs) ==> #[trigger] groups_within(*final(self), gs),
            forall|q: Seq<char>| old(self).holds(q) ==> #[trigger] final(self).elements.lookup(q) == old(self).elements.lookup(q),
    {
        let ghost start = *self;
        let ghost all = entry_addresses(block_defs(*block, origin.view()));
        let ghost ports = block.ports.values().map_values(|p: Port| p.address@);
        proof {
            assert(all =~= seq![block.address@] + ports);
            assert(all[0] == block.address@);
        }
        match self.add(&block.address, Element::Block(block.clone()), origin.duplicate()) {
            Ok(()) => {},
            Err(e) => {
                proof {
                    assert(all.contains(block.address@));
                    assert(old(self).holds(block.address@));
                }
                return Err(e);
            },
        }
        let mut j: usize = 0;
        while j < block.ports.len()
            invariant
                self.wf(),
                j <= block.ports.entries().len(),
                all == seq![block.address@] + ports,
                ports == block.ports.values().map_values(|p: Port| p.address@),
                all == entry_addresses(block_defs(*block, origin.view())),
                start == *old(self),
                forall|q: Seq<char>|
                    #[trigger] self.holds(q) <==> (start.holds(q) || q == block.address@ || block.ports.values().take(j as int).map_values(|p: Port| p.address@).contains(q)),
                forall|gs: Seq<Seq<char>>| groups_within(start, gs) ==> #[trigger] groups_within(*self, gs),
                forall|q: Seq<char>| start.holds(q) ==> #[trigger] self.elements.lookup(q) == start.elements.lookup(q),
            decreases block.ports.entries().len() - j,
        {
            let port = block.ports.value_at(j);
            let ghost before = *self;
            match self.add(&port.address, Element::Port(port.clone()), origin.duplicate()) {
                Ok(()) => {},
                Err(e) => {
                    proof {
                        let prev = block.ports.values().take(j as int).map_values(|p: Port| p.address@);
                        assert(all[j + 1] == port.address@);
                        if start.holds(port.address@) {
                            assert(all.contains(port.address@));
                        } else if port.address@ == block.address@ {
                            assert(all[0] == all[j + 1]);
                        } else {
                            let x = choose|x: int| 0 <= x < prev.len() && prev[x] == port.address@;
                            assert(all[x + 1] == prev[x]);
                            assert(all[x + 1] == all[j + 1]);
                        }
                    }
                    return Err(e);
                },
            }
            proof {
                let prev = block.ports.values().take(j as int).map_values(|p: Port| p.address@);
                let next = block.ports.values().take(j + 1).map_values(|p: Port| p.address@);
                assert(next =~= prev.push(port.address@));
                assert forall|q: Seq<char>| #[trigger] self.holds(q) <==> (start.holds(q) || q == block.address@ || next.contains(q)) by {
                    if next.contains(q) && q != port.address@ {
                        let x = choose|x: int| 0 <= x < next.len() && next[x] == q;
                        assert(prev[x] == q);
                    }
                    if prev.contains(q) {
                        let x = choose|x: int| 0 <= x < prev.len() && prev[x] == q;
                        assert(next[x] == q);
                    }
                    if q == port.address@ {
                        assert(next[j as int] == q);
                    }
                }
            }
            j = j + 1;
        }
        proof {
            assert(block.ports.values().take(j as int) =~= block.ports.values());
            let all = entry_addresses(block_defs(*block, origin.view()));
            let ports = block.ports.values().map_values(|p: Port| p.address@);
            assert(all =~= seq![block.address@] + ports);
            assert forall|q: Seq<char>| #[trigger] self.holds(q) <==> (start.holds(q) || all.contains(q)) by {
                if all.contains(q) && q != block.address@ {
                    let x = choose|x: int| 0 <= x < all.len() && all[x] == q;
                    assert(ports[x - 1] == q);
                }
                if ports.contains(q) {
                    let x = choose|x: int| 0 <= x < ports.len() && ports[x] == q;
                    assert(all[x + 1] == q);
                }
                if q == block.address@ {
                    assert(all[0] == q);
                }
            }
        }
        Ok(())
    }

    /// The core graph as a structure, every element defined at the core.
    pub fn from_core(description: &Description) -> (r: Result<StructuralReprojection, ProjectionError>)
        ensures
            r matches Ok(s) ==> s.wf() && forall|q: Seq<char>|
                #[trigger] s.holds(q) <==> entry_addresses(core_definition_entries(*description)).contains(q),
            r is Err ==> repeats_address(core_definition_entries(*description)),
            r matches Ok(s) ==> groups_within(s, core_group_addresses(*description)),
    {
        let mut result = StructuralReprojection::empty();
        let ghost gs = core_group_addresses(*description);
        let ghost whole = core_definition_entries(*description);
        let ghost conn_all = description.core.connections.values().map_values(
            |c: Connection| (c.address@, crate::schema::ElementKind::Connection, None::<Seq<char>>),
        );
        let ghost group_all = description.core.groups.values().map_values(
            |g: Group| (g.address@, crate::schema::ElementKind::Group, None::<Seq<char>>),
        );
        match result.add(&description.address, Element::Description(description.address.clone()), Site::Core) {
            Ok(()) => {},
            Err(e) => {
                return Err(e);
            },
        }
        let ghost e0 = seq![(description.address@, crate::schema::ElementKind::Description, None::<Seq<char>>)];
        let blocks = &description.core.blocks;
        proof {
            assert(blocks.values().take(0) =~= Seq::<Block>::empty());
            assert(e0 + blocks_defs(blocks.values().take(0), None) =~= e0);
            assert(entry_addresses(e0) =~= seq![description.address@]);
            lemma_single_contains(description.address@);
        }
        let mut i: usize = 0;
        while i < blocks.len()
            invariant
                result.wf(),
                gs == core_group_addresses(*description),
                groups_within(result, gs),
                *blocks == description.core.blocks,
                i <= blocks.entries().len(),
                e0 == seq![(description.address@, crate::schema::ElementKind::Description, None::<Seq<char>>)],
                whole == e0 + blocks_defs(blocks.values(), None) + conn_all + group_all,
                whole == core_definition_entries(*description),
                forall|q: Seq<char>|
                    #[trigger] result.holds(q) <==> entry_addresses(e0 + blocks_defs(blocks.values().take(i as int), None)).contains(q),
            decreases blocks.entries().len() - i,
        {
            let block = blocks.value_at(i);
            let ghost prev = entry_addresses(e0 + blocks_defs(blocks.values().take(i as int), None));
            let ghost before = result;
            match result.add_block(block, &Site::Core) {
                Ok(()) => {},
                Err(e) => {
                    proof {
                        let t = blocks.values().take(i + 1);
                        assert(t.drop_last() =~= blocks.values().take(i as int));
                        assert(t.last() == *block);
                        let more = entry_addresses(block_defs(*block, None));
                        assert(entry_addresses(e0 + blocks_defs(t, None)) =~= prev + more);
                        lemma_repeat_concat(prev, more);
                        if exists|q: Seq<char>| before.holds(q) && #[trigger] more.contains(q) {
                            let q = choose|q: Seq<char>| before.holds(q) && #[trigger] more.contains(q);
                            assert(prev.contains(q) && more.contains(q));
                        }
                        lemma_blocks_repeat(e0, blocks.values(), None, i + 1);
                        lemma_repeat_extend(e0 + blocks_defs(blocks.values(), None), conn_all + group_all);
                        assert(e0 + blocks_defs(blocks.values(), None) + (conn_all + group_all) =~= whole);
                    }
                    return Err(e);
                },
            }
            proof {
                let t = blocks.values().take(i + 1);
                assert(t.drop_last() =~= blocks.values().take(i as int));
                assert(t.last() == *block);
                let more = entry_addresses(block_defs(*block, None));
                assert(entry_addresses(e0 + blocks_defs(t, None)) =~= prev + more);
                lemma_concat_contains(prev, more);
            }
            i = i + 1;
        }
        proof {
            assert(blocks.values().take(i as int) =~= blocks.values());
        }
        let ghost e1 = e0 + blocks_defs(blocks.values(), None);
        let connections = &description.core.connections;
        let mut i: usize = 0;
        while i < connections.len()
            invariant
                result.wf(),
                gs == core_group_addresses(*description),
                groups_within(result, gs),
                *connections == description.core.connections,
                i <= connections.entries().len(),
                whole == e1 + conn_all + group_all,
                whole == core_definition_entries(*description),
                conn_all == connections.values().map_values(
                    |c: Connection| (c.address@, crate::schema::ElementKind::Connection, None::<Seq<char>>),
                ),
                forall|q: Seq<char>|
                    #[trigger] result.holds(q) <==> entry_addresses(e1 + connections.values().take(i as int).map_values(
                        |c: Connection| (c.address@, crate::schema::ElementKind::Connection, None::<Seq<char>>),
                    )).contains(q),
            decreases connections.entries().len() - i,
        {
            let c = connections.value_at(i);
            let ghost prev = entry_addresses(e1 + connections.values().take(i as int).map_values(
                |c: Connection| (c.address@, crate::schema::ElementKind::Connection, None::<Seq<char>>),
            ));
            match result.add(&c.address, Element::Connection(c.clone()), Site::Core) {
                Ok(()) => {},
                Err(e) => {
                    proof {
                        let f = |c: Connection| (c.address@, crate::schema::ElementKind::Connection, None::<Seq<char>>);
                        let done = e1 + connections.values().take(i + 1).map_values(f);
                        assert(entry_addresses(done) =~= prev.push(c.address@));
                        assert(prev.contains(c.address@));
                        lemma_repeat_after(prev, c.address@);
                        assert(repeats_address(done));
                        lemma_repeat_extend(done, connections.values().skip(i + 1).map_values(f) + group_all);
                        assert(connections.values().take(i + 1).map_values(f) + connections.values().skip(i + 1).map_values(f) =~= conn_all);
                        assert(done + (connections.values().skip(i + 1).map_values(f) + group_all) =~= whole);
                    }
                    return Err(e);
                },
            }
            proof {
                let next = entry_addresses(e1 + connections.values().take(i + 1).map_values(
                    |c: Connection| (c.address@, crate::schema::ElementKind::Connection, None::<Seq<char>>),
                ));
                assert(next =~= prev.push(c.address@));
                lemma_concat_contains(prev, seq![c.address@]);
                lemma_single_contains(c.address@);
                assert(prev.push(c.address@) =~= prev + seq![c.address@]);
            }
            i = i + 1;
        }
        proof {
            assert(connections.values().take(i as int) =~= connections.values());
        }
        let ghost e2 = e1 + connections.values().map_values(
            |c: Connection| (c.address@, crate::schema::ElementKind::Connection, None::<Seq<char>>),
        );
        let groups = &description.core.groups;
        let mut i: usize = 0;
        while i < groups.len()
            invariant
                result.wf(),
                gs == core_group_addresses(*description),
                groups_within(result, gs),
                *groups == description.core.groups,
                i <= groups.entries().len(),
                whole == e2 + group_all,
                whole == core_definition_entries(*description),
                group_all == groups.values().map_values(
                    |g: Group| (g.address@, crate::schema::ElementKind::Group, None::<Seq<char>>),
                ),
                forall|q: Seq<char>|
                    #[trigger] result.holds(q) <==> entry_addresses(e2 + groups.values().take(i as int).map_values(
                        |g: Group| (g.address@, crate::schema::ElementKind::Group, None::<Seq<char>>),
                    )).contains(q),
            decreases groups.entries().len() - i,
        {
            let g = groups.value_at(i);
            proof {
                assert(gs[i as int] == g.address@);
                assert(gs.contains(g.address@));
            }
            let ghost prev = entry_addresses(e2 + groups.values().take(i as int).map_values(
                |g: Group| (g.address@, crate::schema::ElementKind::Group, None::<Seq<char>>),
            ));
            match result.add(&g.address, Element::Group(g.clone()), Site::Core) {
                Ok(()) => {},
                Err(e) => {
                    proof {
                        let f = |g: Group| (g.address@, crate::schema::ElementKind::Group, None::<Seq<char>>);
                        let done = e2 + groups.values().take(i + 1).map_values(f);
                        assert(entry_addresses(done) =~= prev.push(g.address@));
                        lemma_repeat_after(prev, g.address@);
                        lemma_repeat_extend(done, groups.values().skip(i + 1).map_values(f));
                        assert(done + groups.values().skip(i + 1).map_values(f) =~= whole);
                    }
                    return Err(e);
                },
            }
            proof {
                let next = entry_addresses(e2 + groups.values().take(i + 1).map_values(
                    |g: Group| (g.address@, crate::schema::ElementKind::Group, None::<Seq<char>>),
                ));
                assert(next =~= prev.push(g.address@));
                lemma_concat_contains(prev, seq![g.address@]);
                lemma_single_contains(g.address@);
                assert(prev.push(g.address@) =~= prev + seq![g.address@]);
            }
            i = i + 1;
        }
        proof {
            assert(groups.values().take(i as int) =~= groups.values());
            assert(e2 + groups.values().map_values(
                |g: Group| (g.address@, crate::schema::ElementKind::Group, None::<Seq<char>>),
            ) =~= core_definition_entries(*description));
        }
        Ok(result)
    }

    /// Adds an element at an address. The same element from the same site
    /// again is accepted; anything else at a taken address fails.
    pub fn add(&mut self, address: &Address, element: Element, origin: Site) -> (r: Result<(), ProjectionError>)
        requires
            old(self).wf(),
        ensures
            final(self).wf(),
            forall|q: Seq<char>| #[trigger] final(self).holds(q) <==> (old(self).holds(q) || (r is Ok && q == address@)),
            r is Err ==> old(self).holds(address@),
            forall|q: Seq<char>| q != address@ ==> #[trigger] final(self).elements.lookup(q) == old(self).elements.lookup(q),
            old(self).holds(address@) ==> final(self).elements.lookup(address@) == old(self).elements.lookup(address@),
            forall|q: Seq<char>| old(self).holds(q) ==> #[trigger] final(self).elements.lookup(q) == old(self).elements.lookup(q),
            !old(self).holds(address@) ==> final(self).elements.lookup(address@) == Some(element),
            forall|gs: Seq<Seq<char>>|
                groups_within(*old(self), gs) && (!(element is Group) || gs.contains(address@)) ==> #[trigger] groups_within(
                    *final(self),
                    gs,
                ),
    {
        match self.elements.get(address) {
            Some(existing) => {
                let same_site = match self.origins.get(address) {
                    Some(o) => same_origin(o, &origin),
                    None => false,
                };
                if same_site && same_element(existing, &element) {
                    Ok(())
                } else {
                    Err(ProjectionError::new("fold", address.as_str(), "competing definitions at one address"))
                }
            },
            None => {
                let ghost before = *self;
                let ghost e = element;
                self.origins.insert(address.clone(), origin);
                self.elements.insert(address.clone(), element);
                proof {
                    assert forall|gs: Seq<Seq<char>>|
                        groups_within(before, gs) && (!(e is Group) || gs.contains(address@)) implies #[trigger] groups_within(
                            *self,
                            gs,
                        ) by {
                        assert forall|q: Seq<char>| (#[trigger] self.elements.lookup(q) matches Some(Element::Group(_))) implies gs.contains(q) by {
                            if q != address@ {
                                assert(before.elements.lookup(q) == self.elements.lookup(q));
                            }
                        }
                    }
                    assert forall|q: Seq<char>| #[trigger] self.elements.contains(q) implies self.origins.contains(q) by {
                        if q != address@ {
                            assert(before.elements.contains(q));
                        }
                    }
                }
                Ok(())
            },
        }
    }
}

impl StructuralReprojection {
    /// Folds another structure into this one, address by address.
    pub fn merge(&mut self, other: StructuralReprojection) -> (r: Result<(), ProjectionError>)
        requires
            old(self).wf(),
        ensures
            final(self).wf(),
            r is Ok ==> forall|q: Seq<char>| #[trigger] final(self).holds(q) <==> (old(self).holds(q) || other.holds(q)),
            forall|q: Seq<char>| #[trigger] final(self).holds(q) ==> old(self).holds(q) || other.holds(q),
            r is Err ==> exists|q: Seq<char>|
                #[trigger] other.holds(q) && (old(self).holds(q) || !other.origins.contains(q)),
            forall|gs: Seq<Seq<char>>|
                groups_within(*old(self), gs) && groups_within(other, gs) ==> #[trigger] groups_within(*final(self), gs),
    {
        let ghost start = *self;
        let ghost keys = other.elements.keys();
        let ghost other_view = other;
        proof {
            assert forall|q: Seq<char>| #[trigger] other_view.holds(q) <==> keys.contains(q) by {}
        }
        let StructuralReprojection { elements, origins } = other;
        let mut entries = elements.into_entries();
        let ghost all = entries@;
        let total = entries.len();
        proof {
            assert(all.map_values(|e: (Address, Element)| e.0.key()) =~= keys);
        }
        let mut taken: usize = 0;
        while entries.len() > 0
            invariant
                self.wf(),
                start == *old(self),
                other_view == other,
                all.len() == total,
                forall|q: Seq<char>| #[trigger] other_view.holds(q) <==> keys.contains(q),
                all.map_values(|e: (Address, Element)| e.0.key()) == keys,
                taken <= all.len(),
                strictly_increasing(keys),
                origins == other_view.origins,
                entries@ == all.subrange(taken as int, all.len() as int),
                forall|q: Seq<char>| #[trigger] self.holds(q) <==> (start.holds(q) || keys.take(taken as int).contains(q)),
                all == other_view.elements.entries(),
                other_view.elements.wf(),
                forall|gs: Seq<Seq<char>>|
                    groups_within(start, gs) && groups_within(other_view, gs) ==> #[trigger] groups_within(*self, gs),
            decreases entries@.len(),
        {
            let (address, element) = entries.remove(0);
            proof {
                assert(all[taken as int] == (address, element));
                assert(keys[taken as int] == address@);
                other_view.elements.lemma_index_of(taken as int);
                assert(other_view.elements.lookup(address@) == Some(element));
            }
            let origin = match origins.get(&address) {
                Some(o) => o.duplicate(),
                None => {
                    proof {
                        self.lemma_holds_within(start, keys, taken as int);
                        assert(keys.contains(address@));
                        assert(other_view.holds(address@) && !other_view.origins.contains(address@));
                    }
                    return Err(ProjectionError::new("fold", address.as_str(), "structural element has no definition origin"));
                },
            };
            let ghost before = *self;
            let ghost e = element;
            match self.add(&address, element, origin) {
                Ok(()) => {},
                Err(e) => {
                    proof {
                        self.lemma_holds_within(start, keys, taken as int);
                        if keys.take(taken as int).contains(address@) {
                            let x = choose|x: int| 0 <= x < keys.take(taken as int).len() && keys.take(taken as int)[x] == address@;
                            assert(seq_lt(keys[x], keys[taken as int]));
                            lemma_seq_lt_irreflexive(address@);
                        }
                        assert(start.holds(address@));
                        assert(keys.contains(address@));
                        assert(other_view.holds(address@));
                    }
                    return Err(e);
                },
            }
            proof {
                let prev = keys.take(taken as int);
                let next = keys.take(taken + 1);
                assert(next =~= prev + seq![address@]);
                lemma_concat_contains(prev, seq![address@]);
                lemma_single_contains(address@);
                assert(entries@ =~= all.subrange(taken + 1, all.len() as int));
                assert forall|gs: Seq<Seq<char>>|
                    groups_within(start, gs) && groups_within(other_view, gs) implies #[trigger] groups_within(*self, gs) by {
                    assert(groups_within(before, gs));
                    if e is Group {
                        assert(other_view.elements.lookup(address@) matches Some(Element::Group(_)));
                    }
                }
            }
            taken = taken + 1;
        }
        proof {
            assert(keys.take(taken as int) =~= keys);
            assert forall|q: Seq<char>| #[trigger] other.holds(q) <==> keys.contains(q) by {}
        }
        Ok(())
    }

    proof fn lemma_holds_within(&self, start: StructuralReprojection, keys: Seq<Seq<char>>, taken: int)
        requires
            0 <= taken <= keys.len(),
            forall|q: Seq<char>| #[trigger] self.holds(q) <==> (start.holds(q) || keys.take(taken).contains(q)),
        ensures
            forall|q: Seq<char>| #[trigger] self.holds(q) ==> start.holds(q) || keys.contains(q),
    {
        assert forall|q: Seq<char>| #[trigger] self.holds(q) implies start.holds(q) || keys.contains(q) by {
            if keys.take(taken).contains(q) {
                let x = choose|x: int| 0 <= x < keys.take(taken).len() && keys.take(taken)[x] == q;
                assert(keys[x] == q);
            }
        }
    }

    /// The element at an address, with its definition site.
    fn selected(&self, address: &Address) -> (r: Result<(Element, Site), ProjectionError>)
        ensures
            r is Ok <==> self.holds(address@) && self.origins.contains(address@),
            r matches Ok((e, o)) ==> (self.elements.lookup(address@) matches Some(x) && element_same(e, x))
                && (self.origins.lookup(address@) matches Some(y) && o.view() == y.view()),
    {
        let element = match self.elements.get(address) {
            Some(e) => copy_element(e),
            None => {
                return Err(ProjectionError::new("select", address.as_str(), "selected address is not present in the declared inputs"));
            },
        };
        match self.origins.get(address) {
            Some(o) => Ok((element, o.duplicate())),
            None => Err(ProjectionError::new("select", address.as_str(), "selected address has no definition origin")),
        }
    }
}

/// A copy of an element, field by field.
fn copy_element(e: &Element) -> (r: Element)
    ensures
        element_same(r, *e),
{
    match e {
        Element::Description(a) => Element::Description(a.clone()),
        Element::Block(b) => Element::Block(b.clone()),
        Element::Port(p) => Element::Port(p.clone()),
        Element::Connection(c) => Element::Connection(c.clone()),
        Element::Group(g) => Element::Group(g.clone()),
    }
}

fn contains_address(v: &Vec<Address>, a: &Address) -> (b: bool)
    ensures
        b == v@.map_values(|x: Address| x@).contains(a@),
{
    let mut i: usize = 0;
    while i < v.len()
        invariant
            i <= v@.len(),
            forall|j: int| 0 <= j < i ==> v@[j]@ != a@,
        decreases v@.len() - i,
    {
        if v[i].same(a) {
            proof {
                assert(v@.map_values(|x: Address| x@)[i as int] == a@);
            }
            return true;
        }
        i = i + 1;
    }
    proof {
        if v@.map_values(|x: Address| x@).contains(a@) {
            let views = v@.map_values(|x: Address| x@);
            let j = choose|j: int| 0 <= j < views.len() && #[trigger] views[j] == a@;
            assert(v@[j]@ == a@);
        }
    }
    false
}

/// Selects an address from the inputs; a group, the first time it is
/// selected, also selects its members. Nesting is followed at most `fuel`
/// groups deep, which the number of groups never exceeds.
fn select_address(
    inputs: &StructuralReprojection,
    selected: &mut StructuralReprojection,
    address: &Address,
    expanded: &mut Vec<Address>,
    fuel: usize,
) -> (r: Result<(), ProjectionError>)
    requires
        old(selected).wf(),
    ensures
        final(selected).wf(),
        r is Ok ==> final(selected).holds(address@),
        forall|q: Seq<char>| #[trigger] old(selected).holds(q) ==> final(selected).holds(q),
        forall|q: Seq<char>| #[trigger] final(selected).holds(q) ==> old(selected).holds(q) || inputs.holds(q),
        !(inputs.holds(address@) && inputs.origins.contains(address@)) ==> r is Err,
        inputs.holds(address@) && inputs.origins.contains(address@) && !old(selected).holds(address@) && !(
        inputs.elements.lookup(address@) matches Some(Element::Group(_))) ==> r is Ok,
        r is Ok && !(inputs.elements.lookup(address@) matches Some(Element::Group(_))) ==> forall|q: Seq<char>|
            #[trigger] final(selected).holds(q) <==> old(selected).holds(q) || q == address@,
    forall|q: Seq<char>| old(selected).holds(q) ==> #[trigger] final(selected).elements.lookup(q) == old(selected).elements.lookup(q),
    decreases fuel,
{
    let (element, origin) = inputs.selected(address)?;
    let members = match &element {
        Element::Group(group) => {
            if !contains_address(expanded, address) {
                expanded.push(address.clone());
                Some(group.members.clone())
            } else {
                None
            }
        },
        _ => None,
    };
    proof {
        if members is Some {
            assert(element is Group);
            assert(inputs.elements.lookup(address@) matches Some(Element::Group(_)));
        }
    }
    selected.add(address, element, origin)?;
    if let Some(members) = members {
        if fuel > 0 {
            let ghost start = *old(selected);
            let mut i: usize = 0;
            while i < members.len()
                invariant
                    selected.wf(),
                    start == *old(selected),
                    fuel > 0,
                    inputs.elements.lookup(address@) matches Some(Element::Group(_)),
                    i <= members@.len(),
                    selected.holds(address@),
                    forall|q: Seq<char>| #[trigger] start.holds(q) ==> selected.holds(q),
                    forall|q: Seq<char>| #[trigger] selected.holds(q) ==> start.holds(q) || inputs.holds(q),
                    forall|q: Seq<char>| start.holds(q) ==> #[trigger] selected.elements.lookup(q) == start.elements.lookup(q),
                decreases members@.len() - i,
            {
                let ghost before = *selected;
                let r = select_address(inputs, selected, &members[i], expanded, fuel - 1);
                proof {
                    assert forall|q: Seq<char>| #[trigger] start.holds(q) implies selected.holds(q) by {
                        assert(before.holds(q));
                    }
                    assert forall|q: Seq<char>| #[trigger] selected.holds(q) implies start.holds(q) || inputs.holds(q) by {
                        if !before.holds(q) {
                            assert(inputs.holds(q));
                        }
                    }
                    assert(selected.holds(address@)) by {
                        assert(before.holds(address@));
                    }
                }
                if r.is_err() {
                    return r;
                }
                i = i + 1;
            }
        }
    }
    Ok(())
}

/// `q` is a connection among `members`, or among the members of the groups
/// nested in them, at most `fuel` groups deep.
pub open spec fn group_connection(s: StructuralReprojection, members: Seq<Address>, fuel: nat, q: Seq<char>) -> bool
    decreases fuel, members.len(),
{
    if members.len() == 0 {
        false
    } else {
        group_connection(s, members.drop_last(), fuel, q) || match s.elements.lookup(members.last()@) {
            Some(Element::Connection(_)) => members.last()@ == q,
            Some(Element::Group(inner)) => fuel > 0 && group_connection(s, inner.members@, (fuel - 1) as nat, q),
            _ => false,
        }
    }
}

/// Only connections are gathered.
proof fn lemma_group_connection_is_connection(s: StructuralReprojection, members: Seq<Address>, fuel: nat, q: Seq<char>)
    requires
        group_connection(s, members, fuel, q),
    ensures
        s.elements.lookup(q) matches Some(Element::Connection(_)),
    decreases fuel, members.len(),
{
    if members.len() > 0 {
        if group_connection(s, members.drop_last(), fuel, q) {
            lemma_group_connection_is_connection(s, members.drop_last(), fuel, q);
        } else {
            match s.elements.lookup(members.last()@) {
                Some(Element::Group(inner)) => {
                    lemma_group_connection_is_connection(s, inner.members@, (fuel - 1) as nat, q);
                },
                _ => {},
            }
        }
    }
}

/// Gathers the connections of a group and of the groups nested in it, at
/// most `fuel` groups deep, which the number of elements never exceeds.
fn collect_group_connections(
    structural: &StructuralReprojection,
    group: &Group,
    connections: &mut OrderedMap<Address, bool>,
    fuel: usize,
)
    ensures
        forall|q: Seq<char>| #[trigger] final(connections).contains(q) ==> old(connections).contains(q) || structural.holds(q),
        forall|q: Seq<char>|
            #[trigger] final(connections).contains(q) <==> old(connections).contains(q) || group_connection(
                *structural,
                group.members@,
                fuel as nat,
                q,
            ),
    decreases fuel,
{
    let ghost start = *old(connections);
    let ghost members = group.members@;
    let mut i: usize = 0;
    proof {
        assert(members.take(0) =~= Seq::<Address>::empty());
    }
    while i < group.members.len()
        invariant
            start == *old(connections),
            members == group.members@,
            i <= group.members@.len(),
            forall|q: Seq<char>| #[trigger] connections.contains(q) ==> start.contains(q) || structural.holds(q),
            forall|q: Seq<char>|
                #[trigger] connections.contains(q) <==> start.contains(q) || group_connection(
                    *structural,
                    members.take(i as int),
                    fuel as nat,
                    q,
                ),
        decreases group.members@.len() - i,
    {
        let member = &group.members[i];
        let ghost t = members.take(i + 1);
        proof {
            assert(t.drop_last() =~= members.take(i as int));
            assert(t.last() == *member);
        }
        match structural.elements.get(member) {
            Some(Element::Connection(_)) => {
                let ghost before = *connections;
                connections.insert(member.clone(), true);
                proof {
                    assert forall|q: Seq<char>| #[trigger] connections.contains(q) implies start.contains(q) || structural.holds(q) by {
                        if q != member@ {
                            assert(before.contains(q));
                        }
                    }
                    assert forall|q: Seq<char>| #[trigger] connections.contains(q) <==> start.contains(q) || group_connection(
                        *structural,
                        t,
                        fuel as nat,
                        q,
                    ) by {
                        if q != member@ {
                            assert(connections.contains(q) == before.contains(q));
                        }
                    }
                }
            },
            Some(Element::Group(inner)) => {
                if fuel > 0 {
                    let ghost before = *connections;
                    collect_group_connections(structural, inner, connections, fuel - 1);
                    proof {
                        assert forall|q: Seq<char>| #[trigger] connections.contains(q) implies start.contains(q) || structural.holds(q) by {
                            if !before.contains(q) {
                                assert(structural.holds(q));
                            }
                        }
                        assert forall|q: Seq<char>| #[trigger] connections.contains(q) <==> start.contains(q) || group_connection(
                            *structural,
                            t,
                            fuel as nat,
                            q,
                        ) by {
                            assert(before.contains(q) <==> start.contains(q) || group_connection(
                                *structural,
                                members.take(i as int),
                                fuel as nat,
                                q,
                            ));
                        }
                    }
                } else {
                    proof {
                        assert forall|q: Seq<char>| #[trigger] connections.contains(q) <==> start.contains(q) || group_connection(
                            *structural,
                            t,
                            fuel as nat,
                            q,
                        ) by {
                            assert(connections.contains(q) <==> start.contains(q) || group_connection(
                                *structural,
                                members.take(i as int),
                                fuel as nat,
                                q,
                            ));
                        }
                    }
                }
            },
            _ => {
                proof {
                    assert forall|q: Seq<char>| #[trigger] connections.contains(q) <==> start.contains(q) || group_connection(
                        *structural,
                        t,
                        fuel as nat,
                        q,
                    ) by {
                        assert(connections.contains(q) <==> start.contains(q) || group_connection(
                            *structural,
                            members.take(i as int),
                            fuel as nat,
                            q,
                        ));
                    }
                }
            },
        }
        i = i + 1;
    }
    proof {
        assert(members.take(i as int) =~= members);
    }
}

/// Every address the projection inverts holds a group.
pub open spec fn inverts_groups(s: StructuralReprojection, invert: Seq<Address>) -> bool {
    forall|i: int| 0 <= i < invert.len() ==> (#[trigger] s.elements.lookup(invert[i]@)) matches Some(Element::Group(_))
}

/// `q` is a connection of one of the inverted groups, or of a group nested
/// in one.
pub open spec fn inverted(s: StructuralReprojection, invert: Seq<Address>, q: Seq<char>) -> bool {
    exists|i: int| 0 <= i < invert.len() && #[trigger] group_inverts(s, invert[i], q)
}

/// `q` is a connection of the group at `a`, or of a group nested in it.
pub open spec fn group_inverts(s: StructuralReprojection, a: Address, q: Seq<char>) -> bool {
    match s.elements.lookup(a@) {
        Some(Element::Group(g)) => group_connection(s, g.members@, s.elements.len_spec(), q),
        _ => false,
    }
}

/// `n` is the connection `o` with its ends exchanged.
pub open spec fn reversed(n: Element, o: Element) -> bool {
    &&& o matches Element::Connection(c)
    &&& n matches Element::Connection(d)
    &&& d.address@ == c.address@
    &&& label_same(d.label, c.label)
    &&& d.source@ == c.destination@
    &&& d.destination@ == c.source@
    &&& parameters_same(d.extensions@, c.extensions@)
}

/// Reverses the connections of every group the projection inverts,
/// including those of nested groups; each connection is reversed once.
fn apply_invert(structural: &mut StructuralReprojection, projection: &Projection) -> (r: Result<(), ProjectionError>)
    requires
        old(structural).wf(),
    ensures
        final(structural).wf(),
        forall|q: Seq<char>| #[trigger] final(structural).holds(q) <==> old(structural).holds(q),
        r is Ok <==> inverts_groups(*old(structural), projection.invert@),
        r is Err ==> *final(structural) == *old(structural),
        final(structural).origins == old(structural).origins,
        r is Ok ==> forall|q: Seq<char>|
            #[trigger] inverted(*old(structural), projection.invert@, q) ==> (final(structural).elements.lookup(q) matches Some(
                n,
            ) && old(structural).elements.lookup(q) matches Some(o) && reversed(n, o)),
        r is Ok ==> forall|q: Seq<char>|
            !inverted(*old(structural), projection.invert@, q) ==> #[trigger] final(structural).elements.lookup(q)
                == old(structural).elements.lookup(q),
{
    let mut connections: OrderedMap<Address, bool> = OrderedMap::new();
    let fuel = structural.elements.len();
    let ghost invert = projection.invert@;
    let mut i: usize = 0;
    proof {
        assert forall|q: Seq<char>| !#[trigger] connections.contains(q) by {
            assert(connections.keys() =~= Seq::<Seq<char>>::empty());
        }
    }
    while i < projection.invert.len()
        invariant
            structural.wf(),
            *structural == *old(structural),
            invert == projection.invert@,
            fuel == structural.elements.len_spec(),
            i <= projection.invert@.len(),
            forall|q: Seq<char>| #[trigger] connections.contains(q) ==> structural.holds(q),
            forall|q: Seq<char>| #[trigger] connections.contains(q) <==> inverted(*structural, invert.take(i as int), q),
            inverts_groups(*structural, invert.take(i as int)),
        decreases projection.invert@.len() - i,
    {
        let group_address = &projection.invert[i];
        let ghost t = invert.take(i + 1);
        proof {
            assert(t[i as int] == *group_address);
            assert forall|x: int| 0 <= x < i implies t[x] == invert.take(i as int)[x] by {}
        }
        match structural.elements.get(group_address) {
            Some(Element::Group(group)) => {
                let ghost before = connections;
                collect_group_connections(structural, group, &mut connections, fuel);
                proof {
                    assert forall|q: Seq<char>| #[trigger] connections.contains(q) <==> inverted(*structural, t, q) by {
                        if inverted(*structural, invert.take(i as int), q) {
                            let x = choose|x: int|
                                0 <= x < invert.take(i as int).len() && #[trigger] group_inverts(
                                    *structural,
                                    invert.take(i as int)[x],
                                    q,
                                );
                            assert(t[x] == invert.take(i as int)[x]);
                            assert(group_inverts(*structural, t[x], q));
                        }
                        if group_connection(*structural, group.members@, fuel as nat, q) {
                            assert(group_inverts(*structural, t[i as int], q));
                        }
                        if inverted(*structural, t, q) {
                            let x = choose|x: int| 0 <= x < t.len() && #[trigger] group_inverts(*structural, t[x], q);
                            if x < i {
                                assert(t[x] == invert.take(i as int)[x]);
                                assert(group_inverts(*structural, invert.take(i as int)[x], q));
                            }
                        }
                    }
                    assert forall|x: int| 0 <= x < t.len() implies (#[trigger] structural.elements.lookup(t[x]@)) matches Some(
                        Element::Group(_),
                    ) by {
                        if x < i {
                            assert(t[x] == invert.take(i as int)[x]);
                        }
                    }
                }
            },
            _ => {
                proof {
                    assert(!(structural.elements.lookup(invert[i as int]@) matches Some(Element::Group(_))));
                }
                return Err(ProjectionError::new("invert", group_address.as_str(), "invert target is not a selected group"));
            },
        }
        i = i + 1;
    }
    proof {
        assert(invert.take(i as int) =~= invert);
    }
    let ghost start = *structural;
    let ghost keys = connections.keys();
    let mut k: usize = 0;
    while k < connections.len()
        invariant
            structural.wf(),
            start == *old(structural),
            invert == projection.invert@,
            keys == connections.keys(),
            forall|q: Seq<char>| #[trigger] structural.holds(q) <==> start.holds(q),
            structural.origins == start.origins,
            k <= connections.entries().len(),
            forall|q: Seq<char>| #[trigger] connections.contains(q) <==> inverted(start, invert, q),
            forall|q: Seq<char>|
                #[trigger] keys.take(k as int).contains(q) ==> (structural.elements.lookup(q) matches Some(n)
                    && start.elements.lookup(q) matches Some(o) && reversed(n, o)),
            forall|q: Seq<char>|
                !keys.take(k as int).contains(q) ==> #[trigger] structural.elements.lookup(q) == start.elements.lookup(q),
        decreases connections.entries().len() - k,
    {
        let address = connections.key_at(k);
        let ghost here = address@;
        proof {
            assert(keys[k as int] == here);
            assert(connections.contains(here));
            if keys.take(k as int).contains(here) {
                let x = choose|x: int| 0 <= x < keys.take(k as int).len() && keys.take(k as int)[x] == here;
                assert(seq_lt(keys[x], keys[k as int]));
                lemma_seq_lt_irreflexive(here);
            }
            let y = choose|y: int| 0 <= y < invert.len() && #[trigger] group_inverts(start, invert[y], here);
            if let Some(Element::Group(g)) = start.elements.lookup(invert[y]@) {
                lemma_group_connection_is_connection(start, g.members@, start.elements.len_spec(), here);
            }
        }
        let swapped = match structural.elements.get(address) {
            Some(Element::Connection(connection)) => {
                let mut c = connection.clone();
                std::mem::swap(&mut c.source, &mut c.destination);
                Some(c)
            },
            _ => None,
        };
        if let Some(c) = swapped {
            let ghost before = *structural;
            proof {
                assert(before.elements.contains(address@));
            }
            structural.elements.insert(address.clone(), Element::Connection(c));
            proof {
                assert forall|q: Seq<char>| #[trigger] structural.holds(q) <==> start.holds(q) by {
                    assert(structural.elements.contains(q) <==> (before.elements.contains(q) || q == address.key()));
                    assert(before.holds(q) <==> start.holds(q));
                    if q == address@ {
                        assert(before.holds(q));
                    }
                }
                assert forall|q: Seq<char>| #[trigger] structural.elements.contains(q) implies structural.origins.contains(q) by {
                    assert(before.elements.contains(q));
                }
                assert(keys.take(k + 1) =~= keys.take(k as int).push(here));
                assert forall|q: Seq<char>| #[trigger] keys.take(k + 1).contains(q) implies (structural.elements.lookup(q) matches Some(n)
                    && start.elements.lookup(q) matches Some(o) && reversed(n, o)) by {
                    if q != here {
                        assert(keys.take(k as int).contains(q));
                    }
                }
                assert forall|q: Seq<char>| !keys.take(k + 1).contains(q) implies #[trigger] structural.elements.lookup(q)
                    == start.elements.lookup(q) by {
                    assert(keys.take(k + 1)[k as int] == here);
                    if keys.take(k as int).contains(q) {
                        let x = choose|x: int| 0 <= x < keys.take(k as int).len() && keys.take(k as int)[x] == q;
                        assert(keys.take(k + 1)[x] == q);
                    }
                }
            }
        }
        k = k + 1;
    }
    proof {
        assert(keys.take(k as int) =~= keys);
        assert forall|q: Seq<char>| #[trigger] inverted(start, invert, q) implies (structural.elements.lookup(q) matches Some(n)
            && start.elements.lookup(q) matches Some(o) && reversed(n, o)) by {
            assert(connections.contains(q));
            assert(keys.take(k as int).contains(q));
        }
        assert forall|q: Seq<char>| !inverted(start, invert, q) implies #[trigger] structural.elements.lookup(q)
            == start.elements.lookup(q) by {
            assert(!connections.contains(q));
            assert(!keys.take(k as int).contains(q));
        }
    }
    Ok(())
}

/// What identifies a decoration: its target, and its parameter's namespace
/// and name.
pub open spec fn decoration_view(d: Decoration) -> (Seq<char>, Seq<char>, Seq<char>) {
    (d.target@, d.parameter.namespace@, d.parameter.name@)
}

pub open spec fn decoration_views(s: Seq<Decoration>) -> Seq<(Seq<char>, Seq<char>, Seq<char>)> {
    s.map_values(|d: Decoration| decoration_view(d))
}

/// The inherited decorations whose targets the structure holds, in order.
pub open spec fn kept_decorations(inherited: Seq<Decoration>, s: StructuralReprojection) -> Seq<(Seq<char>, Seq<char>, Seq<char>)>
    decreases inherited.len(),
{
    if inherited.len() == 0 {
        Seq::empty()
    } else {
        kept_decorations(inherited.drop_last(), s) + if s.holds(inherited.last().target@) {
            seq![decoration_view(inherited.last())]
        } else {
            Seq::empty()
        }
    }
}

/// How many decorations carry the parameter `name` of namespace `ns`.
pub open spec fn count_carrying(views: Seq<(Seq<char>, Seq<char>, Seq<char>)>, ns: Seq<char>, name: Seq<char>) -> nat
    decreases views.len(),
{
    if views.len() == 0 {
        0
    } else {
        count_carrying(views.drop_last(), ns, name) + if views.last().1 == ns && views.last().2 == name {
            1nat
        } else {
            0nat
        }
    }
}

/// A check's result: its name and expectation, the number of decorations
/// carrying its parameter, and whether that number meets the expectation.
pub open spec fn check_result_ok(r: CheckResult, c: crate::projection::Check, views: Seq<(Seq<char>, Seq<char>, Seq<char>)>) -> bool {
    &&& r.name@ == c.name@
    &&& r.expected == c.expected
    &&& r.observed == count_carrying(views, c.namespace@, c.parameter@)
    &&& r.passed == match c.expected {
        ExpectedCardinality::Empty => r.observed == 0,
        ExpectedCardinality::Nonempty => r.observed > 0,
    }
}

/// The `i`th decoration is the first whose target `s` does not hold.
pub open spec fn missing_decoration(s: StructuralReprojection, decorate: Seq<Decoration>, i: int) -> bool {
    &&& 0 <= i < decorate.len()
    &&& !s.holds(decorate[i].target@)
    &&& forall|j: int| 0 <= j < i ==> s.holds(#[trigger] decorate[j].target@)
}

/// Keeps the inherited decorations whose targets the structure holds, adds
/// the projection's own, and evaluates its checks.
fn finalize(structural: StructuralReprojection, inherited: Vec<Decoration>, projection: &Projection) -> (r: Result<FinalizedReprojection, ProjectionError>)
    ensures
        r is Err <==> exists|i: int| 0 <= i < projection.decorate@.len() && !structural.holds(#[trigger] projection.decorate@[i].target@),
        r matches Err(e) ==> exists|i: int|
            #[trigger] missing_decoration(structural, projection.decorate@, i) && error_is(
                e,
                "decorate"@,
                projection.decorate@[i].target@,
                "decoration target is not in the folded structural result"@,
            ),
        r matches Ok(f) ==> {
            &&& f.structural == structural
            &&& decoration_views(f.decorations@) == kept_decorations(inherited@, structural) + decoration_views(projection.decorate@)
            &&& f.checks@.len() == projection.checks@.len()
            &&& forall|i: int| 0 <= i < f.checks@.len() ==> check_result_ok(#[trigger] f.checks@[i], projection.checks@[i], decoration_views(f.decorations@))
        },
{
    let mut rest = inherited;
    let ghost all = rest@;
    let mut decorations: Vec<Decoration> = Vec::new();
    let mut taken: usize = 0;
    let total = rest.len();
    while rest.len() > 0
        invariant
            total == all.len(),
            taken <= all.len(),
            rest@ == all.subrange(taken as int, all.len() as int),
            decoration_views(decorations@) == kept_decorations(all.take(taken as int), structural),
        decreases rest@.len(),
    {
        let d = rest.remove(0);
        proof {
            assert(all[taken as int] == d);
            assert(all.take(taken + 1).drop_last() =~= all.take(taken as int));
            assert(all.take(taken + 1).last() == d);
            assert(rest@ =~= all.subrange(taken + 1, all.len() as int));
        }
        if structural.elements.contains_key(&d.target) {
            let ghost before = decorations@;
            decorations.push(d);
            proof {
                assert(decoration_views(decorations@) =~= decoration_views(before).push(decoration_view(d)));
                assert(decoration_views(decorations@) =~= kept_decorations(all.take(taken + 1), structural));
            }
        } else {
            proof {
                assert(kept_decorations(all.take(taken + 1), structural) =~= kept_decorations(all.take(taken as int), structural));
            }
        }
        taken = taken + 1;
    }
    proof {
        assert(all.take(taken as int) =~= all);
    }
    let ghost kept = decoration_views(decorations@);
    let mut i: usize = 0;
    while i < projection.decorate.len()
        invariant
            i <= projection.decorate@.len(),
            decoration_views(decorations@) == kept + decoration_views(projection.decorate@.take(i as int)),
            forall|j: int| 0 <= j < i ==> structural.holds(#[trigger] projection.decorate@[j].target@),
        decreases projection.decorate@.len() - i,
    {
        let d = &projection.decorate[i];
        if !structural.elements.contains_key(&d.target) {
            proof {
                assert(missing_decoration(structural, projection.decorate@, i as int));
            }
            return Err(ProjectionError::new("decorate", d.target.as_str(), "decoration target is not in the folded structural result"));
        }
        let ghost before = decorations@;
        decorations.push(d.clone());
        proof {
            assert(decoration_views(decorations@) =~= decoration_views(before).push(decoration_view(*d)));
            assert(decoration_views(projection.decorate@.take(i + 1)) =~= decoration_views(projection.decorate@.take(i as int)).push(decoration_view(*d)));
        }
        i = i + 1;
    }
    proof {
        assert(projection.decorate@.take(i as int) =~= projection.decorate@);
    }
    let ghost views = decoration_views(decorations@);
    let mut checks: Vec<CheckResult> = Vec::new();
    let mut c: usize = 0;
    while c < projection.checks.len()
        invariant
            views == decoration_views(decorations@),
            c <= projection.checks@.len(),
            checks@.len() == c,
            forall|j: int| 0 <= j < c ==> check_result_ok(#[trigger] checks@[j], projection.checks@[j], views),
        decreases projection.checks@.len() - c,
    {
        let check = &projection.checks[c];
        let mut observed: usize = 0;
        let mut j: usize = 0;
        while j < decorations.len()
            invariant
                views == decoration_views(decorations@),
                j <= decorations@.len(),
                observed <= j,
                observed == count_carrying(views.take(j as int), check.namespace@, check.parameter@),
            decreases decorations@.len() - j,
        {
            proof {
                assert(views.take(j + 1).drop_last() =~= views.take(j as int));
                assert(views.take(j + 1).last() == decoration_view(decorations@[j as int]));
            }
            if decorations[j].parameter.namespace.same(&check.namespace) && str_eq(decorations[j].parameter.name.as_str(), check.parameter.as_str()) {
                observed = observed + 1;
            }
            j = j + 1;
        }
        proof {
            assert(views.take(j as int) =~= views);
        }
        let passed = match check.expected {
            ExpectedCardinality::Empty => observed == 0,
            ExpectedCardinality::Nonempty => observed > 0,
        };
        checks.push(CheckResult { name: owned(check.name.as_str()), expected: check.expected, observed, passed });
        c = c + 1;
    }
    Ok(FinalizedReprojection { structural, decorations, checks })
}

/// Every inherited decoration kept has a target the structure holds.
proof fn lemma_kept_held(inherited: Seq<Decoration>, s: StructuralReprojection)
    ensures
        forall|i: int| 0 <= i < kept_decorations(inherited, s).len() ==> s.holds(#[trigger] kept_decorations(inherited, s)[i].0),
    decreases inherited.len(),
{
    if inherited.len() > 0 {
        lemma_kept_held(inherited.drop_last(), s);
        let prev = kept_decorations(inherited.drop_last(), s);
        let all = kept_decorations(inherited, s);
        assert forall|i: int| 0 <= i < all.len() implies s.holds(#[trigger] all[i].0) by {
            if i < prev.len() {
                assert(all[i] == prev[i]);
            }
        }
    }
}

/// The first layer with a name.
pub open spec fn first_layer_named(layers: Seq<Layer>, name: Seq<char>) -> Option<int>
    decreases layers.len(),
{
    if layers.len() == 0 {
        None
    } else {
        match first_layer_named(layers.drop_last(), name) {
            Some(i) => Some(i),
            None => if layers.last().name@ == name {
                Some(layers.len() - 1)
            } else {
                None
            },
        }
    }
}

fn find_layer(description: &Description, name: &str) -> (r: Result<usize, ProjectionError>)
    ensures
        match r {
            Ok(i) => first_layer_named(description.layers@, name@) == Some(i as int) && i < description.layers@.len(),
            Err(e) => first_layer_named(description.layers@, name@) is None && error_is(e, "select"@, name@, "layer does not exist"@),
        },
{
    let mut i: usize = 0;
    while i < description.layers.len()
        invariant
            i <= description.layers@.len(),
            first_layer_named(description.layers@.take(i as int), name@) is None,
        decreases description.layers@.len() - i,
    {
        proof {
            assert(description.layers@.take(i + 1).drop_last() =~= description.layers@.take(i as int));
        }
        if str_eq(description.layers[i].name.as_str(), name) {
            proof {
                lemma_first_layer_prefix(description.layers@, i as int);
            }
            return Ok(i);
        }
        i = i + 1;
    }
    proof {
        assert(description.layers@.take(i as int) =~= description.layers@);
    }
    Err(ProjectionError::new("select", name, "layer does not exist"))
}

proof fn lemma_first_layer_prefix(layers: Seq<Layer>, i: int)
    requires
        0 <= i < layers.len(),
        first_layer_named(layers.take(i + 1), layers[i].name@) == Some(i),
    ensures
        first_layer_named(layers, layers[i].name@) == Some(i),
    decreases layers.len(),
{
    if layers.len() > i + 1 {
        assert(layers.drop_last().take(i + 1) =~= layers.take(i + 1));
        lemma_first_layer_prefix(layers.drop_last(), i);
    } else {
        assert(layers.take(i + 1) =~= layers);
    }
}

/// The addresses a selection item selects or defines.
pub open spec fn item_addresses(item: SelectItem, layer: Seq<char>) -> Seq<Seq<char>> {
    match item {
        SelectItem::Use(addresses) => addresses@.map_values(|a: Address| a@),
        SelectItem::GenerateBlock(b) => entry_addresses(block_defs(b, Some(layer))),
        SelectItem::GenerateConnection(c) => seq![c.address@],
        SelectItem::GenerateGroup(g) => seq![g.address@],
    }
}

/// An error of stage `stage` about `identifier`, for the reason `message`.
pub open spec fn error_is(e: ProjectionError, stage: Seq<char>, identifier: Seq<char>, message: Seq<char>) -> bool {
    &&& e.stage@ == stage
    &&& e.identifier matches Some(i) && i@ == identifier
    &&& e.message@ == message
}

/// What a finished projection of `layer` guarantees: each group it inverts
/// is a group of its structure; when it reads only the core graph, its
/// decorations are exactly its own; its decorations end
/// with the layer's own, in order; every address the
/// layer selects or defines is in its structure, every decoration's target
/// is, and each check result counts the decorations carrying its parameter.
pub open spec fn finalized_ok(f: FinalizedReprojection, layer: Layer) -> bool {
    &&& f.structural.wf()
    &&& inverts_groups(f.structural, layer.projection.invert@)
    &&& f.decorations@.len() >= layer.projection.decorate@.len()
    &&& decoration_views(f.decorations@).subrange(
        f.decorations@.len() - layer.projection.decorate@.len(),
        f.decorations@.len() as int,
    ) == decoration_views(layer.projection.decorate@)
    &&& forall|k: int, q: Seq<char>|
        0 <= k < layer.projection.select@.len() && (#[trigger] item_addresses(layer.projection.select@[k], layer.name@)).contains(q)
            ==> #[trigger] f.structural.holds(q)
    &&& forall|i: int| 0 <= i < f.decorations@.len() ==> f.structural.holds(#[trigger] f.decorations@[i].target@)
    &&& f.checks@.len() == layer.projection.checks@.len()
    &&& forall|i: int|
        0 <= i < f.checks@.len() ==> check_result_ok(#[trigger] f.checks@[i], layer.projection.checks@[i], decoration_views(f.decorations@))
    &&& (forall|j: int| 0 <= j < layer.inputs@.len() ==> #[trigger] layer.inputs@[j] is Core) ==> decoration_views(f.decorations@)
        == decoration_views(layer.projection.decorate@)
}

/// The addresses the items select or define, in order.
pub open spec fn items_addresses(items: Seq<SelectItem>, layer: Seq<char>) -> Seq<Seq<char>>
    decreases items.len(),
{
    if items.len() == 0 {
        Seq::empty()
    } else {
        items_addresses(items.drop_last(), layer) + item_addresses(items.last(), layer)
    }
}

/// A layer whose evaluation cannot fail: it reads nothing, or only a core
/// graph whose addresses are distinct; it uses only core elements that are
/// not groups and generates the rest, naming each address once; it inverts
/// only groups it generates whose members are connections it generates, and
/// decorates only what it selects.
pub open spec fn plain_layer(d: Description, layer: Layer) -> bool {
    let all = items_addresses(layer.projection.select@, layer.name@);
    &&& plain_structure(d, layer)
    &&& forall|i: int| 0 <= i < layer.projection.decorate@.len() ==> all.contains(#[trigger] layer.projection.decorate@[i].target@)
}

/// A layer whose structure always evaluates: a plain layer, its decorations
/// aside.
pub open spec fn plain_structure(d: Description, layer: Layer) -> bool {
    let all = items_addresses(layer.projection.select@, layer.name@);
    &&& (layer.inputs@.len() == 0 || (layer.inputs@.len() == 1 && layer.inputs@[0] is Core && !repeats_address(
        core_definition_entries(d),
    )))
    &&& forall|k: int, q: Seq<char>|
        #![trigger item_addresses(layer.projection.select@[k], layer.name@).contains(q)]
        0 <= k < layer.projection.select@.len() && layer.projection.select@[k] is Use && item_addresses(
            layer.projection.select@[k],
            layer.name@,
        ).contains(q) ==> layer.inputs@.len() == 1 && entry_addresses(core_definition_entries(d)).contains(q)
            && !core_group_addresses(d).contains(q)
    &&& addresses_distinct(all)
    &&& forall|i: int|
        0 <= i < layer.projection.invert@.len() ==> #[trigger] inverts_generated(layer.projection.select@, layer.projection.invert@[i]@)
}

/// The `i`th decoration of the layer is the first whose target the layer
/// neither uses nor generates.
pub open spec fn undecorated_at(layer: Layer, i: int) -> bool {
    let all = items_addresses(layer.projection.select@, layer.name@);
    &&& 0 <= i < layer.projection.decorate@.len()
    &&& !all.contains(layer.projection.decorate@[i].target@)
    &&& forall|j: int| 0 <= j < i ==> all.contains(#[trigger] layer.projection.decorate@[j].target@)
}

/// The first layer named `name` is plain, its decorations aside.
pub open spec fn plain_structure_named(d: Description, name: Seq<char>) -> bool {
    first_layer_named(d.layers@, name) matches Some(l) && plain_structure(d, d.layers@[l])
}

/// The first layer named `name` is plain.
pub open spec fn plain_named(d: Description, name: Seq<char>) -> bool {
    first_layer_named(d.layers@, name) matches Some(l) && plain_layer(d, d.layers@[l])
}

/// The addresses the first layer named `name` selects or generates.
pub open spec fn selected_addresses(layers: Seq<Layer>, name: Seq<char>) -> Seq<Seq<char>> {
    match first_layer_named(layers, name) {
        Some(l) => items_addresses(layers[l].projection.select@, layers[l].name@),
        None => Seq::empty(),
    }
}

/// The connection the items generate at `a`, if any.
pub open spec fn generated_connection(items: Seq<SelectItem>, a: Seq<char>) -> Option<Connection>
    decreases items.len(),
{
    if items.len() == 0 {
        None
    } else if let SelectItem::GenerateConnection(c) = items.last() {
        if c.address@ == a {
            Some(c)
        } else {
            generated_connection(items.drop_last(), a)
        }
    } else {
        generated_connection(items.drop_last(), a)
    }
}

/// The group the items generate at `a`, if any.
pub open spec fn generated_group(items: Seq<SelectItem>, a: Seq<char>) -> Option<Group>
    decreases items.len(),
{
    if items.len() == 0 {
        None
    } else if let SelectItem::GenerateGroup(g) = items.last() {
        if g.address@ == a {
            Some(g)
        } else {
            generated_group(items.drop_last(), a)
        }
    } else {
        generated_group(items.drop_last(), a)
    }
}

/// `a` is a group the items generate, and each of its members is a
/// connection they generate.
pub open spec fn inverts_generated(items: Seq<SelectItem>, a: Seq<char>) -> bool {
    match generated_group(items, a) {
        Some(g) => forall|m: int| 0 <= m < g.members@.len() ==> #[trigger] generated_connection(items, g.members@[m]@) is Some,
        None => false,
    }
}

/// The group the items generate at `a` has `q` among its members.
pub open spec fn group_reaches(items: Seq<SelectItem>, a: Seq<char>, q: Seq<char>) -> bool {
    match generated_group(items, a) {
        Some(g) => member_views(g.members@).contains(q),
        None => false,
    }
}

/// One of the groups the layer inverts has `q` among its members.
pub open spec fn reached(layer: Layer, q: Seq<char>) -> bool {
    exists|i: int|
        0 <= i < layer.projection.invert@.len() && #[trigger] group_reaches(
            layer.projection.select@,
            layer.projection.invert@[i]@,
            q,
        )
}

/// The connection a layer generates at `q` stands in `s` at the same
/// address, its ends exchanged exactly when a group the layer inverts
/// reaches it.
pub open spec fn connection_evaluated(s: StructuralReprojection, layer: Layer, q: Seq<char>) -> bool {
    match generated_connection(layer.projection.select@, q) {
        Some(c) => match s.elements.lookup(q) {
            Some(Element::Connection(d)) => d.address@ == c.address@ && if reached(layer, q) {
                d.source@ == c.destination@ && d.destination@ == c.source@
            } else {
                d.source@ == c.source@ && d.destination@ == c.destination@
            },
            _ => false,
        },
        None => true,
    }
}

/// The connection the items generate at `q`, if any, stands in `s` as
/// generated.
pub open spec fn connection_kept_at(s: StructuralReprojection, items: Seq<SelectItem>, q: Seq<char>) -> bool {
    match generated_connection(items, q) {
        Some(c) => s.elements.lookup(q) matches Some(Element::Connection(d)) && connection_same(d, c),
        None => true,
    }
}

/// The group the items generate at `q`, if any, stands in `s` as generated.
pub open spec fn group_kept_at(s: StructuralReprojection, items: Seq<SelectItem>, q: Seq<char>) -> bool {
    match generated_group(items, q) {
        Some(g) => s.elements.lookup(q) matches Some(Element::Group(h)) && group_same(h, g),
        None => true,
    }
}

/// Every connection and group the items generate stands in `s` as
/// generated.
pub open spec fn generated_kept(s: StructuralReprojection, items: Seq<SelectItem>) -> bool {
    &&& forall|q: Seq<char>| #[trigger] connection_kept_at(s, items, q)
    &&& forall|q: Seq<char>| #[trigger] group_kept_at(s, items, q)
}

/// The first layer named `name`.
pub open spec fn named_layer(layers: Seq<Layer>, name: Seq<char>) -> Layer {
    layers[first_layer_named(layers, name)->0]
}

/// A generated connection or group stands at one of the items' addresses.
proof fn lemma_generated_within(items: Seq<SelectItem>, layer: Seq<char>, q: Seq<char>)
    ensures
        generated_connection(items, q) is Some ==> items_addresses(items, layer).contains(q),
        generated_group(items, q) is Some ==> items_addresses(items, layer).contains(q),
    decreases items.len(),
{
    if items.len() > 0 {
        let d = items.drop_last();
        lemma_generated_within(d, layer, q);
        lemma_concat_contains(items_addresses(d, layer), item_addresses(items.last(), layer));
        match items.last() {
            SelectItem::GenerateConnection(c) => {
                lemma_single_contains(c.address@);
            },
            SelectItem::GenerateGroup(g) => {
                lemma_single_contains(g.address@);
            },
            _ => {},
        }
    }
}

/// Members with the same addresses reach the same connections.
proof fn lemma_group_connection_views(s: StructuralReprojection, m1: Seq<Address>, m2: Seq<Address>, fuel: nat, q: Seq<char>)
    requires
        member_views(m1) == member_views(m2),
    ensures
        group_connection(s, m1, fuel, q) == group_connection(s, m2, fuel, q),
    decreases m1.len(),
{
    assert(m1.len() == member_views(m1).len());
    assert(m2.len() == member_views(m2).len());
    if m1.len() > 0 {
        assert(member_views(m1.drop_last()) =~= member_views(m1).drop_last());
        assert(member_views(m2.drop_last()) =~= member_views(m2).drop_last());
        assert(m1.last()@ == member_views(m1)[m1.len() - 1]);
        assert(m2.last()@ == member_views(m2)[m2.len() - 1]);
        lemma_group_connection_views(s, m1.drop_last(), m2.drop_last(), fuel, q);
    }
}

/// Members that are all connections reach exactly themselves.
proof fn lemma_group_connection_members(s: StructuralReprojection, ms: Seq<Address>, fuel: nat, q: Seq<char>)
    requires
        forall|i: int| 0 <= i < ms.len() ==> (#[trigger] s.elements.lookup(ms[i]@)) matches Some(Element::Connection(_)),
    ensures
        group_connection(s, ms, fuel, q) <==> member_views(ms).contains(q),
    decreases ms.len(),
{
    if ms.len() > 0 {
        let d = ms.drop_last();
        assert forall|i: int| 0 <= i < d.len() implies (#[trigger] s.elements.lookup(d[i]@)) matches Some(Element::Connection(_)) by {
            assert(d[i] == ms[i]);
        }
        lemma_group_connection_members(s, d, fuel, q);
        assert(s.elements.lookup(ms[ms.len() - 1]@) matches Some(Element::Connection(_)));
        assert(member_views(ms) =~= member_views(d).push(ms.last()@));
        if member_views(ms).contains(q) && q != ms.last()@ {
            let x = choose|x: int| 0 <= x < member_views(ms).len() && member_views(ms)[x] == q;
            assert(member_views(d)[x] == q);
        }
        if member_views(d).contains(q) {
            let x = choose|x: int| 0 <= x < member_views(d).len() && member_views(d)[x] == q;
            assert(member_views(ms)[x] == q);
        }
        if q == ms.last()@ {
            assert(member_views(ms)[ms.len() - 1] == q);
        }
    }
}

/// For a generated group whose members are generated connections, the
/// connections it inverts are its members.
proof fn lemma_group_inverts_generated(s: StructuralReprojection, items: Seq<SelectItem>, a: Address, q: Seq<char>)
    requires
        inverts_generated(items, a@),
        generated_kept(s, items),
    ensures
        group_inverts(s, a, q) <==> group_reaches(items, a@, q),
        s.elements.lookup(a@) matches Some(Element::Group(_)),
{
    let g = generated_group(items, a@)->0;
    assert(group_kept_at(s, items, a@));
    let h = s.elements.lookup(a@)->0->Group_0;
    lemma_group_connection_views(s, h.members@, g.members@, s.elements.len_spec(), q);
    assert forall|i: int| 0 <= i < g.members@.len() implies (#[trigger] s.elements.lookup(g.members@[i]@)) matches Some(
        Element::Connection(_),
    ) by {
        assert(generated_connection(items, g.members@[i]@) is Some);
        assert(connection_kept_at(s, items, g.members@[i]@));
    }
    lemma_group_connection_members(s, g.members@, s.elements.len_spec(), q);
}

/// The addresses of the first `m` items begin those of all the items.
proof fn lemma_items_prefix(items: Seq<SelectItem>, layer: Seq<char>, m: int)
    requires
        0 <= m <= items.len(),
    ensures
        items_addresses(items.take(m), layer).len() <= items_addresses(items, layer).len(),
        items_addresses(items, layer).take(items_addresses(items.take(m), layer).len() as int) == items_addresses(
            items.take(m),
            layer,
        ),
    decreases items.len(),
{
    if m == items.len() {
        assert(items.take(m) =~= items);
        assert(items_addresses(items, layer).take(items_addresses(items, layer).len() as int) =~= items_addresses(items, layer));
    } else {
        let d = items.drop_last();
        lemma_items_prefix(d, layer, m);
        assert(d.take(m) =~= items.take(m));
        let a = items_addresses(d, layer);
        let p = items_addresses(items.take(m), layer);
        assert((a + item_addresses(items.last(), layer)).take(p.len() as int) =~= a.take(p.len() as int));
    }
}

/// In a list of distinct addresses that begins with `p` then `i`, the
/// addresses of `i` are distinct and none is in `p`.
proof fn lemma_distinct_split(whole: Seq<Seq<char>>, p: Seq<Seq<char>>, i: Seq<Seq<char>>)
    requires
        addresses_distinct(whole),
        p.len() + i.len() <= whole.len(),
        whole.take((p.len() + i.len()) as int) == p + i,
    ensures
        addresses_distinct(i),
        forall|q: Seq<char>| #[trigger] i.contains(q) ==> !p.contains(q),
{
    let n = (p.len() + i.len()) as int;
    assert forall|a: int| 0 <= a < n implies whole[a] == #[trigger] (p + i)[a] by {
        assert(whole.take(n)[a] == whole[a]);
    }
    assert forall|a: int, b: int| 0 <= a < b < i.len() implies #[trigger] i[a] != #[trigger] i[b] by {
        assert(whole[p.len() + a] == (p + i)[p.len() + a]);
        assert(whole[p.len() + b] == (p + i)[p.len() + b]);
    }
    assert forall|q: Seq<char>| #[trigger] i.contains(q) implies !p.contains(q) by {
        if p.contains(q) {
            let x = choose|x: int| 0 <= x < p.len() && p[x] == q;
            let y = choose|y: int| 0 <= y < i.len() && i[y] == q;
            assert(whole[x] == (p + i)[x]);
            assert(whole[p.len() + y] == (p + i)[p.len() + y]);
        }
    }
}

/// Evaluates the layer named `name`, with `stack` the layers being
/// evaluated on the way to it. Chains of inputs are followed at most `fuel`
/// layers deep; a chain of distinct layers is never longer than the list of
/// layers.
fn evaluate_reprojection(description: &Description, name: &str, stack: &mut Vec<String>, fuel: usize) -> (r: Result<
    FinalizedReprojection,
    ProjectionError,
>)
    ensures
        r matches Ok(f) ==> first_layer_named(description.layers@, name@) matches Some(l) && finalized_ok(f, description.layers@[l]),
        first_layer_named(description.layers@, name@) is None ==> r is Err,
        string_views(old(stack)@).contains(name@) ==> (r matches Err(e) && error_is(
            e,
            "select"@,
            name@,
            "layer input cycle during projection evaluation"@,
        )),
        !string_views(old(stack)@).contains(name@) && first_layer_named(description.layers@, name@) is None ==> (r matches Err(e)
            && error_is(e, "select"@, name@, "layer does not exist"@)),
        !string_views(old(stack)@).contains(name@) && fuel > 0 && plain_named(*description, name@) ==> (r matches Ok(f)
            && (forall|q: Seq<char>| #[trigger] f.structural.holds(q) <==> selected_addresses(description.layers@, name@).contains(q))
            && forall|q: Seq<char>| #[trigger] connection_evaluated(f.structural, named_layer(description.layers@, name@), q)),
        !string_views(old(stack)@).contains(name@) && fuel > 0 && plain_structure_named(*description, name@) ==> forall|i: int|
            #[trigger] undecorated_at(named_layer(description.layers@, name@), i) ==> (r matches Err(e) && error_is(
                e,
                "decorate"@,
                named_layer(description.layers@, name@).projection.decorate@[i].target@,
                "decoration target is not in the folded structural result"@,
            )),
    decreases fuel,
{
    let ghost stack0 = stack@;
    if contains_name(stack, name) {
        return Err(ProjectionError::new("select", name, "layer input cycle during projection evaluation"));
    }
    stack.push(owned(name));
    let index = find_layer(description, name)?;
    if fuel == 0 {
        return Err(ProjectionError::new("select", name, "layer input cycle during projection evaluation"));
    }
    let layer = &description.layers[index];
    let mut inputs = StructuralReprojection::empty();
    let mut inherited: Vec<Decoration> = Vec::new();
    let mut i: usize = 0;
    while i < layer.inputs.len()
        invariant
            inputs.wf(),
            fuel > 0,
            !string_views(stack0).contains(name@),
            stack0 == old(stack)@,
            first_layer_named(description.layers@, name@) == Some(index as int),
            *layer == description.layers@[index as int],
            i <= layer.inputs@.len(),
            (forall|j: int| 0 <= j < i ==> #[trigger] layer.inputs@[j] is Core) ==> inherited@.len() == 0,
            plain_structure(*description, *layer) ==> groups_within(inputs, core_group_addresses(*description)) && forall|q: Seq<char>|
                #[trigger] inputs.holds(q) <==> (i > 0 && entry_addresses(core_definition_entries(*description)).contains(q)),
        decreases layer.inputs@.len() - i,
    {
        let result = match &layer.inputs[i] {
            LayerInput::Core => FinalizedReprojection {
                structural: StructuralReprojection::from_core(description)?,
                decorations: Vec::new(),
                checks: Vec::new(),
            },
            LayerInput::Layer(input) => evaluate_reprojection(description, input.as_str(), stack, fuel - 1)?,
        };
        proof {
            if layer.inputs@[i as int] is Core {
                assert(result.decorations@.len() == 0);
            }
        }
        let FinalizedReprojection { structural, decorations, checks: _ } = result;
        let ghost before_inputs = inputs;
        proof {
            if plain_structure(*description, *layer) {
                assert(layer.inputs@[i as int] is Core);
                assert(forall|q: Seq<char>| !#[trigger] before_inputs.holds(q));
                assert forall|q: Seq<char>| !(#[trigger] before_inputs.elements.lookup(q) is Some) by {
                    assert(!before_inputs.holds(q));
                }
            }
        }
        inputs.merge(structural)?;
        let mut decorations = decorations;
        let ghost inherited_before = inherited@;
        inherited.append(&mut decorations);
        proof {
            if forall|j: int| 0 <= j < i + 1 ==> #[trigger] layer.inputs@[j] is Core {
                assert(layer.inputs@[i as int] is Core);
                assert(forall|j: int| 0 <= j < i ==> #[trigger] layer.inputs@[j] is Core);
                assert(inherited@ =~= inherited_before);
            }
        }
        i = i + 1;
    }
    let mut selected = StructuralReprojection::empty();
    let select = &layer.projection.select;
    let mut k: usize = 0;
    while k < select.len()
        invariant
            selected.wf(),
            !string_views(stack0).contains(name@),
            stack0 == old(stack)@,
            first_layer_named(description.layers@, name@) == Some(index as int),
            *layer == description.layers@[index as int],
            plain_structure(*description, *layer) ==> forall|q: Seq<char>|
                #[trigger] selected.holds(q) <==> items_addresses(select@.take(k as int), layer.name@).contains(q),
            plain_structure(*description, *layer) ==> generated_kept(selected, select@.take(k as int)),
            plain_structure(*description, *layer) ==> groups_within(inputs, core_group_addresses(*description)) && forall|q: Seq<char>|
                #[trigger] inputs.holds(q) <==> (layer.inputs@.len() > 0 && entry_addresses(core_definition_entries(*description)).contains(q)),
            inputs.wf(),
            *select == layer.projection.select,
            k <= select@.len(),
            forall|j: int, q: Seq<char>|
                0 <= j < k && (#[trigger] item_addresses(select@[j], layer.name@)).contains(q) ==> #[trigger] selected.holds(q),
        decreases select@.len() - k,
    {
        let ghost before = selected;
        let ghost item = item_addresses(select@[k as int], layer.name@);
        proof {
            if plain_structure(*description, *layer) {
                let all = items_addresses(select@, layer.name@);
                let prior = items_addresses(select@.take(k as int), layer.name@);
                assert(select@.take(k + 1).drop_last() =~= select@.take(k as int));
                assert(items_addresses(select@.take(k + 1), layer.name@) == prior + item);
                lemma_items_prefix(select@, layer.name@, k + 1);
                lemma_distinct_split(all, prior, item);
                lemma_concat_contains(prior, item);
            }
            match select@[k as int] {
                SelectItem::GenerateConnection(c) => lemma_single_contains(c.address@),
                SelectItem::GenerateGroup(g) => lemma_single_contains(g.address@),
                _ => {},
            }
        }
        match &select[k] {
            SelectItem::Use(addresses) => {
                let ghost views = addresses@.map_values(|x: Address| x@);
                proof {
                    assert(item == views);
                }
                let mut expanded: Vec<Address> = Vec::new();
                let fuel_groups = inputs.elements.len();
                let mut a: usize = 0;
                while a < addresses.len()
                    invariant
                        selected.wf(),
                        !string_views(stack0).contains(name@),
                        stack0 == old(stack)@,
                        first_layer_named(description.layers@, name@) == Some(index as int),
                        *layer == description.layers@[index as int],
                        a <= addresses@.len(),
                        inputs.wf(),
                        *select == layer.projection.select,
                        k < select@.len(),
                        select@[k as int] == SelectItem::Use(*addresses),
                        item == item_addresses(select@[k as int], layer.name@),
                        views == addresses@.map_values(|x: Address| x@),
                        item == views,
                        plain_structure(*description, *layer) ==> groups_within(inputs, core_group_addresses(*description)) && forall|q: Seq<char>|
                            #[trigger] inputs.holds(q) <==> (layer.inputs@.len() > 0 && entry_addresses(core_definition_entries(*description)).contains(q)),
                        plain_structure(*description, *layer) ==> addresses_distinct(item) && forall|q: Seq<char>|
                            #[trigger] item.contains(q) ==> !before.holds(q),
                        plain_structure(*description, *layer) ==> forall|q: Seq<char>|
                            #[trigger] selected.holds(q) <==> before.holds(q) || views.take(a as int).contains(q),
                        forall|q: Seq<char>| #[trigger] before.holds(q) ==> selected.holds(q),
                        forall|x: int| 0 <= x < a ==> selected.holds(#[trigger] addresses@[x]@),
                        forall|q: Seq<char>| before.holds(q) ==> #[trigger] selected.elements.lookup(q) == before.elements.lookup(q),
                    decreases addresses@.len() - a,
                {
                    let ghost mid = selected;
                    proof {
                        if plain_structure(*description, *layer) {
                            let q0 = addresses@[a as int]@;
                            assert(views[a as int] == q0);
                            assert(item.contains(q0));
                            assert(layer.projection.select@[k as int] is Use);
                            assert(item_addresses(layer.projection.select@[k as int], layer.name@).contains(q0));
                            assert(!before.holds(q0));
                            let t0 = views.take(a as int);
                            if t0.contains(q0) {
                                let x = choose|x: int| 0 <= x < t0.len() && t0[x] == q0;
                                assert(views[x] == views[a as int]);
                            }
                            assert(!mid.holds(q0));
                            assert(inputs.holds(q0));
                            assert(!core_group_addresses(*description).contains(q0));
                            assert(!(inputs.elements.lookup(q0) matches Some(Element::Group(_))));
                        }
                    }
                    select_address(&inputs, &mut selected, &addresses[a], &mut expanded, fuel_groups)?;
                    proof {
                        if plain_structure(*description, *layer) {
                            let q0 = addresses@[a as int]@;
                            let t0 = views.take(a as int);
                            let t1 = views.take(a + 1);
                            assert(t1 =~= t0.push(q0));
                            assert forall|q: Seq<char>| #[trigger] selected.holds(q) <==> before.holds(q) || t1.contains(q) by {
                                if t1.contains(q) && q != q0 {
                                    let x = choose|x: int| 0 <= x < t1.len() && t1[x] == q;
                                    assert(t0[x] == q);
                                }
                                if t0.contains(q) {
                                    let x = choose|x: int| 0 <= x < t0.len() && t0[x] == q;
                                    assert(t1[x] == q);
                                }
                                if q == q0 {
                                    assert(t1[a as int] == q);
                                }
                            }
                        }
                        assert forall|x: int| 0 <= x < a + 1 implies selected.holds(#[trigger] addresses@[x]@) by {
                            if x < a {
                                assert(mid.holds(addresses@[x]@));
                            }
                        }
                        assert forall|q: Seq<char>| #[trigger] before.holds(q) implies selected.holds(q) by {
                            assert(mid.holds(q));
                        }
                        assert forall|q: Seq<char>| before.holds(q) implies #[trigger] selected.elements.lookup(q) == before.elements.lookup(q) by {
                            assert(mid.holds(q));
                            assert(mid.elements.lookup(q) == before.elements.lookup(q));
                        }
                    }
                    a = a + 1;
                }
                proof {
                    assert(views.take(a as int) =~= views);
                    assert forall|q: Seq<char>| views.contains(q) implies selected.holds(q) by {
                        let x = choose|x: int| 0 <= x < views.len() && views[x] == q;
                        assert(selected.holds(addresses@[x]@));
                    }
                }
            },
            SelectItem::GenerateBlock(block) => {
                let site = Site::Layer(owned(layer.name.as_str()));
                proof {
                    assert(site.view() == Some(layer.name@));
                    assert(item == entry_addresses(block_defs(*block, site.view())));
                }
                selected.add_block(block, &site)?;
            },
            SelectItem::GenerateConnection(c) => {
                proof {
                    assert(item == seq![c.address@]);
                    assert(item.contains(c.address@));
                }
                let cc = c.clone();
                let ghost ccv = cc;
                selected.add(&c.address, Element::Connection(cc), Site::Layer(owned(layer.name.as_str())))?;
                proof {
                    if plain_structure(*description, *layer) {
                        assert(!before.holds(c.address@));
                        assert(selected.elements.lookup(c.address@) == Some(Element::Connection(ccv)));
                    }
                }
                proof {
                    lemma_single_contains(c.address@);
                }
            },
            SelectItem::GenerateGroup(g) => {
                proof {
                    assert(item == seq![g.address@]);
                    assert(item.contains(g.address@));
                }
                let gg = g.clone();
                let ghost ggv = gg;
                selected.add(&g.address, Element::Group(gg), Site::Layer(owned(layer.name.as_str())))?;
                proof {
                    if plain_structure(*description, *layer) {
                        assert(!before.holds(g.address@));
                        assert(selected.elements.lookup(g.address@) == Some(Element::Group(ggv)));
                    }
                }
                proof {
                    lemma_single_contains(g.address@);
                }
            },
        }
        proof {
            if plain_structure(*description, *layer) {
                assert forall|q: Seq<char>| #[trigger] selected.holds(q) <==> items_addresses(select@.take(k + 1), layer.name@).contains(q) by {
                    assert(selected.holds(q) <==> before.holds(q) || item.contains(q));
                }
            }
            if plain_structure(*description, *layer) {
                let t0 = select@.take(k as int);
                let t1 = select@.take(k + 1);
                assert(t1.drop_last() =~= t0);
                assert(t1.last() == select@[k as int]);
                let prior = items_addresses(t0, layer.name@);
                assert forall|q: Seq<char>| #[trigger] connection_kept_at(selected, t1, q) by {
                    assert(connection_kept_at(before, t0, q));
                    if generated_connection(t0, q) is Some && generated_connection(t1, q) == generated_connection(t0, q) {
                        lemma_generated_within(t0, layer.name@, q);
                        assert(before.holds(q));
                        assert(selected.elements.lookup(q) == before.elements.lookup(q));
                    } else if generated_connection(t0, q) is Some {
                        lemma_generated_within(t0, layer.name@, q);
                        assert(prior.contains(q));
                        assert(item.contains(q));
                    }
                }
                assert forall|q: Seq<char>| #[trigger] group_kept_at(selected, t1, q) by {
                    assert(group_kept_at(before, t0, q));
                    if generated_group(t0, q) is Some && generated_group(t1, q) == generated_group(t0, q) {
                        lemma_generated_within(t0, layer.name@, q);
                        assert(before.holds(q));
                        assert(selected.elements.lookup(q) == before.elements.lookup(q));
                    } else if generated_group(t0, q) is Some {
                        lemma_generated_within(t0, layer.name@, q);
                        assert(prior.contains(q));
                        assert(item.contains(q));
                    }
                }
            }
            assert forall|j: int, q: Seq<char>|
                0 <= j < k + 1 && (#[trigger] item_addresses(select@[j], layer.name@)).contains(q) implies #[trigger] selected.holds(q) by {
                if j < k {
                    assert(before.holds(q));
                }
            }
        }
        k = k + 1;
    }
    proof {
        assert(select@.take(k as int) =~= select@);
    }
    let ghost chosen = selected;
    proof {
        if plain_structure(*description, *layer) {
            assert forall|x: int| 0 <= x < layer.projection.invert@.len() implies (#[trigger] chosen.elements.lookup(
                layer.projection.invert@[x]@,
            )) matches Some(Element::Group(_)) by {
                assert(inverts_generated(select@, layer.projection.invert@[x]@));
                lemma_group_inverts_generated(chosen, select@, layer.projection.invert@[x], Seq::empty());
            }
        }
    }
    apply_invert(&mut selected, &layer.projection)?;
    proof {
        if plain_structure(*description, *layer) {
            let inv = layer.projection.invert@;
            assert forall|q: Seq<char>| inverted(chosen, inv, q) <==> reached(*layer, q) by {
                if inverted(chosen, inv, q) {
                    let i = choose|i: int| 0 <= i < inv.len() && #[trigger] group_inverts(chosen, inv[i], q);
                    assert(inverts_generated(select@, inv[i]@));
                    lemma_group_inverts_generated(chosen, select@, inv[i], q);
                    assert(group_reaches(layer.projection.select@, inv[i]@, q));
                }
                if reached(*layer, q) {
                    let i = choose|i: int| 0 <= i < inv.len() && #[trigger] group_reaches(layer.projection.select@, inv[i]@, q);
                    assert(inverts_generated(select@, inv[i]@));
                    lemma_group_inverts_generated(chosen, select@, inv[i], q);
                    assert(group_inverts(chosen, inv[i], q));
                }
            }
        }
    }
    proof {
        assert forall|x: int| 0 <= x < layer.projection.invert@.len() implies (#[trigger] selected.elements.lookup(
            layer.projection.invert@[x]@,
        )) matches Some(Element::Group(_)) by {
            let q = layer.projection.invert@[x]@;
            assert(chosen.elements.lookup(q) matches Some(Element::Group(_)));
            if inverted(chosen, layer.projection.invert@, q) {
                assert(selected.elements.lookup(q) matches Some(n) && chosen.elements.lookup(q) matches Some(o) && reversed(n, o));
            }
        }
    }
    stack.pop();
    let ghost inherited_view = inherited@;
    let ghost final_structure = selected;
    let result = finalize(selected, inherited, &layer.projection);
    proof {
        if plain_structure(*description, *layer) {
            let inv = layer.projection.invert@;
            assert forall|q: Seq<char>| #[trigger] connection_evaluated(final_structure, *layer, q) by {
                if generated_connection(select@, q) is Some {
                    assert(connection_kept_at(chosen, select@, q));
                    if reached(*layer, q) {
                        assert(inverted(chosen, inv, q));
                    } else {
                        assert(!inverted(chosen, inv, q));
                        assert(final_structure.elements.lookup(q) == chosen.elements.lookup(q));
                    }
                }
            }
            let all = items_addresses(select@, layer.name@);
            assert forall|q: Seq<char>| #[trigger] final_structure.holds(q) <==> all.contains(q) by {
                assert(final_structure.holds(q) <==> chosen.holds(q));
            }
            if plain_layer(*description, *layer) {
                assert forall|i: int| 0 <= i < layer.projection.decorate@.len() implies final_structure.holds(
                    #[trigger] layer.projection.decorate@[i].target@,
                ) by {
                    assert(all.contains(layer.projection.decorate@[i].target@));
                }
            }
            assert forall|i: int| #[trigger] undecorated_at(*layer, i) implies missing_decoration(
                final_structure,
                layer.projection.decorate@,
                i,
            ) by {
                assert forall|j: int| 0 <= j < i implies final_structure.holds(#[trigger] layer.projection.decorate@[j].target@) by {
                    assert(all.contains(layer.projection.decorate@[j].target@));
                }
            }
            if result is Err {
                let e = result->Err_0;
                let i = choose|i: int|
                    #[trigger] missing_decoration(final_structure, layer.projection.decorate@, i) && error_is(
                        e,
                        "decorate"@,
                        layer.projection.decorate@[i].target@,
                        "decoration target is not in the folded structural result"@,
                    );
                assert forall|i2: int| #[trigger] undecorated_at(*layer, i2) implies i2 == i by {
                    assert(missing_decoration(final_structure, layer.projection.decorate@, i2));
                    if i2 < i {
                        assert(final_structure.holds(layer.projection.decorate@[i2].target@));
                    }
                    if i < i2 {
                        assert(final_structure.holds(layer.projection.decorate@[i].target@));
                    }
                }
            } else {
                assert forall|i: int| !#[trigger] undecorated_at(*layer, i) by {
                    if undecorated_at(*layer, i) {
                        assert(missing_decoration(final_structure, layer.projection.decorate@, i));
                    }
                }
            }
        }
        if result is Ok {
            let f = result->Ok_0;
            let kept = kept_decorations(inherited_view, f.structural);
            let own = decoration_views(layer.projection.decorate@);
            lemma_kept_held(inherited_view, f.structural);
            assert(f.structural == selected);
            assert(decoration_views(f.decorations@) == kept + own);
            assert(decoration_views(f.decorations@).subrange(
                f.decorations@.len() - layer.projection.decorate@.len(),
                f.decorations@.len() as int,
            ) =~= own);
            assert(forall|j: int| 0 <= j < layer.projection.decorate@.len() ==> selected.holds(#[trigger] layer.projection.decorate@[j].target@));
            assert forall|i: int| 0 <= i < f.decorations@.len() implies f.structural.holds(#[trigger] f.decorations@[i].target@) by {
                let views = decoration_views(f.decorations@);
                assert(views.len() == f.decorations@.len());
                assert(views == kept + own);
                assert((kept + own).len() == kept.len() + own.len());
                assert(views[i] == decoration_view(f.decorations@[i]));
                assert(views[i].0 == f.decorations@[i].target@);
                if i < kept.len() {
                    assert(views[i] == kept[i]);
                    assert(f.structural.holds(kept[i].0));
                } else {
                    assert(views[i] == (kept + own)[i]);
                    assert((kept + own)[i] == own[i - kept.len()]);
                    let d = layer.projection.decorate@[i - kept.len()];
                    assert(own[i - kept.len()] == decoration_view(d));
                    assert(selected.holds(d.target@));
                    assert(views[i].0 == d.target@);
                    assert(f.structural.holds(views[i].0));
                }
            }
            assert forall|k: int, q: Seq<char>|
                0 <= k < layer.projection.select@.len() && (#[trigger] item_addresses(layer.projection.select@[k], layer.name@)).contains(q)
                    implies #[trigger] f.structural.holds(q) by {
                assert(chosen.holds(q));
            }
            if forall|j: int| 0 <= j < layer.inputs@.len() ==> #[trigger] layer.inputs@[j] is Core {
                assert(inherited_view.len() == 0);
                assert(kept =~= Seq::empty());
                assert(decoration_views(f.decorations@) =~= own);
            }
        }
    }
    result
}

/// Evaluates the layer named `layer_name`: folds its inputs, selects,
/// inverts, decorates and checks. An unknown layer is a `select` error that
/// names it; a plain layer always evaluates, to a structure that holds
/// exactly the addresses it uses and generates, in which each connection it
/// generates has its ends exchanged exactly when a group it inverts reaches
/// it; one that only decorates an address it does not hold fails at
/// `decorate`, naming the first such target.
pub fn evaluate_layer(description: &Description, layer_name: &str) -> (r: Result<FinalizedReprojection, ProjectionError>)
    ensures
        r matches Ok(f) ==> first_layer_named(description.layers@, layer_name@) matches Some(l) && finalized_ok(
            f,
            description.layers@[l],
        ),
        first_layer_named(description.layers@, layer_name@) is None ==> (r matches Err(e) && error_is(
            e,
            "select"@,
            layer_name@,
            "layer does not exist"@,
        )),
        plain_named(*description, layer_name@) ==> (r matches Ok(f) && (forall|q: Seq<char>|
            #[trigger] f.structural.holds(q) <==> selected_addresses(description.layers@, layer_name@).contains(q)) && forall|q: Seq<char>|
            #[trigger] connection_evaluated(f.structural, named_layer(description.layers@, layer_name@), q)),
        plain_structure_named(*description, layer_name@) ==> forall|i: int|
            #[trigger] undecorated_at(named_layer(description.layers@, layer_name@), i) ==> (r matches Err(e) && error_is(
                e,
                "decorate"@,
                named_layer(description.layers@, layer_name@).projection.decorate@[i].target@,
                "decoration target is not in the folded structural result"@,
            )),
{
    let mut stack: Vec<String> = Vec::new();
    proof {
        assert(string_views(stack@) =~= Seq::<Seq<char>>::empty());
    }
    evaluate_reprojection(description, layer_name, &mut stack, description.layers.len())
}

/// Membership in a one-element sequence.
pub proof fn lemma_single_contains(x: Seq<char>)
    ensures
        forall|q: Seq<char>| #[trigger] seq![x].contains(q) <==> q == x,
{
    assert forall|q: Seq<char>| #[trigger] seq![x].contains(q) <==> q == x by {
        if q == x {
            assert(seq![x][0] == q);
        }
    }
}

/// Membership in a concatenation.
pub proof fn lemma_concat_contains(a: Seq<Seq<char>>, b: Seq<Seq<char>>)
    ensures
        forall|q: Seq<char>| #[trigger] (a + b).contains(q) <==> a.contains(q) || b.contains(q),
{
    assert forall|q: Seq<char>| #[trigger] (a + b).contains(q) <==> a.contains(q) || b.contains(q) by {
        if (a + b).contains(q) {
            let x = choose|x: int| 0 <= x < (a + b).len() && (a + b)[x] == q;
            if x < a.len() {
                assert(a[x] == q);
            } else {
                assert(b[x - a.len()] == q);
            }
        }
        if a.contains(q) {
            let x = choose|x: int| 0 <= x < a.len() && a[x] == q;
            assert((a + b)[x] == q);
        }
        if b.contains(q) {
            let x = choose|x: int| 0 <= x < b.len() && b[x] == q;
            assert((a + b)[x + a.len()] == q);
        }
    }
}

} // verus!

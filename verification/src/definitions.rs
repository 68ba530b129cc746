//! The definitions of a description: every element with its kind and the
//! site (the core graph or a layer) that defines it.
use vstd::prelude::*;

use crate::address::Address;
use crate::map::OrderedMap;
use crate::model::{Block, Connection, Description, Group, Port};
use crate::projection::{Layer, SelectItem};
use crate::schema::ElementKind;
use crate::text::{owned, push_str};
use crate::validate::located_at;
use crate::validate::{extends, report, ValidationError};

verus! {

/// Where an element is defined: the core graph or a layer.
#[derive(Debug)]
pub enum Site {
    Core,
    Layer(String),
}

impl Site {
    /// `None` for the core graph, the layer's name otherwise.
    pub open spec fn view(&self) -> Option<Seq<char>> {
        match self {
            Site::Core => None,
            Site::Layer(name) => Some(name@),
        }
    }

    pub fn duplicate(&self) -> (s: Site)
        ensures
            s.view() == self.view(),
    {
        match self {
            Site::Core => Site::Core,
            Site::Layer(name) => Site::Layer(name.clone()),
        }
    }
}

/// A definition: the element's kind and its site.
#[derive(Debug)]
pub struct Definition {
    pub kind: ElementKind,
    pub site: Site,
}

/// An element's address, kind and site.
pub type DefEntry = (Seq<char>, ElementKind, Option<Seq<char>>);

pub open spec fn block_defs(b: Block, site: Option<Seq<char>>) -> Seq<DefEntry> {
    seq![(b.address@, ElementKind::Block, site)] + b.ports.values().map_values(
        |p: Port| (p.address@, ElementKind::Port, site),
    )
}

pub open spec fn blocks_defs(blocks: Seq<Block>, site: Option<Seq<char>>) -> Seq<DefEntry>
    decreases blocks.len(),
{
    if blocks.len() == 0 {
        Seq::empty()
    } else {
        blocks_defs(blocks.drop_last(), site) + block_defs(blocks.last(), site)
    }
}

pub open spec fn item_defs(item: SelectItem, site: Option<Seq<char>>) -> Seq<DefEntry> {
    match item {
        SelectItem::Use(_) => Seq::empty(),
        SelectItem::GenerateBlock(b) => block_defs(b, site),
        SelectItem::GenerateConnection(c) => seq![(c.address@, ElementKind::Connection, site)],
        SelectItem::GenerateGroup(g) => seq![(g.address@, ElementKind::Group, site)],
    }
}

pub open spec fn items_defs(items: Seq<SelectItem>, site: Option<Seq<char>>) -> Seq<DefEntry>
    decreases items.len(),
{
    if items.len() == 0 {
        Seq::empty()
    } else {
        items_defs(items.drop_last(), site) + item_defs(items.last(), site)
    }
}

pub open spec fn layers_defs(layers: Seq<Layer>) -> Seq<DefEntry>
    decreases layers.len(),
{
    if layers.len() == 0 {
        Seq::empty()
    } else {
        layers_defs(layers.drop_last()) + items_defs(layers.last().projection.select@, Some(layers.last().name@))
    }
}

/// The core definitions, in order: the description, the blocks with their
/// ports, the connections, then the groups.
pub open spec fn core_definition_entries(d: Description) -> Seq<DefEntry> {
    seq![(d.address@, ElementKind::Description, None::<Seq<char>>)] + blocks_defs(d.core.blocks.values(), None)
        + d.core.connections.values().map_values(|c: Connection| (c.address@, ElementKind::Connection, None::<Seq<char>>))
        + d.core.groups.values().map_values(|g: Group| (g.address@, ElementKind::Group, None::<Seq<char>>))
}

/// Every definition, in order: the core definitions, then what each layer's
/// selection defines.
pub open spec fn definition_entries(d: Description) -> Seq<DefEntry> {
    core_definition_entries(d) + layers_defs(d.layers@)
}

/// The first definition of address `q`.
pub open spec fn first_definition(entries: Seq<DefEntry>, q: Seq<char>) -> Option<(ElementKind, Option<Seq<char>>)>
    decreases entries.len(),
{
    if entries.len() == 0 {
        None
    } else {
        match first_definition(entries.drop_last(), q) {
            Some(d) => Some(d),
            None => if entries.last().0 == q {
                Some((entries.last().1, entries.last().2))
            } else {
                None
            },
        }
    }
}

/// The addresses of a list of definitions.
pub open spec fn entry_addresses(entries: Seq<DefEntry>) -> Seq<Seq<char>> {
    entries.map_values(|e: DefEntry| e.0)
}

/// No address is defined twice.
pub open spec fn addresses_distinct(s: Seq<Seq<char>>) -> bool {
    forall|i: int, j: int| 0 <= i < j < s.len() ==> #[trigger] s[i] != #[trigger] s[j]
}

/// The definitions met so far, each address with its first definition.
pub struct Definitions {
    pub map: OrderedMap<Address, Definition>,
    pub entries: Ghost<Seq<DefEntry>>,
}

impl Definitions {
    pub open spec fn wf(&self) -> bool {
        &&& forall|q: Seq<char>| #[trigger] self.map.contains(q) <==> entry_addresses(self.entries@).contains(q)
        &&& forall|q: Seq<char>|
            #[trigger] self.map.lookup(q) matches Some(d) ==> first_definition(self.entries@, q) == Some((d.kind, d.site.view()))
    }

    pub fn new() -> (d: Definitions)
        ensures
            d.wf(),
            d.entries@ == Seq::<DefEntry>::empty(),
    {
        let d = Definitions { map: OrderedMap::new(), entries: Ghost(Seq::empty()) };
        proof {
            assert forall|q: Seq<char>| #[trigger] d.map.contains(q) <==> entry_addresses(d.entries@).contains(q) by {
                assert(d.map.keys() =~= Seq::<Seq<char>>::empty());
                assert(entry_addresses(d.entries@) =~= Seq::<Seq<char>>::empty());
            }
        }
        d
    }

    /// The first definition of an address.
    pub fn get(&self, address: &Address) -> (r: Option<&Definition>)
        requires
            self.wf(),
        ensures
            match r {
                Some(d) => first_definition(self.entries@, address@) == Some((d.kind, d.site.view())),
                None => first_definition(self.entries@, address@) is None,
            },
    {
        let r = self.map.get(address);
        proof {
            if r is None {
                lemma_first_definition_none(self.entries@, address@);
            }
        }
        r
    }

    /// Records a definition; reports C1 and C4 when the address is already
    /// defined.
    pub fn add(
        &mut self,
        address: &Address,
        kind: ElementKind,
        site: &Site,
        location: String,
        errors: &mut Vec<ValidationError>,
    )
        requires
            old(self).wf(),
        ensures
            final(self).wf(),
            final(self).entries@ == old(self).entries@.push((address@, kind, site.view())),
            extends(old(errors)@, final(errors)@),
            entry_addresses(old(self).entries@).contains(address@) ==> final(errors)@.len() > old(errors)@.len(),
            !entry_addresses(old(self).entries@).contains(address@) ==> final(errors)@ == old(errors)@,
    {
        let ghost old_entries = self.entries@;
        let ghost new_entries = old_entries.push((address@, kind, site.view()));
        proof {
            assert(entry_addresses(new_entries) =~= entry_addresses(old_entries).push(address@));
            assert(new_entries.drop_last() =~= old_entries);
        }
        if self.map.contains_key(address) {
            let location2 = owned(location.as_str());
            report(errors, "C1", location, Some(owned(address.as_str())), "address is defined more than once");
            let ghost mid = errors@;
            report(errors, "C4", location2, Some(owned(address.as_str())), "element has more than one definition site");
            proof {
                assert(errors@.subrange(0, old(errors)@.len() as int) =~= mid.subrange(0, old(errors)@.len() as int));
            }
            self.entries = Ghost(new_entries);
            proof {
                assert forall|q: Seq<char>| #[trigger] self.map.contains(q) <==> entry_addresses(self.entries@).contains(q) by {
                    if entry_addresses(new_entries).contains(q) && q != address@ {
                        let i = choose|i: int| 0 <= i < entry_addresses(new_entries).len() && entry_addresses(new_entries)[i] == q;
                        assert(entry_addresses(old_entries)[i] == q);
                    }
                    if entry_addresses(old_entries).contains(q) {
                        let i = choose|i: int| 0 <= i < entry_addresses(old_entries).len() && entry_addresses(old_entries)[i] == q;
                        assert(entry_addresses(new_entries)[i] == q);
                    }
                }
                assert forall|q: Seq<char>| #[trigger] self.map.lookup(q) is Some implies first_definition(self.entries@, q) == Some((self.map.lookup(q)->0.kind, self.map.lookup(q)->0.site.view())) by {
                    assert(first_definition(old_entries, q) is Some);
                }
            }
        } else {
            let ghost old_map = self.map;
            let def = Definition { kind, site: site.duplicate() };
            let key = address.clone();
            self.map.insert_new(key, def);
            self.entries = Ghost(new_entries);
            proof {
                assert(errors@ == old(errors)@);
                assert(errors@.subrange(0, old(errors)@.len() as int) =~= errors@);
                assert forall|q: Seq<char>| #[trigger] self.map.contains(q) <==> entry_addresses(self.entries@).contains(q) by {
                    if entry_addresses(new_entries).contains(q) && q != address@ {
                        let i = choose|i: int| 0 <= i < entry_addresses(new_entries).len() && entry_addresses(new_entries)[i] == q;
                        assert(entry_addresses(old_entries)[i] == q);
                    }
                    if entry_addresses(old_entries).contains(q) {
                        let i = choose|i: int| 0 <= i < entry_addresses(old_entries).len() && entry_addresses(old_entries)[i] == q;
                        assert(entry_addresses(new_entries)[i] == q);
                    }
                    if q == address@ {
                        assert(entry_addresses(new_entries)[old_entries.len() as int] == q);
                    }
                }
                assert forall|q: Seq<char>| #[trigger] self.map.lookup(q) is Some implies first_definition(self.entries@, q) == Some((self.map.lookup(q)->0.kind, self.map.lookup(q)->0.site.view())) by {
                    if q == address@ {
                        lemma_first_definition_none(old_entries, q);
                    } else {
                        assert(old_map.lookup(q) == self.map.lookup(q));
                    }
                }
            }
        }
    }
}

/// Adding an address not yet defined keeps the addresses distinct.
pub proof fn lemma_distinct_push(s: Seq<Seq<char>>, a: Seq<char>)
    requires
        addresses_distinct(s),
        !s.contains(a),
    ensures
        addresses_distinct(s.push(a)),
{
    assert forall|i: int, j: int| 0 <= i < j < s.push(a).len() implies #[trigger] s.push(a)[i] != #[trigger] s.push(a)[j] by {
        if j == s.len() {
            assert(s[i] == s.push(a)[i]);
        } else {
            assert(s[i] == s.push(a)[i]);
            assert(s[j] == s.push(a)[j]);
        }
    }
}

/// A port keyed by its own address.
pub open spec fn ports_keyed(b: Block) -> bool {
    forall|j: int| 0 <= j < b.ports.keys().len() ==> #[trigger] b.ports.keys()[j] == b.ports.values()[j].address@
}

/// A block stored under `key`: the key is its address, it has a human name,
/// and its ports are keyed by their addresses.
pub open spec fn block_ok(b: Block, key: Seq<char>) -> bool {
    &&& key == b.address@
    &&& b.name@.len() > 0
    &&& ports_keyed(b)
}

fn path_of(parts: &[&str]) -> (s: String)
    ensures
        parts@.len() == 3 ==> s@ == parts@[0]@ + parts@[1]@ + parts@[2]@,
        parts@.len() == 4 ==> s@ == parts@[0]@ + parts@[1]@ + parts@[2]@ + parts@[3]@,
{
    let mut s = String::new();
    let mut i: usize = 0;
    let ghost start = s@;
    while i < parts.len()
        invariant
            i <= parts@.len(),
            i == 0 ==> s@ == Seq::<char>::empty(),
            i >= 1 ==> s@ == parts@[0]@ + (if i >= 2 { parts@[1]@ } else { Seq::empty() }) + (if i >= 3 {
                parts@[2]@
            } else {
                Seq::empty()
            }) + (if i >= 4 { parts@[3]@ } else { Seq::empty() }),
            i > 4 ==> false,
        decreases parts@.len() - i,
    {
        if i >= 4 {
            return s;
        }
        push_str(&mut s, parts[i]);
        proof {
            assert(s@ =~= parts@[0]@ + (if i + 1 >= 2 { parts@[1]@ } else { Seq::empty() }) + (if i + 1 >= 3 {
                parts@[2]@
            } else {
                Seq::empty()
            }) + (if i + 1 >= 4 { parts@[3]@ } else { Seq::empty() }));
        }
        i = i + 1;
    }
    s
}

/// A repetition among the definitions of the first blocks stays one among
/// the definitions of all of them.
pub proof fn lemma_blocks_repeat(e: Seq<DefEntry>, bs: Seq<Block>, site: Option<Seq<char>>, i: int)
    requires
        0 <= i <= bs.len(),
        repeats_address(e + blocks_defs(bs.take(i), site)),
    ensures
        repeats_address(e + blocks_defs(bs, site)),
    decreases bs.len() - i,
{
    if i == bs.len() {
        assert(bs.take(i) =~= bs);
    } else {
        assert(bs.drop_last().take(i) =~= bs.take(i));
        lemma_blocks_repeat(e, bs.drop_last(), site, i);
        lemma_repeat_extend(e + blocks_defs(bs.drop_last(), site), block_defs(bs.last(), site));
        assert(e + blocks_defs(bs.drop_last(), site) + block_defs(bs.last(), site) =~= e + blocks_defs(bs, site));
    }
}

/// An address met again after it was met is repeated.
pub proof fn lemma_repeat_after(s: Seq<Seq<char>>, x: Seq<char>)
    requires
        s.contains(x),
    ensures
        !addresses_distinct(s.push(x)),
{
    let i = choose|i: int| 0 <= i < s.len() && s[i] == x;
    assert(s.push(x)[i] == x && s.push(x)[s.len() as int] == x);
}

/// A repetition in either part, or an address in both, repeats in the whole.
pub proof fn lemma_repeat_concat(s: Seq<Seq<char>>, t: Seq<Seq<char>>)
    ensures
        !addresses_distinct(s) ==> !addresses_distinct(s + t),
        !addresses_distinct(t) ==> !addresses_distinct(s + t),
        (exists|x: Seq<char>| s.contains(x) && t.contains(x)) ==> !addresses_distinct(s + t),
{
    let u = s + t;
    if !addresses_distinct(s) {
        let (i, j) = choose|i: int, j: int| 0 <= i < j < s.len() && #[trigger] s[i] == #[trigger] s[j];
        assert(u[i] == s[i] && u[j] == s[j]);
    }
    if !addresses_distinct(t) {
        let (i, j) = choose|i: int, j: int| 0 <= i < j < t.len() && #[trigger] t[i] == #[trigger] t[j];
        assert(u[s.len() + i] == t[i] && u[s.len() + j] == t[j]);
    }
    if exists|x: Seq<char>| s.contains(x) && t.contains(x) {
        let x = choose|x: Seq<char>| s.contains(x) && t.contains(x);
        let i = choose|i: int| 0 <= i < s.len() && s[i] == x;
        let j = choose|j: int| 0 <= j < t.len() && t[j] == x;
        assert(u[i] == x && u[s.len() + j] == x);
    }
}

/// Some address is defined twice.
pub open spec fn repeats_address(es: Seq<DefEntry>) -> bool {
    !addresses_distinct(entry_addresses(es))
}

/// A repeated address stays repeated as definitions are added.
pub proof fn lemma_repeat_extend(es: Seq<DefEntry>, more: Seq<DefEntry>)
    requires
        repeats_address(es),
    ensures
        repeats_address(es + more),
{
    let s = entry_addresses(es);
    assert(exists|i: int, j: int| 0 <= i < j < s.len() && #[trigger] s[i] == #[trigger] s[j]);
    let (i, j) = choose|i: int, j: int| 0 <= i < j < s.len() && #[trigger] s[i] == #[trigger] s[j];
    let t = entry_addresses(es + more);
    assert(t[i] == s[i] && t[j] == s[j]);
}

/// Defining an address that is already defined repeats it.
pub proof fn lemma_repeat_push(es: Seq<DefEntry>, e: DefEntry)
    requires
        entry_addresses(es).contains(e.0),
    ensures
        repeats_address(es.push(e)),
{
    let s = entry_addresses(es);
    let i = choose|i: int| 0 <= i < s.len() && s[i] == e.0;
    let t = entry_addresses(es.push(e));
    assert(t[i] == e.0 && t[es.len() as int] == e.0);
}

/// Records a block and its ports; reports a key that is not the block's
/// address and an empty name (C5).
pub fn add_block(
    defs: &mut Definitions,
    key: &Address,
    block: &Block,
    site: &Site,
    location: &str,
    errors: &mut Vec<ValidationError>,
)
    requires
        old(defs).wf(),
    ensures
        final(defs).wf(),
        final(defs).entries@ == old(defs).entries@ + block_defs(*block, site.view()),
        extends(old(errors)@, final(errors)@),
        final(errors)@.len() == old(errors)@.len() ==> block_ok(*block, key@),
        final(errors)@.len() == old(errors)@.len() && addresses_distinct(entry_addresses(old(defs).entries@))
            ==> addresses_distinct(entry_addresses(final(defs).entries@)),
        final(errors)@.len() > old(errors)@.len() ==> !block_ok(*block, key@) || repeats_address(final(defs).entries@),
{
    let ghost start = errors@;
    let ghost entries0 = defs.entries@;
    let here = path_of(&[location, "/block/", key.as_str()]);
    if !key.same(&block.address) {
        report(errors, "C5", owned(here.as_str()), Some(owned(key.as_str())), "block map key and block address differ");
    }
    if block.name.as_str().is_empty() {
        let ghost before = errors@;
        report(errors, "C5", owned(here.as_str()), Some(owned(key.as_str())), "block requires a human name");
        proof {
            assert(errors@.subrange(0, start.len() as int) =~= before.subrange(0, start.len() as int));
        }
    }
    let ghost e1 = errors@;
    let ghost len1 = errors@.len();
    defs.add(&block.address, ElementKind::Block, site, owned(here.as_str()), errors);
    proof {
        assert(errors@.subrange(0, start.len() as int) =~= e1.subrange(0, start.len() as int));
        if errors@.len() == start.len() && addresses_distinct(entry_addresses(entries0)) {
            lemma_distinct_push(entry_addresses(entries0), block.address@);
            assert(entry_addresses(defs.entries@) =~= entry_addresses(entries0).push(block.address@));
        }
        if errors@.len() > len1 {
            lemma_repeat_push(entries0, (block.address@, ElementKind::Block, site.view()));
        }
    }
    let ghost entries1 = defs.entries@;
    let mut j: usize = 0;
    while j < block.ports.len()
        invariant
            defs.wf(),
            j <= block.ports.entries().len(),
            defs.entries@ == entries1 + block.ports.values().take(j as int).map_values(
                |p: Port| (p.address@, ElementKind::Port, site.view()),
            ),
            entries1 == entries0.push((block.address@, ElementKind::Block, site.view())),
            extends(start, errors@),
            errors@.len() >= len1,
            len1 >= start.len(),
            errors@.len() == start.len() ==> forall|a: int| 0 <= a < j ==> #[trigger] block.ports.keys()[a] == block.ports.values()[a].address@,
            errors@.len() == start.len() && addresses_distinct(entry_addresses(entries0)) ==> addresses_distinct(entry_addresses(defs.entries@)),
            errors@.len() > start.len() ==> !block_ok(*block, key@) || repeats_address(defs.entries@),
        decreases block.ports.entries().len() - j,
    {
        let port_key = block.ports.key_at(j);
        let port = block.ports.value_at(j);
        let port_here = path_of(&[here.as_str(), "/port/", port_key.as_str()]);
        let ghost e2 = errors@;
        let ghost entries2 = defs.entries@;
        if !port_key.same(&port.address) {
            report(errors, "C5", owned(port_here.as_str()), Some(owned(port_key.as_str())), "port map key and port address differ");
        }
        let ghost e3 = errors@;
        defs.add(&port.address, ElementKind::Port, site, port_here, errors);
        proof {
            assert(errors@.subrange(0, start.len() as int) =~= e2.subrange(0, start.len() as int));
            let more = block.ports.values().take(j + 1).map_values(|p: Port| (p.address@, ElementKind::Port, site.view()));
            assert(more =~= block.ports.values().take(j as int).map_values(|p: Port| (p.address@, ElementKind::Port, site.view())).push((port.address@, ElementKind::Port, site.view())));
            assert(defs.entries@ =~= entries1 + more);
            if errors@.len() == start.len() && addresses_distinct(entry_addresses(entries0)) {
                lemma_distinct_push(entry_addresses(entries2), port.address@);
                assert(entry_addresses(defs.entries@) =~= entry_addresses(entries2).push(port.address@));
            }
            if errors@.len() > start.len() {
                if e3.len() > e2.len() {
                    assert(block.ports.keys()[j as int] != block.ports.values()[j as int].address@);
                } else if errors@.len() > e3.len() {
                    lemma_repeat_push(entries2, (port.address@, ElementKind::Port, site.view()));
                } else if repeats_address(entries2) {
                    assert(defs.entries@ =~= entries2 + seq![(port.address@, ElementKind::Port, site.view())]);
                    lemma_repeat_extend(entries2, seq![(port.address@, ElementKind::Port, site.view())]);
                }
            }
        }
        j = j + 1;
    }
    proof {
        assert(block.ports.values().take(j as int) =~= block.ports.values());
        assert(defs.entries@ =~= entries0 + block_defs(*block, site.view()));
    }
}

/// Every core element is stored under its own address, and every core block
/// has a human name.
pub open spec fn core_keyed(d: Description) -> bool {
    &&& forall|i: int|
        0 <= i < d.core.blocks.keys().len() ==> block_ok(#[trigger] d.core.blocks.values()[i], d.core.blocks.keys()[i])
    &&& forall|i: int|
        0 <= i < d.core.connections.keys().len() ==> #[trigger] d.core.connections.keys()[i]
            == d.core.connections.values()[i].address@
    &&& forall|i: int|
        0 <= i < d.core.groups.keys().len() ==> #[trigger] d.core.groups.keys()[i] == d.core.groups.values()[i].address@
}

/// Every block a layer generates has a human name and ports keyed by their
/// addresses.
pub open spec fn generated_blocks_ok(layers: Seq<Layer>) -> bool {
    forall|l: int, k: int|
        0 <= l < layers.len() && 0 <= k < layers[l].projection.select@.len() && (#[trigger] layers[l].projection.select@[k]) is GenerateBlock
            ==> block_ok(layers[l].projection.select@[k]->GenerateBlock_0, layers[l].projection.select@[k]->GenerateBlock_0.address@)
}

/// The definition checks: elements keyed by their addresses, blocks named
/// (C5), and every address defined once (C1, C4).
pub open spec fn definitions_valid(d: Description) -> bool {
    &&& core_keyed(d)
    &&& generated_blocks_ok(d.layers@)
    &&& addresses_distinct(entry_addresses(definition_entries(d)))
}

/// What a definition error reports: an element stored under another key, a
/// nameless block, or an address defined twice among `es`.
pub open spec fn definitions_flawed(d: Description, es: Seq<DefEntry>) -> bool {
    !core_keyed(d) || !generated_blocks_ok(d.layers@) || repeats_address(es)
}

/// A flaw stays a flaw as definitions are added.
proof fn lemma_flawed_grow(d: Description, es: Seq<DefEntry>, more: Seq<DefEntry>)
    requires
        definitions_flawed(d, es),
    ensures
        definitions_flawed(d, es + more),
{
    if repeats_address(es) {
        lemma_repeat_extend(es, more);
    }
}

/// Collects every definition in order, reporting C1, C4 and C5 failures.
pub fn collect_definitions(d: &Description, errors: &mut Vec<ValidationError>) -> (defs: Definitions)
    ensures
        defs.wf(),
        defs.entries@ == definition_entries(*d),
        extends(old(errors)@, final(errors)@),
        final(errors)@.len() == old(errors)@.len() ==> definitions_valid(*d),
        final(errors)@.len() > old(errors)@.len() ==> !definitions_valid(*d),
{
    let ghost start = errors@;
    proof {
        assert(errors@.subrange(0, start.len() as int) =~= start);
    }
    let mut defs = Definitions::new();
    defs.add(&d.address, ElementKind::Description, &Site::Core, owned("description"), errors);
    proof {
        assert(entry_addresses(defs.entries@) =~= seq![d.address@]);
        assert(addresses_distinct(seq![d.address@]));
    }
    let ghost e0 = defs.entries@;
    let core = Site::Core;
    let mut i: usize = 0;
    while i < d.core.blocks.len()
        invariant
            defs.wf(),
            core.view() is None,
            i <= d.core.blocks.entries().len(),
            e0 == seq![(d.address@, ElementKind::Description, None::<Seq<char>>)],
            defs.entries@ == e0 + blocks_defs(d.core.blocks.values().take(i as int), None),
            extends(start, errors@),
            errors@.len() == start.len() ==> addresses_distinct(entry_addresses(defs.entries@)),
            errors@.len() == start.len() ==> forall|a: int|
                0 <= a < i ==> block_ok(#[trigger] d.core.blocks.values()[a], d.core.blocks.keys()[a]),
            errors@.len() > start.len() ==> definitions_flawed(*d, defs.entries@),
        decreases d.core.blocks.entries().len() - i,
    {
        let key = d.core.blocks.key_at(i);
        let block = d.core.blocks.value_at(i);
        let ghost before = errors@;
        let ghost entries_before = defs.entries@;
        add_block(&mut defs, key, block, &core, "core", errors);
        proof {
            if errors@.len() > start.len() {
                if before.len() > start.len() {
                    lemma_flawed_grow(*d, entries_before, block_defs(*block, None));
                } else if !block_ok(*block, key@) {
                    assert(d.core.blocks.keys()[i as int] == key@);
                    assert(d.core.blocks.values()[i as int] == *block);
                }
            }
            assert(errors@.subrange(0, start.len() as int) =~= before.subrange(0, start.len() as int));
            let t = d.core.blocks.values().take(i + 1);
            assert(t.drop_last() =~= d.core.blocks.values().take(i as int));
            assert(t.last() == *block);
            assert(*key == d.core.blocks.entries()[i as int].0);
            assert(defs.entries@ =~= e0 + blocks_defs(t, None));
        }
        i = i + 1;
    }
    proof {
        assert(d.core.blocks.values().take(i as int) =~= d.core.blocks.values());
    }
    let ghost e1 = defs.entries@;
    let ghost len1 = errors@.len();
    let mut i: usize = 0;
    while i < d.core.connections.len()
        invariant
            defs.wf(),
            core.view() is None,
            i <= d.core.connections.entries().len(),
            defs.entries@ == e1 + d.core.connections.values().take(i as int).map_values(
                |c: Connection| (c.address@, ElementKind::Connection, None::<Seq<char>>),
            ),
            extends(start, errors@),
            errors@.len() >= len1,
            errors@.len() == start.len() ==> addresses_distinct(entry_addresses(defs.entries@)),
            errors@.len() == start.len() ==> forall|a: int|
                0 <= a < i ==> #[trigger] d.core.connections.keys()[a] == d.core.connections.values()[a].address@,
            errors@.len() > start.len() ==> definitions_flawed(*d, defs.entries@),
        decreases d.core.connections.entries().len() - i,
    {
        let key = d.core.connections.key_at(i);
        let connection = d.core.connections.value_at(i);
        let here = path_of(&["core", "/connection/", key.as_str()]);
        let ghost before = errors@;
        let ghost entries = defs.entries@;
        if !key.same(&connection.address) {
            report(errors, "C5", owned(here.as_str()), Some(owned(key.as_str())), "connection map key and connection address differ");
            proof {
                assert(d.core.connections.keys()[i as int] == key@);
                assert(d.core.connections.values()[i as int] == *connection);
            }
        }
        let ghost mid = errors@;
        defs.add(&connection.address, ElementKind::Connection, &core, here, errors);
        proof {
            let entry = (connection.address@, ElementKind::Connection, None::<Seq<char>>);
            assert(entries.push(entry) =~= entries + seq![entry]);
            if errors@.len() > start.len() {
                if mid.len() > start.len() {
                    if before.len() > start.len() {
                        lemma_flawed_grow(*d, entries, seq![entry]);
                    }
                } else {
                    lemma_repeat_push(entries, entry);
                }
            }
            assert(errors@.subrange(0, start.len() as int) =~= before.subrange(0, start.len() as int));
            let t = d.core.connections.values().take(i + 1).map_values(|c: Connection| (c.address@, ElementKind::Connection, None::<Seq<char>>));
            assert(t =~= d.core.connections.values().take(i as int).map_values(|c: Connection| (c.address@, ElementKind::Connection, None::<Seq<char>>)).push((connection.address@, ElementKind::Connection, None::<Seq<char>>)));
            if errors@.len() == start.len() {
                lemma_distinct_push(entry_addresses(entries), connection.address@);
                assert(entry_addresses(defs.entries@) =~= entry_addresses(entries).push(connection.address@));
            }
        }
        i = i + 1;
    }
    proof {
        assert(d.core.connections.values().take(i as int) =~= d.core.connections.values());
    }
    let ghost e2 = defs.entries@;
    let ghost len2 = errors@.len();
    let mut i: usize = 0;
    while i < d.core.groups.len()
        invariant
            defs.wf(),
            core.view() is None,
            i <= d.core.groups.entries().len(),
            defs.entries@ == e2 + d.core.groups.values().take(i as int).map_values(
                |g: Group| (g.address@, ElementKind::Group, None::<Seq<char>>),
            ),
            extends(start, errors@),
            errors@.len() >= len2,
            errors@.len() == start.len() ==> addresses_distinct(entry_addresses(defs.entries@)),
            errors@.len() == start.len() ==> forall|a: int|
                0 <= a < i ==> #[trigger] d.core.groups.keys()[a] == d.core.groups.values()[a].address@,
            errors@.len() > start.len() ==> definitions_flawed(*d, defs.entries@),
        decreases d.core.groups.entries().len() - i,
    {
        let key = d.core.groups.key_at(i);
        let group = d.core.groups.value_at(i);
        let here = path_of(&["core", "/group/", key.as_str()]);
        let ghost before = errors@;
        let ghost entries = defs.entries@;
        if !key.same(&group.address) {
            report(errors, "C5", owned(here.as_str()), Some(owned(key.as_str())), "group map key and group address differ");
            proof {
                assert(d.core.groups.keys()[i as int] == key@);
                assert(d.core.groups.values()[i as int] == *group);
            }
        }
        let ghost mid = errors@;
        defs.add(&group.address, ElementKind::Group, &core, here, errors);
        proof {
            let entry = (group.address@, ElementKind::Group, None::<Seq<char>>);
            assert(entries.push(entry) =~= entries + seq![entry]);
            if errors@.len() > start.len() {
                if mid.len() > start.len() {
                    if before.len() > start.len() {
                        lemma_flawed_grow(*d, entries, seq![entry]);
                    }
                } else {
                    lemma_repeat_push(entries, entry);
                }
            }
            assert(errors@.subrange(0, start.len() as int) =~= before.subrange(0, start.len() as int));
            let t = d.core.groups.values().take(i + 1).map_values(|g: Group| (g.address@, ElementKind::Group, None::<Seq<char>>));
            assert(t =~= d.core.groups.values().take(i as int).map_values(|g: Group| (g.address@, ElementKind::Group, None::<Seq<char>>)).push((group.address@, ElementKind::Group, None::<Seq<char>>)));
            if errors@.len() == start.len() {
                lemma_distinct_push(entry_addresses(entries), group.address@);
                assert(entry_addresses(defs.entries@) =~= entry_addresses(entries).push(group.address@));
            }
        }
        i = i + 1;
    }
    proof {
        assert(d.core.groups.values().take(i as int) =~= d.core.groups.values());
    }
    let ghost e3 = defs.entries@;
    let ghost len3 = errors@.len();
    let mut l: usize = 0;
    while l < d.layers.len()
        invariant
            defs.wf(),
            l <= d.layers@.len(),
            defs.entries@ == e3 + layers_defs(d.layers@.take(l as int)),
            extends(start, errors@),
            errors@.len() >= len3,
            errors@.len() == start.len() ==> addresses_distinct(entry_addresses(defs.entries@)),
            errors@.len() == start.len() ==> forall|a: int, k: int|
                0 <= a < l && 0 <= k < d.layers@[a].projection.select@.len() && (#[trigger] d.layers@[a].projection.select@[k]) is GenerateBlock
                    ==> block_ok(d.layers@[a].projection.select@[k]->GenerateBlock_0, d.layers@[a].projection.select@[k]->GenerateBlock_0.address@),
            errors@.len() > start.len() ==> definitions_flawed(*d, defs.entries@),
        decreases d.layers@.len() - l,
    {
        let layer = &d.layers[l];
        let site = Site::Layer(owned(layer.name.as_str()));
        let location = path_of(&["layer/", layer.name.as_str(), "/select"]);
        let ghost e4 = defs.entries@;
        let ghost len4 = errors@.len();
        let mut k: usize = 0;
        while k < layer.projection.select.len()
            invariant
                defs.wf(),
                l < d.layers@.len(),
                *layer == d.layers@[l as int],
                site.view() == Some(layer.name@),
                k <= layer.projection.select@.len(),
                defs.entries@ == e4 + items_defs(layer.projection.select@.take(k as int), Some(layer.name@)),
                extends(start, errors@),
                errors@.len() >= len4,
                errors@.len() == start.len() ==> addresses_distinct(entry_addresses(defs.entries@)),
                errors@.len() == start.len() ==> forall|b: int|
                    0 <= b < k && (#[trigger] layer.projection.select@[b]) is GenerateBlock
                        ==> block_ok(layer.projection.select@[b]->GenerateBlock_0, layer.projection.select@[b]->GenerateBlock_0.address@),
                errors@.len() > start.len() ==> definitions_flawed(*d, defs.entries@),
            decreases layer.projection.select@.len() - k,
        {
            let ghost before = errors@;
            let ghost entries = defs.entries@;
            match &layer.projection.select[k] {
                SelectItem::Use(_) => {
                    proof {
                        assert(entries =~= entries + Seq::<DefEntry>::empty());
                    }
                },
                SelectItem::GenerateBlock(block) => {
                    add_block(&mut defs, &block.address, block, &site, location.as_str(), errors);
                    proof {
                        if errors@.len() > start.len() {
                            if before.len() > start.len() {
                                lemma_flawed_grow(*d, entries, block_defs(*block, site.view()));
                            } else if !block_ok(*block, block.address@) {
                                assert(d.layers@[l as int].projection.select@[k as int] is GenerateBlock);
                                assert(!generated_blocks_ok(d.layers@));
                            }
                        }
                    }
                },
                SelectItem::GenerateConnection(connection) => {
                    let here = path_of(&[location.as_str(), "/connection/", connection.address.as_str()]);
                    defs.add(&connection.address, ElementKind::Connection, &site, here, errors);
                    proof {
                        let entry = (connection.address@, ElementKind::Connection, site.view());
                        assert(entries.push(entry) =~= entries + seq![entry]);
                        if errors@.len() > start.len() {
                            if before.len() > start.len() {
                                lemma_flawed_grow(*d, entries, seq![entry]);
                            } else {
                                lemma_repeat_push(entries, entry);
                            }
                        }
                        if errors@.len() == start.len() {
                            lemma_distinct_push(entry_addresses(entries), connection.address@);
                            assert(entry_addresses(defs.entries@) =~= entry_addresses(entries).push(connection.address@));
                        }
                    }
                },
                SelectItem::GenerateGroup(group) => {
                    let here = path_of(&[location.as_str(), "/group/", group.address.as_str()]);
                    defs.add(&group.address, ElementKind::Group, &site, here, errors);
                    proof {
                        let entry = (group.address@, ElementKind::Group, site.view());
                        assert(entries.push(entry) =~= entries + seq![entry]);
                        if errors@.len() > start.len() {
                            if before.len() > start.len() {
                                lemma_flawed_grow(*d, entries, seq![entry]);
                            } else {
                                lemma_repeat_push(entries, entry);
                            }
                        }
                        if errors@.len() == start.len() {
                            lemma_distinct_push(entry_addresses(entries), group.address@);
                            assert(entry_addresses(defs.entries@) =~= entry_addresses(entries).push(group.address@));
                        }
                    }
                },
            }
            proof {
                assert(errors@.subrange(0, start.len() as int) =~= before.subrange(0, start.len() as int));
                let t = layer.projection.select@.take(k + 1);
                assert(t.drop_last() =~= layer.projection.select@.take(k as int));
                assert(t.last() == layer.projection.select@[k as int]);
                assert(defs.entries@ =~= e4 + items_defs(t, Some(layer.name@)));
            }
            k = k + 1;
        }
        proof {
            assert(layer.projection.select@.take(k as int) =~= layer.projection.select@);
            let t = d.layers@.take(l + 1);
            assert(t.drop_last() =~= d.layers@.take(l as int));
            assert(t.last() == *layer);
            assert(defs.entries@ =~= e3 + layers_defs(t));
        }
        l = l + 1;
    }
    proof {
        assert(d.layers@.take(l as int) =~= d.layers@);
        assert(defs.entries@ =~= definition_entries(*d));
    }
    defs
}

/// An address with no definition has no first definition.
pub proof fn lemma_first_definition_none(entries: Seq<DefEntry>, q: Seq<char>)
    requires
        !entry_addresses(entries).contains(q),
    ensures
        first_definition(entries, q) is None,
    decreases entries.len(),
{
    if entries.len() > 0 {
        assert(entry_addresses(entries.drop_last()) =~= entry_addresses(entries).drop_last());
        if entry_addresses(entries.drop_last()).contains(q) {
            let i = choose|i: int| 0 <= i < entry_addresses(entries.drop_last()).len() && entry_addresses(entries.drop_last())[i] == q;
            assert(entry_addresses(entries)[i] == q);
        }
        lemma_first_definition_none(entries.drop_last(), q);
        assert(entry_addresses(entries)[entries.len() - 1] == entries.last().0);
    }
}

} // verus!

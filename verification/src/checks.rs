//! The checks that read the definitions and references of a description:
//! connection endpoints (C2), reference visibility (C6) and definition
//! locality (C7).
use vstd::prelude::*;

use crate::address::Address;
use crate::definitions::{first_definition, DefEntry, Definitions, Site};
use crate::layers::{site_visible, LayerGraph};
use crate::map::{strictly_increasing, OrderedMap};
use crate::model::{Connection, Description};
use crate::projection::{Layer, SelectItem};
use crate::references::{ref_views, RefEntry, Reference};
use crate::schema::ElementKind;
use crate::text::{owned, push_str};
use crate::extensions::{error_views, lemma_views_push};
use crate::schema::element_kind_debug;
use crate::validate::{extends, located_at, report, ValidationError};

verus! {

pub open spec fn items_connections(items: Seq<SelectItem>) -> Seq<Connection>
    decreases items.len(),
{
    if items.len() == 0 {
        Seq::empty()
    } else {
        items_connections(items.drop_last()) + match items.last() {
            SelectItem::GenerateConnection(c) => seq![c],
            _ => Seq::empty(),
        }
    }
}

pub open spec fn layers_connections(layers: Seq<Layer>) -> Seq<Connection>
    decreases layers.len(),
{
    if layers.len() == 0 {
        Seq::empty()
    } else {
        layers_connections(layers.drop_last()) + items_connections(layers.last().projection.select@)
    }
}

/// An address whose first definition is a port.
pub open spec fn defines_port(entries: Seq<DefEntry>, a: Seq<char>) -> bool {
    first_definition(entries, a) matches Some(d) && d.0 == ElementKind::Port
}

/// Both ends of a connection are ports.
pub open spec fn connection_ok(entries: Seq<DefEntry>, c: Connection) -> bool {
    defines_port(entries, c.source@) && defines_port(entries, c.destination@)
}

/// Every connection, in the core graph or generated by a layer, joins two
/// ports (C2).
pub open spec fn connections_valid(d: Description, entries: Seq<DefEntry>) -> bool {
    forall|c: Connection|
        (d.core.connections.values().contains(c) || layers_connections(d.layers@).contains(c)) ==> #[trigger] connection_ok(entries, c)
}

/// The C2 errors of one endpoint at `location`: none when its address is
/// first defined as a port.
pub open spec fn endpoint_errors(entries: Seq<DefEntry>, a: Seq<char>, location: Seq<char>) -> Seq<
    (Seq<char>, Seq<char>, Option<Seq<char>>, Seq<char>),
> {
    match first_definition(entries, a) {
        Some(d) => if d.0 == ElementKind::Port {
            Seq::empty()
        } else {
            seq![("C2"@, location, Some(a), "connection endpoint is "@ + element_kind_debug(d.0) + ", not a port"@)]
        },
        None => seq![("C2"@, location, Some(a), "connection endpoint does not resolve to a port"@)],
    }
}

/// The C2 errors of a connection at `location`: its source's, then its
/// destination's.
pub open spec fn connection_errors(entries: Seq<DefEntry>, c: Connection, location: Seq<char>) -> Seq<
    (Seq<char>, Seq<char>, Option<Seq<char>>, Seq<char>),
> {
    endpoint_errors(entries, c.source@, location + "/"@ + "source"@) + endpoint_errors(
        entries,
        c.destination@,
        location + "/"@ + "destination"@,
    )
}

/// The C2 errors of the first `n` core connections.
pub open spec fn core_connection_errors(entries: Seq<DefEntry>, cs: Seq<Connection>, n: nat) -> Seq<
    (Seq<char>, Seq<char>, Option<Seq<char>>, Seq<char>),
>
    decreases n,
{
    if n == 0 {
        Seq::empty()
    } else {
        core_connection_errors(entries, cs, (n - 1) as nat) + connection_errors(
            entries,
            cs[n - 1],
            "core/connection/"@ + cs[n - 1].address@ + ""@,
        )
    }
}

/// The C2 errors of the connections among the first `n` items of the layer
/// named `name`.
pub open spec fn items_connection_errors(entries: Seq<DefEntry>, name: Seq<char>, items: Seq<SelectItem>, n: nat) -> Seq<
    (Seq<char>, Seq<char>, Option<Seq<char>>, Seq<char>),
>
    decreases n,
{
    if n == 0 {
        Seq::empty()
    } else {
        items_connection_errors(entries, name, items, (n - 1) as nat) + match items[n - 1] {
            SelectItem::GenerateConnection(c) => connection_errors(
                entries,
                c,
                "layer/"@ + name + "/connection/"@ + c.address@,
            ),
            _ => Seq::empty(),
        }
    }
}

/// The C2 errors of the first `n` layers.
pub open spec fn layers_connection_errors(entries: Seq<DefEntry>, layers: Seq<Layer>, n: nat) -> Seq<
    (Seq<char>, Seq<char>, Option<Seq<char>>, Seq<char>),
>
    decreases n,
{
    if n == 0 {
        Seq::empty()
    } else {
        layers_connection_errors(entries, layers, (n - 1) as nat) + items_connection_errors(
            entries,
            layers[n - 1].name@,
            layers[n - 1].projection.select@,
            layers[n - 1].projection.select@.len(),
        )
    }
}

/// Every C2 error of a description, in check order: the core connections,
/// then each layer's generated connections.
pub open spec fn connection_errors_of(d: Description, entries: Seq<DefEntry>) -> Seq<
    (Seq<char>, Seq<char>, Option<Seq<char>>, Seq<char>),
> {
    core_connection_errors(entries, d.core.connections.values(), d.core.connections.values().len())
        + layers_connection_errors(entries, d.layers@, d.layers@.len())
}

fn check_endpoint(defs: &Definitions, address: &Address, location: String, errors: &mut Vec<ValidationError>)
    requires
        defs.wf(),
    ensures
        extends(old(errors)@, final(errors)@),
        final(errors)@.len() == old(errors)@.len() <==> defines_port(defs.entries@, address@),
        error_views(final(errors)@) == error_views(old(errors)@) + endpoint_errors(defs.entries@, address@, location@),
{
    let ghost start = errors@;
    proof {
        reveal_strlit("C2");
    }
    match defs.get(address) {
        Some(definition) => {
            if let ElementKind::Port = definition.kind {
                proof {
                    assert(errors@.subrange(0, errors@.len() as int) =~= errors@);
                    assert(error_views(errors@) =~= error_views(start) + Seq::empty());
                }
            } else {
                let mut message = owned("connection endpoint is ");
                push_str(&mut message, definition.kind.debug_name());
                push_str(&mut message, ", not a port");
                let ghost lv = location@;
                report(errors, "C2", location, Some(owned(address.as_str())), message.as_str());
                proof {
                    lemma_views_push(start, errors@);
                    assert(error_views(errors@) =~= error_views(start) + endpoint_errors(defs.entries@, address@, lv));
                }
            }
        },
        None => {
            let ghost lv = location@;
            report(errors, "C2", location, Some(owned(address.as_str())), "connection endpoint does not resolve to a port");
            proof {
                lemma_views_push(start, errors@);
                assert(error_views(errors@) =~= error_views(start) + endpoint_errors(defs.entries@, address@, lv));
            }
        },
    }
}

fn check_connection(defs: &Definitions, c: &Connection, location: &str, errors: &mut Vec<ValidationError>)
    requires
        defs.wf(),
    ensures
        extends(old(errors)@, final(errors)@),
        final(errors)@.len() == old(errors)@.len() <==> connection_ok(defs.entries@, *c),
        error_views(final(errors)@) == error_views(old(errors)@) + connection_errors(defs.entries@, *c, location@),
{
    let ghost start = errors@;
    check_endpoint(defs, &c.source, located_at(location, "/", "source"), errors);
    let ghost mid = errors@;
    check_endpoint(defs, &c.destination, located_at(location, "/", "destination"), errors);
    proof {
        assert(errors@.subrange(0, start.len() as int) =~= mid.subrange(0, start.len() as int));
        assert(error_views(errors@) =~= error_views(start) + connection_errors(defs.entries@, *c, location@));
    }
}

/// Reports connection endpoints that are not ports (C2).
pub fn check_connections(d: &Description, defs: &Definitions, errors: &mut Vec<ValidationError>)
    requires
        defs.wf(),
    ensures
        extends(old(errors)@, final(errors)@),
        final(errors)@.len() == old(errors)@.len() <==> connections_valid(*d, defs.entries@),
        error_views(final(errors)@) == error_views(old(errors)@) + connection_errors_of(*d, defs.entries@),
{
    let ghost start = errors@;
    let ghost cs = d.core.connections.values();
    proof {
        assert(errors@.subrange(0, start.len() as int) =~= start);
    }
    let connections = &d.core.connections;
    let mut i: usize = 0;
    while i < connections.len()
        invariant
            defs.wf(),
            *connections == d.core.connections,
            i <= connections.entries().len(),
            extends(start, errors@),
            errors@.len() == start.len() <==> forall|a: int| 0 <= a < i ==> connection_ok(defs.entries@, #[trigger] connections.values()[a]),
            cs == connections.values(),
            error_views(errors@) == error_views(start) + core_connection_errors(defs.entries@, cs, i as nat),
        decreases connections.entries().len() - i,
    {
        let c = connections.value_at(i);
        let here = located_at("core/connection/", c.address.as_str(), "");
        let ghost before = errors@;
        check_connection(defs, c, here.as_str(), errors);
        proof {
            assert(errors@.subrange(0, start.len() as int) =~= before.subrange(0, start.len() as int));
            assert(connections.values()[i as int] == *c);
            reveal_strlit("core/connection/");
            reveal_strlit("");
            assert(core_connection_errors(defs.entries@, cs, (i + 1) as nat) == core_connection_errors(defs.entries@, cs, i as nat)
                + connection_errors(defs.entries@, *c, here@));
            assert(error_views(errors@) =~= error_views(start) + core_connection_errors(defs.entries@, cs, (i + 1) as nat));
        }
        i = i + 1;
    }
    let ghost core_ok = errors@.len() == start.len();
    let mut l: usize = 0;
    while l < d.layers.len()
        invariant
            defs.wf(),
            l <= d.layers@.len(),
            extends(start, errors@),
            core_ok <==> forall|a: int| 0 <= a < d.core.connections.values().len() ==> connection_ok(defs.entries@, #[trigger] d.core.connections.values()[a]),
            errors@.len() == start.len() <==> (core_ok && forall|a: int|
                0 <= a < layers_connections(d.layers@.take(l as int)).len() ==> connection_ok(
                    defs.entries@,
                    #[trigger] layers_connections(d.layers@.take(l as int))[a],
                )),
            error_views(errors@) == error_views(start) + core_connection_errors(defs.entries@, cs, cs.len())
                + layers_connection_errors(defs.entries@, d.layers@, l as nat),
        decreases d.layers@.len() - l,
    {
        let layer = &d.layers[l];
        let ghost prior = layers_connections(d.layers@.take(l as int));
        let ghost len0 = errors@.len();
        let ghost base = error_views(errors@);
        let mut k: usize = 0;
        while k < layer.projection.select.len()
            invariant
                defs.wf(),
                l < d.layers@.len(),
                *layer == d.layers@[l as int],
                k <= layer.projection.select@.len(),
                extends(start, errors@),
                errors@.len() >= len0,
                len0 >= start.len(),
                errors@.len() == len0 <==> forall|a: int|
                    0 <= a < items_connections(layer.projection.select@.take(k as int)).len() ==> connection_ok(
                        defs.entries@,
                        #[trigger] items_connections(layer.projection.select@.take(k as int))[a],
                    ),
                error_views(errors@) == base + items_connection_errors(defs.entries@, layer.name@, layer.projection.select@, k as nat),
            decreases layer.projection.select@.len() - k,
        {
            let ghost before = errors@;
            let ghost t = layer.projection.select@.take(k + 1);
            proof {
                assert(t.drop_last() =~= layer.projection.select@.take(k as int));
                assert(t.last() == layer.projection.select@[k as int]);
            }
            if let SelectItem::GenerateConnection(c) = &layer.projection.select[k] {
                let mut here = located_at("layer/", layer.name.as_str(), "/connection/");
                push_str(&mut here, c.address.as_str());
                check_connection(defs, c, here.as_str(), errors);
                proof {
                    reveal_strlit("layer/");
                    reveal_strlit("/connection/");
                    assert(items_connection_errors(defs.entries@, layer.name@, layer.projection.select@, (k + 1) as nat)
                        == items_connection_errors(defs.entries@, layer.name@, layer.projection.select@, k as nat)
                        + connection_errors(defs.entries@, *c, here@));
                    assert(error_views(errors@) =~= base + items_connection_errors(defs.entries@, layer.name@, layer.projection.select@, (k + 1) as nat));
                    assert(errors@.subrange(0, start.len() as int) =~= before.subrange(0, start.len() as int));
                    let prev = items_connections(layer.projection.select@.take(k as int));
                    assert(items_connections(t) =~= prev.push(*c));
                    if errors@.len() == len0 {
                        assert forall|a: int| 0 <= a < items_connections(t).len() implies connection_ok(defs.entries@, #[trigger] items_connections(t)[a]) by {
                            if a < prev.len() {
                                assert(items_connections(t)[a] == prev[a]);
                            }
                        }
                    } else {
                        if before.len() == len0 {
                            assert(items_connections(t)[prev.len() as int] == *c);
                        } else {
                            let a = choose|a: int| 0 <= a < prev.len() && !connection_ok(defs.entries@, #[trigger] prev[a]);
                            assert(items_connections(t)[a] == prev[a]);
                        }
                    }
                }
            } else {
                proof {
                    assert(items_connections(t) =~= items_connections(layer.projection.select@.take(k as int)));
                    assert(items_connection_errors(defs.entries@, layer.name@, layer.projection.select@, (k + 1) as nat)
                        =~= items_connection_errors(defs.entries@, layer.name@, layer.projection.select@, k as nat));
                }
            }
            k = k + 1;
        }
        proof {
            assert(layer.projection.select@.take(k as int) =~= layer.projection.select@);
            assert(error_views(errors@) =~= error_views(start) + core_connection_errors(defs.entries@, cs, cs.len())
                + layers_connection_errors(defs.entries@, d.layers@, (l + 1) as nat));
            let t = d.layers@.take(l + 1);
            assert(t.drop_last() =~= d.layers@.take(l as int));
            assert(t.last() == *layer);
            let mine = items_connections(layer.projection.select@);
            assert(layers_connections(t) =~= prior + mine);
            let all = prior + mine;
            if errors@.len() == start.len() {
                assert forall|a: int| 0 <= a < all.len() implies connection_ok(defs.entries@, #[trigger] all[a]) by {
                    if a < prior.len() {
                        assert(all[a] == prior[a]);
                    } else {
                        assert(all[a] == mine[a - prior.len()]);
                    }
                }
            } else if len0 == start.len() {
                let a = choose|a: int| 0 <= a < mine.len() && !connection_ok(defs.entries@, #[trigger] mine[a]);
                assert(all[a + prior.len()] == mine[a]);
            } else if core_ok {
                let a = choose|a: int| 0 <= a < prior.len() && !connection_ok(defs.entries@, #[trigger] prior[a]);
                assert(all[a] == prior[a]);
            }
        }
        l = l + 1;
    }
    proof {
        assert(d.layers@.take(l as int) =~= d.layers@);
        let all = layers_connections(d.layers@);
        let core = d.core.connections.values();
        if errors@.len() == start.len() {
            assert forall|c: Connection| (core.contains(c) || all.contains(c)) implies #[trigger] connection_ok(defs.entries@, c) by {
                if core.contains(c) {
                    let a = choose|a: int| 0 <= a < core.len() && core[a] == c;
                } else {
                    let a = choose|a: int| 0 <= a < all.len() && all[a] == c;
                }
            }
        } else if !core_ok {
            let a = choose|a: int| 0 <= a < core.len() && !connection_ok(defs.entries@, #[trigger] core[a]);
            assert(core.contains(core[a]));
        } else {
            let a = choose|a: int| 0 <= a < all.len() && !connection_ok(defs.entries@, #[trigger] all[a]);
            assert(all.contains(all[a]));
        }
    }
}

/// A reference resolves to a definition whose site it sees.
pub open spec fn reference_ok(layers: Seq<Layer>, entries: Seq<DefEntry>, r: RefEntry) -> bool {
    first_definition(entries, r.0) matches Some(def) && site_visible(layers, def.1, r.1)
}

/// Every reference resolves and sees its definition (C6).
pub open spec fn references_valid(layers: Seq<Layer>, entries: Seq<DefEntry>, refs: Seq<RefEntry>) -> bool {
    forall|i: int| 0 <= i < refs.len() ==> reference_ok(layers, entries, #[trigger] refs[i])
}

/// The C6 errors of the first `n` references, in order: one for each that
/// does not resolve, or does not see its definition.
pub open spec fn reference_errors(layers: Seq<Layer>, entries: Seq<DefEntry>, refs: Seq<Reference>, n: nat) -> Seq<
    (Seq<char>, Seq<char>, Option<Seq<char>>, Seq<char>),
>
    decreases n,
{
    if n == 0 {
        Seq::empty()
    } else {
        let r = refs[n - 1];
        reference_errors(layers, entries, refs, (n - 1) as nat) + match first_definition(entries, r.target@) {
            None => seq![("C6"@, r.location@, Some(r.target@), "reference does not resolve to an element"@)],
            Some(def) => if site_visible(layers, def.1, r.site.view()) {
                Seq::empty()
            } else {
                seq![
                    ("C6"@, r.location@, Some(r.target@), "reference is below the definition site or outside declared inputs"@),
                ]
            },
        }
    }
}

/// Reports references that do not resolve or do not see their definition
/// (C6).
pub fn check_references(
    layers: &Vec<Layer>,
    graph: &LayerGraph,
    defs: &Definitions,
    refs: &Vec<Reference>,
    errors: &mut Vec<ValidationError>,
)
    requires
        defs.wf(),
        graph.wf(layers@),
    ensures
        extends(old(errors)@, final(errors)@),
        final(errors)@.len() == old(errors)@.len() <==> references_valid(layers@, defs.entries@, ref_views(refs@)),
        error_views(final(errors)@) == error_views(old(errors)@) + reference_errors(layers@, defs.entries@, refs@, refs@.len()),
{
    let ghost start = errors@;
    proof {
        assert(errors@.subrange(0, start.len() as int) =~= start);
    }
    let mut i: usize = 0;
    while i < refs.len()
        invariant
            defs.wf(),
            graph.wf(layers@),
            i <= refs@.len(),
            extends(start, errors@),
            errors@.len() == start.len() <==> forall|a: int| 0 <= a < i ==> reference_ok(layers@, defs.entries@, #[trigger] ref_views(refs@)[a]),
            error_views(errors@) == error_views(start) + reference_errors(layers@, defs.entries@, refs@, i as nat),
        decreases refs@.len() - i,
    {
        let r = &refs[i];
        let ghost before = errors@;
        proof {
            reveal_strlit("C6");
            assert(refs@[i as int] == *r);
        }
        match defs.get(&r.target) {
            None => {
                report(errors, "C6", owned(r.location.as_str()), Some(owned(r.target.as_str())), "reference does not resolve to an element");
                proof {
                    lemma_views_push(before, errors@);
                }
            },
            Some(def) => {
                if !graph.visible(layers, &def.site, &r.site) {
                    report(errors, "C6", owned(r.location.as_str()), Some(owned(r.target.as_str())), "reference is below the definition site or outside declared inputs");
                    proof {
                        lemma_views_push(before, errors@);
                    }
                }
            },
        }
        proof {
            assert(error_views(errors@) =~= error_views(start) + reference_errors(layers@, defs.entries@, refs@, (i + 1) as nat));
            assert(errors@.subrange(0, start.len() as int) =~= before.subrange(0, start.len() as int));
            assert(ref_views(refs@)[i as int] == (r.target@, r.site.view()));
            if errors@.len() != start.len() && before.len() != start.len() {
                let a = choose|a: int| 0 <= a < i && !reference_ok(layers@, defs.entries@, #[trigger] ref_views(refs@)[a]);
            }
        }
        i = i + 1;
    }
}

/// A site a definition could move to: the core graph or one of the layers.
pub open spec fn is_candidate(layers: Seq<Layer>, c: Option<Seq<char>>) -> bool {
    c is None || exists|l: int| 0 <= l < layers.len() && c == Some(#[trigger] layers[l].name@)
}

/// Every reference to `q` sees site `c`.
pub open spec fn seen_by_all(layers: Seq<Layer>, refs: Seq<RefEntry>, q: Seq<char>, c: Option<Seq<char>>) -> bool {
    forall|i: int| 0 <= i < refs.len() && (#[trigger] refs[i]).0 == q ==> site_visible(layers, c, refs[i].1)
}

/// A candidate site every reference to `q` sees.
pub open spec fn legal_site(layers: Seq<Layer>, refs: Seq<RefEntry>, q: Seq<char>, c: Option<Seq<char>>) -> bool {
    is_candidate(layers, c) && seen_by_all(layers, refs, q, c)
}

/// A legal site that no other legal site sees from above.
pub open spec fn maximal_site(layers: Seq<Layer>, refs: Seq<RefEntry>, q: Seq<char>, c: Option<Seq<char>>) -> bool {
    legal_site(layers, refs, q, c) && forall|o: Option<Seq<char>>|
        #![trigger legal_site(layers, refs, q, o)]
        legal_site(layers, refs, q, o) && o != c ==> !site_visible(layers, c, o)
}

/// An element defined in a layer and referenced somewhere is defined at a
/// maximal site that every reference sees, when there is one.
pub open spec fn locality_ok_for(layers: Seq<Layer>, entries: Seq<DefEntry>, refs: Seq<RefEntry>, q: Seq<char>) -> bool {
    let referenced = exists|i: int| 0 <= i < refs.len() && (#[trigger] refs[i]).0 == q;
    let in_layer = first_definition(entries, q) is Some && (first_definition(entries, q)->0).1 is Some;
    let has_legal = exists|c: Option<Seq<char>>| #[trigger] legal_site(layers, refs, q, c);
    (referenced && in_layer && has_legal) ==> maximal_site(layers, refs, q, (first_definition(entries, q)->0).1)
}

/// Definition locality holds for every address (C7).
pub open spec fn locality_valid(layers: Seq<Layer>, entries: Seq<DefEntry>, refs: Seq<RefEntry>) -> bool {
    forall|q: Seq<char>| #[trigger] locality_ok_for(layers, entries, refs, q)
}

/// The C7 errors for the first `n` of the referenced addresses `keys`: one
/// for each whose definition breaks locality.
pub open spec fn locality_errors(
    layers: Seq<Layer>,
    entries: Seq<DefEntry>,
    refs: Seq<RefEntry>,
    keys: Seq<Seq<char>>,
    n: nat,
) -> Seq<(Seq<char>, Seq<char>, Option<Seq<char>>, Seq<char>)>
    decreases n,
{
    if n == 0 {
        Seq::empty()
    } else {
        locality_errors(layers, entries, refs, keys, (n - 1) as nat) + if locality_ok_for(layers, entries, refs, keys[n - 1]) {
            Seq::empty()
        } else {
            seq![
                ("C7"@, "definition-sites"@, Some(keys[n - 1]), "element is defined below a maximal site visible to every reference"@),
            ]
        }
    }
}

/// `after` is `before` followed by the C7 errors of the referenced addresses,
/// taken in increasing order.
pub open spec fn locality_errors_added(
    layers: Seq<Layer>,
    entries: Seq<DefEntry>,
    refs: Seq<RefEntry>,
    before: Seq<(Seq<char>, Seq<char>, Option<Seq<char>>, Seq<char>)>,
    after: Seq<(Seq<char>, Seq<char>, Option<Seq<char>>, Seq<char>)>,
) -> bool {
    exists|keys: Seq<Seq<char>>|
        #[trigger] strictly_increasing(keys) && (forall|q: Seq<char>|
            keys.contains(q) <==> exists|i: int| 0 <= i < refs.len() && (#[trigger] refs[i]).0 == q) && after == before
            + locality_errors(layers, entries, refs, keys, keys.len())
}

/// The sites a definition could move to: the core graph, then each layer.
pub open spec fn candidate_views(layers: Seq<Layer>) -> Seq<Option<Seq<char>>> {
    seq![None::<Seq<char>>] + layers.map_values(|l: Layer| Some(l.name@))
}

fn candidates(layers: &Vec<Layer>) -> (c: Vec<Site>)
    ensures
        c@.map_values(|s: Site| s.view()) == candidate_views(layers@),
{
    let mut c: Vec<Site> = Vec::new();
    c.push(Site::Core);
    let mut l: usize = 0;
    while l < layers.len()
        invariant
            l <= layers@.len(),
            c@.map_values(|s: Site| s.view()) == seq![None::<Seq<char>>] + layers@.take(l as int).map_values(|x: Layer| Some(x.name@)),
        decreases layers@.len() - l,
    {
        let ghost before = c@;
        c.push(Site::Layer(owned(layers[l].name.as_str())));
        proof {
            assert(c@.map_values(|s: Site| s.view()) =~= before.map_values(|s: Site| s.view()).push(Some(layers@[l as int].name@)));
            assert(layers@.take(l + 1).map_values(|x: Layer| Some(x.name@)) =~= layers@.take(l as int).map_values(|x: Layer| Some(x.name@)).push(Some(layers@[l as int].name@)));
        }
        l = l + 1;
    }
    proof {
        assert(layers@.take(l as int) =~= layers@);
    }
    c
}

proof fn lemma_candidates(layers: Seq<Layer>, c: Option<Seq<char>>)
    ensures
        is_candidate(layers, c) <==> candidate_views(layers).contains(c),
{
    let cv = candidate_views(layers);
    if is_candidate(layers, c) {
        if c is None {
            assert(cv[0] == c);
        } else {
            let l = choose|l: int| 0 <= l < layers.len() && c == Some(#[trigger] layers[l].name@);
            assert(cv[l + 1] == c);
        }
    }
    if cv.contains(c) {
        let k = choose|k: int| 0 <= k < cv.len() && cv[k] == c;
        if k > 0 {
            assert(c == Some(layers[k - 1].name@));
        }
    }
}

fn seen_by_every(
    layers: &Vec<Layer>,
    graph: &LayerGraph,
    refs: &Vec<Reference>,
    q: &Address,
    c: &Site,
) -> (b: bool)
    requires
        graph.wf(layers@),
    ensures
        b == seen_by_all(layers@, ref_views(refs@), q@, c.view()),
{
    let mut i: usize = 0;
    while i < refs.len()
        invariant
            graph.wf(layers@),
            i <= refs@.len(),
            forall|a: int| 0 <= a < i && (#[trigger] ref_views(refs@)[a]).0 == q@ ==> site_visible(layers@, c.view(), ref_views(refs@)[a].1),
        decreases refs@.len() - i,
    {
        proof {
            assert(ref_views(refs@)[i as int] == (refs@[i as int].target@, refs@[i as int].site.view()));
        }
        if refs[i].target.same(q) && !graph.visible(layers, c, &refs[i].site) {
            return false;
        }
        i = i + 1;
    }
    true
}

/// Reports elements defined below a maximal site that every reference to
/// them sees (C7), in address order.
pub fn check_locality(
    layers: &Vec<Layer>,
    graph: &LayerGraph,
    defs: &Definitions,
    refs: &Vec<Reference>,
    errors: &mut Vec<ValidationError>,
)
    requires
        defs.wf(),
        graph.wf(layers@),
    ensures
        extends(old(errors)@, final(errors)@),
        final(errors)@.len() == old(errors)@.len() <==> locality_valid(layers@, defs.entries@, ref_views(refs@)),
        locality_errors_added(layers@, defs.entries@, ref_views(refs@), error_views(old(errors)@), error_views(final(errors)@)),
{
    let ghost start = errors@;
    let ghost rv = ref_views(refs@);
    proof {
        assert(errors@.subrange(0, start.len() as int) =~= start);
    }
    let mut targets: OrderedMap<Address, bool> = OrderedMap::new();
    let mut i: usize = 0;
    while i < refs.len()
        invariant
            rv == ref_views(refs@),
            i <= refs@.len(),
            forall|q: Seq<char>| #[trigger] targets.contains(q) <==> exists|a: int| 0 <= a < i && (#[trigger] rv[a]).0 == q,
        decreases refs@.len() - i,
    {
        let ghost old_targets = targets;
        targets.insert(refs[i].target.clone(), true);
        proof {
            assert(rv[i as int].0 == refs@[i as int].target@);
            assert forall|q: Seq<char>| #[trigger] targets.contains(q) <==> exists|a: int| 0 <= a < i + 1 && (#[trigger] rv[a]).0 == q by {
                if targets.contains(q) && q != refs@[i as int].target@ {
                    assert(old_targets.contains(q));
                }
            }
        }
        i = i + 1;
    }
    let cands = candidates(layers);
    let ghost cv = candidate_views(layers@);
    let mut k: usize = 0;
    while k < targets.len()
        invariant
            defs.wf(),
            graph.wf(layers@),
            rv == ref_views(refs@),
            cands@.map_values(|s: Site| s.view()) == cv,
            cv == candidate_views(layers@),
            forall|q: Seq<char>| #[trigger] targets.contains(q) <==> exists|a: int| 0 <= a < rv.len() && (#[trigger] rv[a]).0 == q,
            k <= targets.entries().len(),
            extends(start, errors@),
            errors@.len() == start.len() <==> forall|a: int| 0 <= a < k ==> locality_ok_for(layers@, defs.entries@, rv, #[trigger] targets.keys()[a]),
            error_views(errors@) == error_views(start) + locality_errors(layers@, defs.entries@, rv, targets.keys(), k as nat),
        decreases targets.entries().len() - k,
    {
        let q = targets.key_at(k);
        let ghost before = errors@;
        proof {
            targets.lemma_index_of(k as int);
            assert(targets.keys()[k as int] == q@);
        }
        let mut ok = true;
        match defs.get(q) {
            Some(def) => {
                if let Site::Layer(_) = &def.site {
                    let mut legal: Vec<bool> = Vec::new();
                    let mut any_legal = false;
                    let mut c: usize = 0;
                    while c < cands.len()
                        invariant
                            graph.wf(layers@),
                            rv == ref_views(refs@),
                            cands@.map_values(|s: Site| s.view()) == cv,
                            c <= cands@.len(),
                            legal@.len() == c,
                            forall|x: int| 0 <= x < c ==> #[trigger] legal@[x] == seen_by_all(layers@, rv, q@, cv[x]),
                            any_legal == exists|x: int| 0 <= x < c && #[trigger] legal@[x],
                        decreases cands@.len() - c,
                    {
                        proof {
                            assert(cv[c as int] == cands@[c as int].view());
                        }
                        let b = seen_by_every(layers, graph, refs, q, &cands[c]);
                        let ghost prev = legal@;
                        legal.push(b);
                        if b {
                            any_legal = true;
                        }
                        proof {
                            if any_legal {
                                if b {
                                    assert(legal@[c as int]);
                                } else {
                                    let x = choose|x: int| 0 <= x < c && #[trigger] prev[x];
                                    assert(legal@[x]);
                                }
                            }
                        }
                        c = c + 1;
                    }
                    let mut maximal = false;
                    let mut m: usize = 0;
                    while m < cands.len() && !maximal
                        invariant
                            graph.wf(layers@),
                            rv == ref_views(refs@),
                            cands@.map_values(|s: Site| s.view()) == cv,
                            cv == candidate_views(layers@),
                            legal@.len() == cands@.len(),
                            forall|x: int| 0 <= x < cands@.len() ==> #[trigger] legal@[x] == seen_by_all(layers@, rv, q@, cv[x]),
                            m <= cands@.len(),
                            maximal ==> maximal_site(layers@, rv, q@, def.site.view()),
                            !maximal ==> forall|x: int| 0 <= x < m && cv[x] == def.site.view() ==> !#[trigger] legal@[x] || exists|y: int|
                                0 <= y < cands@.len() && legal@[y] && cv[y] != cv[x] && site_visible(layers@, cv[x], #[trigger] cv[y]),
                        decreases cands@.len() - m,
                    {
                        proof {
                            assert(cv[m as int] == cands@[m as int].view());
                        }
                        if legal[m] && same_site(&cands[m], &def.site) {
                            let mut dominated = false;
                            let mut o: usize = 0;
                            while o < cands.len() && !dominated
                                invariant
                                    graph.wf(layers@),
                                    rv == ref_views(refs@),
                                    cands@.map_values(|s: Site| s.view()) == cv,
                                    cv == candidate_views(layers@),
                                    legal@.len() == cands@.len(),
                                    forall|x: int| 0 <= x < cands@.len() ==> #[trigger] legal@[x] == seen_by_all(layers@, rv, q@, cv[x]),
                                    m < cands@.len(),
                                    o <= cands@.len(),
                                    dominated ==> exists|y: int|
                                        0 <= y < cands@.len() && legal@[y] && cv[y] != cv[m as int] && site_visible(layers@, cv[m as int], #[trigger] cv[y]),
                                    !dominated ==> forall|y: int|
                                        0 <= y < o && legal@[y] && cv[y] != cv[m as int] ==> !site_visible(layers@, cv[m as int], #[trigger] cv[y]),
                                decreases cands@.len() - o,
                            {
                                proof {
                                    assert(cv[o as int] == cands@[o as int].view());
                                }
                                if legal[o] && !same_site(&cands[o], &cands[m]) && graph.visible(layers, &cands[m], &cands[o]) {
                                    dominated = true;
                                }
                                o = o + 1;
                            }
                            if !dominated {
                                maximal = true;
                                proof {
                                    let c0 = def.site.view();
                                    lemma_candidates(layers@, c0);
                                    assert(cv.contains(c0)) by {
                                        assert(cv[m as int] == c0);
                                    }
                                    assert forall|ov: Option<Seq<char>>|
                                        #![trigger legal_site(layers@, rv, q@, ov)]
                                        legal_site(layers@, rv, q@, ov) && ov != c0 implies !site_visible(layers@, c0, ov) by {
                                        lemma_candidates(layers@, ov);
                                        let y = choose|y: int| 0 <= y < cv.len() && cv[y] == ov;
                                        assert(cv.len() == cands@.len());
                                        assert(legal@[y] == seen_by_all(layers@, rv, q@, cv[y]));
                                        assert(legal@[y]);
                                    }
                                }
                            }
                        }
                        m = m + 1;
                    }
                    if any_legal && !maximal {
                        ok = false;
                        report(errors, "C7", owned("definition-sites"), Some(owned(q.as_str())), "element is defined below a maximal site visible to every reference");
                    }
                    proof {
                        let c0 = def.site.view();
                        let ex = exists|cc: Option<Seq<char>>| #[trigger] legal_site(layers@, rv, q@, cc);
                        if any_legal {
                            let x = choose|x: int| 0 <= x < cands@.len() && #[trigger] legal@[x];
                            lemma_candidates(layers@, cv[x]);
                            assert(legal_site(layers@, rv, q@, cv[x]));
                        } else {
                            assert forall|cc: Option<Seq<char>>| !#[trigger] legal_site(layers@, rv, q@, cc) by {
                                lemma_candidates(layers@, cc);
                                if legal_site(layers@, rv, q@, cc) {
                                    let y = choose|y: int| 0 <= y < cv.len() && cv[y] == cc;
                                    assert(legal@[y]);
                                }
                            }
                        }
                        if !maximal && maximal_site(layers@, rv, q@, c0) {
                            lemma_candidates(layers@, c0);
                            let x = choose|x: int| 0 <= x < cv.len() && cv[x] == c0;
                            assert(legal@[x]);
                            let y = choose|y: int|
                                0 <= y < cands@.len() && legal@[y] && cv[y] != cv[x] && site_visible(layers@, cv[x], #[trigger] cv[y]);
                            lemma_candidates(layers@, cv[y]);
                            assert(legal_site(layers@, rv, q@, cv[y]));
                        }
                    }
                }
            },
            None => {},
        }
        proof {
            assert(errors@.subrange(0, start.len() as int) =~= before.subrange(0, start.len() as int));
            if errors@.len() != start.len() && before.len() != start.len() {
                let a = choose|a: int| 0 <= a < k && !locality_ok_for(layers@, defs.entries@, rv, #[trigger] targets.keys()[a]);
            }
            let qq = q@;
            assert(targets.contains(qq));
            assert(errors@.len() == before.len() <==> locality_ok_for(layers@, defs.entries@, rv, qq));
            if errors@.len() == before.len() {
                assert(errors@ == before);
            } else {
                lemma_views_push(before, errors@);
            }
            assert(error_views(errors@) =~= error_views(start) + locality_errors(layers@, defs.entries@, rv, targets.keys(), (k + 1) as nat));
        }
        k = k + 1;
    }
    proof {
        assert(strictly_increasing(targets.keys()));
        assert forall|q: Seq<char>|
            targets.keys().contains(q) <==> exists|i: int| 0 <= i < rv.len() && (#[trigger] rv[i]).0 == q by {
            assert(targets.contains(q) <==> targets.keys().contains(q));
        }
        if errors@.len() == start.len() {
            assert forall|q: Seq<char>| #[trigger] locality_ok_for(layers@, defs.entries@, rv, q) by {
                if exists|i: int| 0 <= i < rv.len() && (#[trigger] rv[i]).0 == q {
                    assert(targets.contains(q));
                    let a = targets.keys().index_of(q);
                    assert(targets.keys()[a] == q);
                }
            }
        } else {
            let a = choose|a: int| 0 <= a < k && !locality_ok_for(layers@, defs.entries@, rv, #[trigger] targets.keys()[a]);
        }
    }
}

/// Whether two sites are the same.
fn same_site(a: &Site, b: &Site) -> (r: bool)
    ensures
        r == (a.view() == b.view()),
{
    match (a, b) {
        (Site::Core, Site::Core) => true,
        (Site::Layer(x), Site::Layer(y)) => crate::text::str_eq(x.as_str(), y.as_str()),
        _ => false,
    }
}

} // verus!

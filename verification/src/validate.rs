//! Static validation of a description: layer inputs, definitions,
//! connections, references and their visibility, definition locality, and
//! extension parameters against their schemas.
use vstd::prelude::*;

use crate::layers::{
    core_reach, edges, is_edge_table, lemma_edge_in_range, lemma_reaches_index_names, lemma_reaches_names_grow,
    lemma_resolve_in_range, edge, inputs_acyclic, name_reaches_core, on_cycle, reaches_names_within, resolve,
    resolve_layer, reaches_core_within, reaches_index_within,
};
use crate::checks::{
    check_connections, check_locality, check_references, connection_errors_of, connections_valid, locality_errors_added, locality_valid,
    references_valid,
};
use crate::definitions::{collect_definitions, definition_entries, definitions_valid, DefEntry};
use crate::extensions::{all_ok, attachments, check_extensions, error_views, extension_errors_of};
use crate::layers::LayerGraph;
use crate::model::Description;
use crate::projection::{Layer, LayerInput};
use crate::references::{collect_references, reference_entries, ref_views, RefEntry};
use crate::schema::Schema;
use crate::text::{owned, push_str, str_eq};

verus! {

/// A failed check: its code, where it failed, the identifier involved and
/// why.
#[derive(Debug, PartialEq, Eq)]
pub struct ValidationError {
    pub check: &'static str,
    pub location: String,
    pub identifier: Option<String>,
    pub message: String,
}

/// `<check> at <location> for `<identifier>`: <message>`, or without the
/// identifier part when there is none.
pub open spec fn validation_error_text(e: ValidationError) -> Seq<char> {
    match e.identifier {
        Some(id) => e.check@ + " at "@ + e.location@ + " for `"@ + id@ + "`: "@ + e.message@,
        None => e.check@ + " at "@ + e.location@ + ": "@ + e.message@,
    }
}

impl ValidationError {
    /// The error's message.
    pub fn to_string(&self) -> (s: String)
        ensures
            s@ == validation_error_text(*self),
    {
        let mut s = owned(self.check);
        push_str(&mut s, " at ");
        push_str(&mut s, self.location.as_str());
        match &self.identifier {
            Some(id) => {
                push_str(&mut s, " for `");
                push_str(&mut s, id.as_str());
                push_str(&mut s, "`: ");
            },
            None => push_str(&mut s, ": "),
        }
        push_str(&mut s, self.message.as_str());
        s
    }
}

/// The texts of a list of strings.
pub open spec fn string_views(v: Seq<String>) -> Seq<Seq<char>> {
    v.map_values(|s: String| s@)
}

/// `errors` begins with `before`.
pub open spec fn extends(before: Seq<ValidationError>, errors: Seq<ValidationError>) -> bool {
    before.len() <= errors.len() && errors.subrange(0, before.len() as int) == before
}

/// Appends an error.
pub fn report(
    errors: &mut Vec<ValidationError>,
    check: &'static str,
    location: String,
    identifier: Option<String>,
    message: &str,
)
    ensures
        final(errors)@.len() == old(errors)@.len() + 1,
        extends(old(errors)@, final(errors)@),
        final(errors)@.last().check == check,
        final(errors)@.last().message@ == message@,
        final(errors)@.last().location == location,
        final(errors)@.last().identifier == identifier,
{
    errors.push(ValidationError { check, location, identifier, message: owned(message) });
    proof {
        assert(errors@.subrange(0, old(errors)@.len() as int) =~= old(errors)@);
    }
}

/// `<prefix><name><suffix>`.
pub fn located_at(prefix: &str, name: &str, suffix: &str) -> (s: String)
    ensures
        s@ == prefix@ + name@ + suffix@,
{
    let mut s = owned(prefix);
    push_str(&mut s, name);
    push_str(&mut s, suffix);
    s
}

pub fn contains_name(names: &Vec<String>, name: &str) -> (b: bool)
    ensures
        b == string_views(names@).contains(name@),
{
    let mut i: usize = 0;
    while i < names.len()
        invariant
            i <= names@.len(),
            forall|j: int| 0 <= j < i ==> names@[j]@ != name@,
        decreases names@.len() - i,
    {
        if str_eq(names[i].as_str(), name) {
            proof {
                assert(string_views(names@)[i as int] == name@);
            }
            return true;
        }
        i = i + 1;
    }
    proof {
        if string_views(names@).contains(name@) {
            let j = choose|j: int| 0 <= j < names@.len() && #[trigger] string_views(names@)[j] == name@;
            assert(names@[j]@ == name@);
        }
    }
    false
}

/// The layer named `b` is a declared input of the layer named `a`; both names
/// resolve.
pub open spec fn input_step(layers: Seq<Layer>, a: Seq<char>, b: Seq<char>) -> bool {
    &&& resolve_layer(layers, a) is Some
    &&& resolve_layer(layers, b) is Some
    &&& exists|j: int|
        0 <= j < layers[resolve_layer(layers, a)->0].inputs@.len() && #[trigger] edge(
            layers,
            resolve_layer(layers, a)->0,
            j,
        ) == Some(resolve_layer(layers, b)->0)
}

/// The names on `path` are a walk through declared inputs that ends at `name`.
pub open spec fn input_walk(layers: Seq<Layer>, path: Seq<Seq<char>>, name: Seq<char>) -> bool {
    forall|k: int|
        0 <= k < path.len() ==> input_step(layers, #[trigger] path[k], if k + 1 < path.len() {
            path[k + 1]
        } else {
            name
        })
}

/// More steps reach at least as much.
proof fn lemma_reaches_index_more(layers: Seq<Layer>, i: int, goal: int, k: nat, m: nat)
    requires
        k <= m,
        reaches_index_within(layers, i, goal, k),
    ensures
        reaches_index_within(layers, i, goal, m),
    decreases k,
{
    if k > 0 {
        let j = choose|j: int|
            0 <= j < layers[i].inputs@.len() && #[trigger] edge(layers, i, j) is Some && (edge(layers, i, j)->0 == goal
                || reaches_index_within(layers, edge(layers, i, j)->0, goal, (k - 1) as nat));
        if edge(layers, i, j)->0 != goal {
            lemma_reaches_index_more(layers, edge(layers, i, j)->0, goal, (k - 1) as nat, (m - 1) as nat);
        }
    }
}

/// Along a walk, each name's layer reaches the layer of its end.
proof fn lemma_walk_reaches(layers: Seq<Layer>, path: Seq<Seq<char>>, name: Seq<char>, k: int)
    requires
        input_walk(layers, path, name),
        0 <= k < path.len(),
    ensures
        reaches_index_within(
            layers,
            resolve_layer(layers, path[k])->0,
            resolve_layer(layers, name)->0,
            (path.len() - k) as nat,
        ),
    decreases path.len() - k,
{
    let next = if k + 1 < path.len() {
        path[k + 1]
    } else {
        name
    };
    assert(input_step(layers, path[k], next));
    let i = resolve_layer(layers, path[k])->0;
    let j = choose|j: int|
        0 <= j < layers[i].inputs@.len() && #[trigger] edge(layers, i, j) == Some(resolve_layer(layers, next)->0);
    if k + 1 < path.len() {
        lemma_walk_reaches(layers, path, name, k + 1);
    }
    assert(edge(layers, i, j) is Some);
}

/// A walk ending at `name` goes on to an input of `name`.
proof fn lemma_walk_extend(layers: Seq<Layer>, path: Seq<Seq<char>>, name: Seq<char>, next: Seq<char>)
    requires
        input_walk(layers, path, name),
        input_step(layers, name, next),
    ensures
        input_walk(layers, path.push(name), next),
{
    let longer = path.push(name);
    assert forall|k: int| 0 <= k < longer.len() implies input_step(layers, #[trigger] longer[k], if k + 1 < longer.len() {
        longer[k + 1]
    } else {
        next
    }) by {
        if k < path.len() {
            assert(longer[k] == path[k]);
            assert(input_step(layers, path[k], if k + 1 < path.len() {
                path[k + 1]
            } else {
                name
            }));
            if k + 1 < path.len() {
                assert(longer[k + 1] == path[k + 1]);
            }
        }
    }
}

/// A walk that comes back to one of its names shows a cycle of inputs.
proof fn lemma_walk_cycle(layers: Seq<Layer>, path: Seq<Seq<char>>, name: Seq<char>)
    requires
        input_walk(layers, path, name),
        path.contains(name),
        path.len() <= layers.len(),
    ensures
        !inputs_acyclic(layers),
{
    let p = choose|p: int| 0 <= p < path.len() && path[p] == name;
    lemma_walk_reaches(layers, path, name, p);
    assert(input_step(layers, path[p], if p + 1 < path.len() {
        path[p + 1]
    } else {
        name
    }));
    let t = resolve_layer(layers, name)->0;
    lemma_resolve_in_range(layers, name);
    lemma_reaches_index_more(layers, t, t, (path.len() - p) as nat, layers.len());
    assert(resolve_layer(layers, layers[t].name@) == Some(t));
    assert(on_cycle(layers, t));
}

/// Walks the inputs of the layer named `name`, with `visiting` the names on
/// the current path, reporting each name met again on the path as a cycle.
#[verifier::rlimit(100)]
#[verifier::spinoff_prover]
fn visit_cycle(
    layers: &Vec<Layer>,
    e: &Vec<Vec<Option<usize>>>,
    name: &str,
    visiting: &mut Vec<String>,
    fuel: usize,
    errors: &mut Vec<ValidationError>,
)
    requires
        is_edge_table(layers@, e@),
        input_walk(layers@, string_views(old(visiting)@), name@),
        old(visiting)@.len() + fuel <= layers@.len(),
    ensures
        string_views(final(visiting)@) == string_views(old(visiting)@),
        final(visiting)@.len() == old(visiting)@.len(),
        extends(old(errors)@, final(errors)@),
        final(errors)@.len() > old(errors)@.len() ==> !inputs_acyclic(layers@),
        forall|i: int| old(errors)@.len() <= i < final(errors)@.len() ==> (#[trigger] final(errors)@[i]).check == "C9",
        string_views(old(visiting)@).contains(name@) ==> final(errors)@.len() > old(errors)@.len(),
        forall|k: nat|
            #![trigger reaches_names_within(layers@, resolve_layer(layers@, name@)->0, string_views(old(visiting)@).push(name@), k)]
            !string_views(old(visiting)@).contains(name@) && resolve_layer(layers@, name@) is Some
                && reaches_names_within(
                layers@,
                resolve_layer(layers@, name@)->0,
                string_views(old(visiting)@).push(name@),
                k,
            ) && k <= fuel ==> final(errors)@.len() > old(errors)@.len(),
    decreases fuel,
{
    if contains_name(visiting, name) {
        proof {
            lemma_walk_cycle(layers@, string_views(visiting@), name@);
        }
        report(errors, "C9", located_at("layer/", name, "/inputs"), Some(owned(name)), "declared layer inputs contain a cycle");
        return ;
    }
    let ghost start = errors@;
    let ghost outer = string_views(visiting@);
    visiting.push(owned(name));
    proof {
        assert(string_views(visiting@) =~= outer.push(name@));
    }
    let ghost path = string_views(visiting@);
    proof {
        assert(errors@.subrange(0, start.len() as int) =~= start);
    }
    match resolve(layers, name) {
        Some(i) => {
            if fuel > 0 {
                proof {
                    lemma_resolve_in_range(layers@, name@);
                }
                let row = &e[i];
                let mut j: usize = 0;
                proof {
                    assert(errors@.subrange(0, start.len() as int) =~= start);
                }
                while j < row.len()
                    invariant
                        is_edge_table(layers@, e@),
                        i < layers@.len(),
                        resolve_layer(layers@, name@) == Some(i as int),
                        *row == e@[i as int],
                        j <= row@.len(),
                        fuel > 0,
                        string_views(visiting@) == path,
                        path == outer.push(name@),
                        !outer.contains(name@),
                        input_walk(layers@, outer, name@),
                        visiting@.len() == outer.len() + 1,
                        outer.len() + fuel <= layers@.len(),
                        errors@.len() > start.len() ==> !inputs_acyclic(layers@),
                        extends(start, errors@),
                        forall|x: int| start.len() <= x < errors@.len() ==> (#[trigger] errors@[x]).check == "C9",
                        forall|b: int|
                            0 <= b < j && #[trigger] edge(layers@, i as int, b) is Some && (path.contains(
                                layers@[edge(layers@, i as int, b)->0].name@,
                            ) || reaches_names_within(layers@, edge(layers@, i as int, b)->0, path, (fuel - 1) as nat))
                                ==> errors@.len() > start.len(),
                    decreases row@.len() - j,
                {
                    proof {
                        lemma_edge_in_range(layers@, i as int, j as int);
                    }
                    if let Some(t) = row[j] {
                        let ghost before = errors@;
                        let child = layers[t].name.as_str();
                        proof {
                            let m = layers@[i as int].inputs@[j as int]->0@;
                            lemma_resolve_in_range(layers@, m);
                            assert(resolve_layer(layers@, child@) == Some(t as int));
                            if !path.contains(child@) {
                                assert forall|x: Seq<char>| path.contains(x) implies path.push(child@).contains(x) by {
                                    let idx = choose|idx: int| 0 <= idx < path.len() && path[idx] == x;
                                    assert(path.push(child@)[idx] == x);
                                }
                                assert forall|k: nat| reaches_names_within(layers@, t as int, path, k) implies reaches_names_within(
                                    layers@,
                                    t as int,
                                    path.push(child@),
                                    k,
                                ) by {
                                    lemma_reaches_names_grow(layers@, t as int, path, path.push(child@), k);
                                }
                                assert(reaches_names_within(layers@, t as int, path, (fuel - 1) as nat) ==> reaches_names_within(
                                    layers@,
                                    t as int,
                                    path.push(child@),
                                    (fuel - 1) as nat,
                                ));
                            }
                            assert(edge(layers@, i as int, j as int) == Some(t as int));
                            assert(input_step(layers@, name@, child@));
                            lemma_walk_extend(layers@, outer, name@, child@);
                        }
                        visit_cycle(layers, e, child, visiting, fuel - 1, errors);
                        proof {
                            assert(errors@.subrange(0, start.len() as int) =~= before.subrange(0, start.len() as int));
                            assert forall|x: int| start.len() <= x < errors@.len() implies (#[trigger] errors@[x]).check == "C9" by {
                                if x < before.len() {
                                    assert(errors@[x] == before[x]);
                                }
                            }
                        }
                    }
                    j = j + 1;
                }
            }
        },
        None => {},
    }
    let ghost vp = visiting@;
    visiting.pop();
    proof {
        assert(visiting@ =~= vp.drop_last());
        assert(string_views(vp) == path);
        assert(string_views(vp.drop_last()) =~= path.drop_last());
        assert(path.drop_last() =~= outer);
        assert(string_views(visiting@) =~= outer);
        assert forall|k: nat|
            #![trigger reaches_names_within(layers@, resolve_layer(layers@, name@)->0, string_views(old(visiting)@).push(name@), k)]
            !string_views(old(visiting)@).contains(name@) && resolve_layer(layers@, name@) is Some
                && reaches_names_within(
                layers@,
                resolve_layer(layers@, name@)->0,
                string_views(old(visiting)@).push(name@),
                k,
            ) && k <= fuel implies errors@.len() > start.len() by {
            let i = resolve_layer(layers@, name@)->0;
            lemma_resolve_in_range(layers@, name@);
            assert(k > 0);
            let b = choose|b: int|
                0 <= b < layers@[i].inputs@.len() && #[trigger] edge(layers@, i, b) is Some && (path.contains(
                    layers@[edge(layers@, i, b)->0].name@,
                ) || reaches_names_within(layers@, edge(layers@, i, b)->0, path, (k - 1) as nat));
            if !path.contains(layers@[edge(layers@, i, b)->0].name@) {
                lemma_edge_in_range(layers@, i, b);
                lemma_reaches_names_more_steps(layers@, edge(layers@, i, b)->0, path, (k - 1) as nat, (fuel - 1) as nat);
            }
        }
    }
}

/// No two layers share a name.
pub open spec fn layer_names_distinct(layers: Seq<Layer>) -> bool {
    forall|i: int, j: int| 0 <= i < j < layers.len() ==> (#[trigger] layers[i]).name@ != (#[trigger] layers[j]).name@
}

/// Every input that names a layer resolves.
pub open spec fn layer_inputs_resolve(layers: Seq<Layer>) -> bool {
    forall|i: int, j: int|
        0 <= i < layers.len() && 0 <= j < layers[i].inputs@.len() && (#[trigger] layers[i].inputs@[j]) is Layer
            ==> resolve_layer(layers, layers[i].inputs@[j]->0@) is Some
}

/// Every layer's chain of inputs reaches the core graph.
pub open spec fn layers_reach_core(layers: Seq<Layer>) -> bool {
    forall|i: int| 0 <= i < layers.len() ==> name_reaches_core(layers, (#[trigger] layers[i]).name@)
}

/// The layer checks: distinct names (C1), inputs that resolve, reach the
/// core graph and form no cycle (C9).
pub open spec fn layers_valid(layers: Seq<Layer>) -> bool {
    &&& layer_names_distinct(layers)
    &&& layers_reach_core(layers)
    &&& layer_inputs_resolve(layers)
    &&& inputs_acyclic(layers)
}

fn name_seen_before(layers: &Vec<Layer>, i: usize) -> (b: bool)
    requires
        i < layers@.len(),
    ensures
        b == exists|j: int| 0 <= j < i && (#[trigger] layers@[j]).name@ == layers@[i as int].name@,
{
    let mut j: usize = 0;
    while j < i
        invariant
            j <= i < layers@.len(),
            forall|a: int| 0 <= a < j ==> (#[trigger] layers@[a]).name@ != layers@[i as int].name@,
        decreases i - j,
    {
        if str_eq(layers[j].name.as_str(), layers[i].name.as_str()) {
            return true;
        }
        j = j + 1;
    }
    false
}

/// Reports duplicate layer names (C1), layers that do not reach the core
/// graph, inputs that do not resolve, and cycles of inputs (C9).
pub fn check_layers(layers: &Vec<Layer>, errors: &mut Vec<ValidationError>)
    ensures
        extends(old(errors)@, final(errors)@),
        final(errors)@.len() == old(errors)@.len() ==> layers_valid(layers@),
        final(errors)@.len() > old(errors)@.len() ==> !layers_valid(layers@),
{
    let ghost start = errors@;
    proof {
        assert(errors@.subrange(0, start.len() as int) =~= start);
    }
    let n = layers.len();
    let e = edges(layers);
    let reach = core_reach(layers, &e);
    let mut i: usize = 0;
    while i < n
        invariant
            n == layers@.len(),
            i <= n,
            is_edge_table(layers@, e@),
            reach@.len() == n,
            forall|a: int| 0 <= a < n ==> #[trigger] reach@[a] == reaches_core_within(layers@, a, layers@.len()),
            extends(start, errors@),
            errors@.len() > start.len() ==> !layers_valid(layers@),
            errors@.len() == start.len() ==> {
                &&& forall|a: int, b: int| 0 <= a < b < i ==> (#[trigger] layers@[a]).name@ != (#[trigger] layers@[b]).name@
                &&& forall|a: int| 0 <= a < i ==> name_reaches_core(layers@, (#[trigger] layers@[a]).name@)
                &&& forall|a: int, b: int|
                    0 <= a < i && 0 <= b < layers@[a].inputs@.len() && (#[trigger] layers@[a].inputs@[b]) is Layer
                        ==> resolve_layer(layers@, layers@[a].inputs@[b]->0@) is Some
            },
        decreases n - i,
    {
        let layer = &layers[i];
        let name = layer.name.as_str();
        if name_seen_before(layers, i) {
            proof {
                let j = choose|j: int| 0 <= j < i && (#[trigger] layers@[j]).name@ == layers@[i as int].name@;
                assert(!layer_names_distinct(layers@));
            }
            report(errors, "C1", located_at("layer/", name, ""), Some(owned(name)), "duplicate layer name");
            proof {
                assert(errors@.subrange(0, start.len() as int) =~= start);
            }
        }
        let reaches = match resolve(layers, name) {
            Some(t) => {
                proof {
                    lemma_resolve_in_range(layers@, name@);
                }
                reach[t]
            },
            None => false,
        };
        if !reaches {
            proof {
                assert(!name_reaches_core(layers@, layers@[i as int].name@));
                assert(!layers_reach_core(layers@));
            }
            report(errors, "C9", located_at("layer/", name, "/inputs"), Some(owned(name)), "layer input chain does not reach the core graph");
            proof {
                assert(errors@.subrange(0, start.len() as int) =~= start);
            }
        }
        let ghost entry_len = errors@.len();
        let mut j: usize = 0;
        while j < layer.inputs.len()
            invariant
                i < n,
                n == layers@.len(),
                *layer == layers@[i as int],
                j <= layer.inputs@.len(),
                extends(start, errors@),
                errors@.len() >= entry_len,
                errors@.len() > start.len() ==> !layers_valid(layers@),
                errors@.len() == start.len() ==> forall|b: int|
                    0 <= b < j && (#[trigger] layer.inputs@[b]) is Layer ==> resolve_layer(layers@, layer.inputs@[b]->0@) is Some,
            decreases layer.inputs@.len() - j,
        {
            if let LayerInput::Layer(input) = &layer.inputs[j] {
                if resolve(layers, input.as_str()).is_none() {
                    proof {
                        assert(layer.inputs@[j as int] == LayerInput::Layer(*input));
                        assert(layers@[i as int].inputs@[j as int] is Layer);
                        assert(resolve_layer(layers@, layers@[i as int].inputs@[j as int]->0@) is None);
                        assert(!layer_inputs_resolve(layers@));
                    }
                    report(errors, "C9", located_at("layer/", name, "/inputs"), Some(owned(input.as_str())), "declared layer input does not resolve");
                    proof {
                        assert(errors@.subrange(0, start.len() as int) =~= start);
                    }
                }
            }
            j = j + 1;
        }
        i = i + 1;
    }
    let ghost middle = errors@;
    proof {
        assert(errors@.subrange(0, middle.len() as int) =~= middle);
    }
    let mut i: usize = 0;
    while i < n
        invariant
            n == layers@.len(),
            i <= n,
            is_edge_table(layers@, e@),
            extends(start, errors@),
            extends(middle, errors@),
            errors@.len() > start.len() ==> !layers_valid(layers@),
            errors@.len() == start.len() ==> forall|t: int|
                0 <= t < i && resolve_layer(layers@, #[trigger] layers@[t].name@) == Some(t) ==> !on_cycle(layers@, t),
        decreases n - i,
    {
        let mut visiting: Vec<String> = Vec::new();
        let ghost before = errors@;
        let ghost vis0 = visiting@;
        proof {
            let t = i as int;
            let name = layers@[t].name@;
            assert(string_views(vis0) =~= Seq::<Seq<char>>::empty());
            if resolve_layer(layers@, name) == Some(t) && on_cycle(layers@, t) {
                assert(string_views(vis0).push(name) =~= seq![name]);
                assert(seq![name].contains(layers@[t].name@)) by {
                    assert(seq![name][0] == name);
                }
                lemma_reaches_index_names(layers@, t, t, seq![name], layers@.len());
                assert(reaches_names_within(layers@, resolve_layer(layers@, name)->0, string_views(vis0).push(name), n as nat));
            }
        }
        visit_cycle(layers, &e, layers[i].name.as_str(), &mut visiting, n, errors);
        proof {
            assert(errors@.subrange(0, start.len() as int) =~= before.subrange(0, start.len() as int));
            assert(errors@.subrange(0, middle.len() as int) =~= before.subrange(0, middle.len() as int));
        }
        i = i + 1;
    }
}

/// A description that passes every check: its layers (C1, C9), its
/// definitions (C1, C4, C5), its connections (C2), its references (C6), the
/// locality of its definitions (C7) and its extension parameters (C10).
pub open spec fn description_valid(d: Description, schemas: Seq<Schema>) -> bool {
    let entries = definition_entries(d);
    let refs = reference_entries(d);
    &&& layers_valid(d.layers@)
    &&& definitions_valid(d)
    &&& connections_valid(d, entries)
    &&& references_valid(d.layers@, entries, refs)
    &&& locality_valid(d.layers@, entries, refs)
    &&& all_ok(schemas, attachments(d, entries))
}

/// `part` stands in `whole` from index `p` on, contiguous and in order.
pub open spec fn run_at<A>(whole: Seq<A>, part: Seq<A>, p: int) -> bool {
    0 <= p && p + part.len() <= whole.len() && whole.subrange(p, p + part.len()) == part
}

/// `part` stands in `whole`, contiguous and in order, followed by at least
/// `tail` more items.
pub open spec fn run_before<A>(whole: Seq<A>, part: Seq<A>, tail: nat) -> bool {
    exists|p: int| #[trigger] run_at(whole, part, p) && p + part.len() + tail <= whole.len()
}

/// `whole` ends with the C7 errors of the referenced addresses, taken in
/// increasing order.
pub open spec fn locality_run_closes(
    layers: Seq<Layer>,
    entries: Seq<DefEntry>,
    refs: Seq<RefEntry>,
    whole: Seq<(Seq<char>, Seq<char>, Option<Seq<char>>, Seq<char>)>,
) -> bool {
    exists|p: int| 0 <= p <= whole.len() && #[trigger] locality_errors_added(layers, entries, refs, whole.take(p), whole)
}

/// Validates a description against the schemas, collecting every failure
/// in check order. The connection errors (C2) stand together, in the order
/// `connection_errors_of` gives them, ahead of the extension errors (C10),
/// which close the list; just before those stand the locality errors (C7),
/// one for each referenced address that breaks locality, in increasing
/// address order.
pub fn validate_description(description: &Description, schemas: &[Schema]) -> (r: Result<(), Vec<ValidationError>>)
    ensures
        r is Ok <==> description_valid(*description, schemas@),
        r matches Err(errors) ==> errors@.len() > 0,
        r matches Err(errors) ==> {
            let views = error_views(errors@);
            let c10 = extension_errors_of(schemas@, *description, definition_entries(*description));
            views.len() >= c10.len() && views.subrange(views.len() - c10.len(), views.len() as int) == c10
        },
        r matches Err(errors) ==> {
            let views = error_views(errors@);
            let c2 = connection_errors_of(*description, definition_entries(*description));
            let c10 = extension_errors_of(schemas@, *description, definition_entries(*description));
            run_before(views, c2, c10.len())
        },
        r matches Err(errors) ==> {
            let views = error_views(errors@);
            let c10 = extension_errors_of(schemas@, *description, definition_entries(*description));
            locality_run_closes(
                description.layers@,
                definition_entries(*description),
                reference_entries(*description),
                views.take(views.len() - c10.len()),
            )
        },
{
    let mut errors: Vec<ValidationError> = Vec::new();
    check_layers(&description.layers, &mut errors);
    let defs = collect_definitions(description, &mut errors);
    let refs = collect_references(description);
    let ghost p = errors@.len() as int;
    check_connections(description, &defs, &mut errors);
    let ghost after_c2 = errors@;
    let graph = LayerGraph::new(&description.layers);
    check_references(&description.layers, &graph, &defs, &refs, &mut errors);
    let ghost before_c7 = errors@;
    check_locality(&description.layers, &graph, &defs, &refs, &mut errors);
    let ghost after_c7 = errors@;
    check_extensions(description, &defs, schemas, &mut errors);
    proof {
        let c10 = extension_errors_of(schemas@, *description, definition_entries(*description));
        let views = error_views(errors@);
        assert(views.subrange(views.len() - c10.len(), views.len() as int) =~= c10);
        let c2 = connection_errors_of(*description, definition_entries(*description));
        let v2 = error_views(after_c2);
        assert(v2.len() == after_c2.len());
        assert(views.len() == errors@.len());
        assert(after_c2.len() == p + c2.len());
        assert(v2.subrange(p, p + c2.len()) =~= c2);
        assert(errors@.subrange(0, after_c2.len() as int) == after_c2);
        assert(views.subrange(p, p + c2.len()) =~= v2.subrange(p, p + c2.len())) by {
            assert forall|i: int| p <= i < p + c2.len() implies views[i] == v2[i] by {
                assert(errors@.subrange(0, after_c2.len() as int)[i] == errors@[i]);
            }
        }
        assert(views.len() >= after_c2.len() + c10.len());
        assert(run_at(views, c2, p));
        assert(p + c2.len() + c10.len() <= views.len());
        assert(run_before(views, c2, c10.len()));
        let v7 = error_views(after_c7);
        let b7 = error_views(before_c7);
        assert(v7 =~= views.take(views.len() - c10.len())) by {
            assert(errors@.subrange(0, after_c7.len() as int) == after_c7);
            assert forall|i: int| 0 <= i < v7.len() implies v7[i] == views[i] by {
                assert(errors@.subrange(0, after_c7.len() as int)[i] == errors@[i]);
            }
        }
        assert(v7.take(b7.len() as int) =~= b7);
        assert(locality_errors_added(
            description.layers@,
            definition_entries(*description),
            reference_entries(*description),
            v7.take(b7.len() as int),
            v7,
        ));
    }
    if errors.len() == 0 {
        Ok(())
    } else {
        Err(errors)
    }
}

/// More steps reach at least as much.
proof fn lemma_reaches_names_more_steps(layers: Seq<Layer>, i: int, names: Seq<Seq<char>>, k: nat, m: nat)
    requires
        k <= m,
        reaches_names_within(layers, i, names, k),
    ensures
        reaches_names_within(layers, i, names, m),
    decreases k,
{
    let j = choose|j: int|
        0 <= j < layers[i].inputs@.len() && #[trigger] edge(layers, i, j) is Some && (names.contains(
            layers[edge(layers, i, j)->0].name@,
        ) || reaches_names_within(layers, edge(layers, i, j)->0, names, (k - 1) as nat));
    if !names.contains(layers[edge(layers, i, j)->0].name@) {
        lemma_reaches_names_more_steps(layers, edge(layers, i, j)->0, names, (k - 1) as nat, (m - 1) as nat);
    }
}

} // verus!

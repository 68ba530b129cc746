//! The graph of layers and their declared inputs: name resolution,
//! reachability of the core graph and of other layers, and cycles.
use vstd::prelude::*;

use crate::projection::{Layer, LayerInput};
use crate::definitions::Site;
use crate::text::str_eq;

verus! {

/// The layer a name resolves to. Layers are taken in order; a name seen an
/// odd number of times resolves to its last layer, a name seen an even
/// number of times resolves to none.
pub open spec fn resolve_layer(layers: Seq<Layer>, name: Seq<char>) -> Option<int>
    decreases layers.len(),
{
    if layers.len() == 0 {
        None
    } else {
        let prev = resolve_layer(layers.drop_last(), name);
        if layers.last().name@ == name {
            if prev is Some {
                None
            } else {
                Some(layers.len() - 1)
            }
        } else {
            prev
        }
    }
}

/// The layer an input resolves to; the core input resolves to none.
pub open spec fn input_target(layers: Seq<Layer>, input: LayerInput) -> Option<int> {
    match input {
        LayerInput::Core => None,
        LayerInput::Layer(name) => resolve_layer(layers, name@),
    }
}

/// The layer that input `j` of layer `i` resolves to.
pub open spec fn edge(layers: Seq<Layer>, i: int, j: int) -> Option<int> {
    input_target(layers, layers[i].inputs@[j])
}

pub open spec fn has_core_input(layer: Layer) -> bool {
    exists|j: int| 0 <= j < layer.inputs@.len() && #[trigger] layer.inputs@[j] == LayerInput::Core
}

/// Layer `i` reaches the core graph through at most `k` layers.
pub open spec fn reaches_core_within(layers: Seq<Layer>, i: int, k: nat) -> bool
    decreases k,
{
    if k == 0 {
        false
    } else {
        has_core_input(layers[i]) || exists|j: int|
            0 <= j < layers[i].inputs@.len() && #[trigger] edge(layers, i, j) is Some
                && reaches_core_within(layers, edge(layers, i, j)->0, (k - 1) as nat)
    }
}

/// Layer `i` declares, directly or through at most `k` layers, an input
/// named `target`.
pub open spec fn reaches_named_within(layers: Seq<Layer>, i: int, target: Seq<char>, k: nat) -> bool
    decreases k,
{
    if k == 0 {
        false
    } else {
        exists|j: int|
            0 <= j < layers[i].inputs@.len() && ((#[trigger] layers[i].inputs@[j]) == LayerInput::Layer(
                layers[i].inputs@[j]->0,
            ) && layers[i].inputs@[j]->0@ == target || (edge(layers, i, j) is Some
                && reaches_named_within(layers, edge(layers, i, j)->0, target, (k - 1) as nat)))
    }
}

/// Layer `i` reaches layer `goal` through at most `k` input edges.
pub open spec fn reaches_index_within(layers: Seq<Layer>, i: int, goal: int, k: nat) -> bool
    decreases k,
{
    if k == 0 {
        false
    } else {
        exists|j: int|
            0 <= j < layers[i].inputs@.len() && #[trigger] edge(layers, i, j) is Some && (edge(
                layers,
                i,
                j,
            )->0 == goal || reaches_index_within(layers, edge(layers, i, j)->0, goal, (k - 1) as nat))
    }
}

/// A layer named `name` reaches the core graph. Any chain of inputs that
/// reaches it can be shortened to one through at most as many layers as
/// there are.
pub open spec fn name_reaches_core(layers: Seq<Layer>, name: Seq<char>) -> bool {
    match resolve_layer(layers, name) {
        Some(i) => reaches_core_within(layers, i, layers.len()),
        None => false,
    }
}

/// The layer named `from` declares, directly or through its inputs, an input
/// named `to`.
pub open spec fn name_reaches_layer(layers: Seq<Layer>, from: Seq<char>, to: Seq<char>) -> bool {
    match resolve_layer(layers, from) {
        Some(i) => reaches_named_within(layers, i, to, layers.len()),
        None => false,
    }
}

/// Layer `t` lies on a cycle of inputs.
pub open spec fn on_cycle(layers: Seq<Layer>, t: int) -> bool {
    reaches_index_within(layers, t, t, layers.len())
}

/// No layer that its own name resolves to lies on a cycle of inputs.
pub open spec fn inputs_acyclic(layers: Seq<Layer>) -> bool {
    forall|t: int|
        0 <= t < layers.len() && resolve_layer(layers, #[trigger] layers[t].name@) == Some(t) ==> !on_cycle(
            layers,
            t,
        )
}

/// A resolved layer is one of the layers.
pub proof fn lemma_resolve_in_range(layers: Seq<Layer>, name: Seq<char>)
    ensures
        resolve_layer(layers, name) matches Some(i) ==> 0 <= i < layers.len() && layers[i].name@ == name,
    decreases layers.len(),
{
    if layers.len() > 0 {
        lemma_resolve_in_range(layers.drop_last(), name);
    }
}

/// Every edge leads to one of the layers.
pub proof fn lemma_edge_in_range(layers: Seq<Layer>, i: int, j: int)
    requires
        0 <= i < layers.len(),
        0 <= j < layers[i].inputs@.len(),
    ensures
        edge(layers, i, j) matches Some(t) ==> 0 <= t < layers.len(),
{
    match layers[i].inputs@[j] {
        LayerInput::Core => {},
        LayerInput::Layer(name) => lemma_resolve_in_range(layers, name@),
    }
}

fn has_core(layer: &Layer) -> (b: bool)
    ensures
        b == has_core_input(*layer),
{
    let mut j: usize = 0;
    while j < layer.inputs.len()
        invariant
            j <= layer.inputs@.len(),
            forall|a: int| 0 <= a < j ==> layer.inputs@[a] != LayerInput::Core,
        decreases layer.inputs@.len() - j,
    {
        if let LayerInput::Core = &layer.inputs[j] {
            return true;
        }
        j = j + 1;
    }
    false
}

/// The edge table of a list of layers.
pub open spec fn is_edge_table(layers: Seq<Layer>, e: Seq<Vec<Option<usize>>>) -> bool {
    &&& e.len() == layers.len()
    &&& forall|i: int| 0 <= i < layers.len() ==> (#[trigger] e[i])@.len() == layers[i].inputs@.len()
    &&& forall|i: int, j: int|
        0 <= i < layers.len() && 0 <= j < layers[i].inputs@.len() ==> match (#[trigger] e[i]@[j]) {
            Some(t) => edge(layers, i, j) == Some(t as int),
            None => edge(layers, i, j) is None,
        }
}

/// For every layer, whether it reaches the core graph.
pub fn core_reach(layers: &Vec<Layer>, e: &Vec<Vec<Option<usize>>>) -> (r: Vec<bool>)
    requires
        is_edge_table(layers@, e@),
    ensures
        r@.len() == layers@.len(),
        forall|i: int| 0 <= i < layers@.len() ==> #[trigger] r@[i] == reaches_core_within(layers@, i, layers@.len()),
{
    let n = layers.len();
    let mut cur: Vec<bool> = Vec::new();
    let mut i: usize = 0;
    while i < n
        invariant
            n == layers@.len(),
            i <= n,
            cur@.len() == i,
            forall|a: int| 0 <= a < i ==> #[trigger] cur@[a] == reaches_core_within(layers@, a, 0),
        decreases n - i,
    {
        cur.push(false);
        i = i + 1;
    }
    let mut k: usize = 0;
    while k < n
        invariant
            n == layers@.len(),
            is_edge_table(layers@, e@),
            k <= n,
            cur@.len() == n,
            forall|a: int| 0 <= a < n ==> #[trigger] cur@[a] == reaches_core_within(layers@, a, k as nat),
        decreases n - k,
    {
        let mut next: Vec<bool> = Vec::new();
        let mut a: usize = 0;
        while a < n
            invariant
                n == layers@.len(),
                is_edge_table(layers@, e@),
                k < n,
                a <= n,
                cur@.len() == n,
                next@.len() == a,
                forall|x: int| 0 <= x < n ==> #[trigger] cur@[x] == reaches_core_within(layers@, x, k as nat),
                forall|x: int| 0 <= x < a ==> #[trigger] next@[x] == reaches_core_within(layers@, x, (k + 1) as nat),
            decreases n - a,
        {
            let mut v = has_core(&layers[a]);
            let row = &e[a];
            let mut j: usize = 0;
            while j < row.len() && !v
                invariant
                    n == layers@.len(),
                    is_edge_table(layers@, e@),
                    a < n,
                    *row == e@[a as int],
                    j <= row@.len(),
                    cur@.len() == n,
                    forall|x: int| 0 <= x < n ==> #[trigger] cur@[x] == reaches_core_within(layers@, x, k as nat),
                    v ==> reaches_core_within(layers@, a as int, (k + 1) as nat),
                    !v ==> !has_core_input(layers@[a as int]),
                    !v ==> forall|b: int|
                        0 <= b < j ==> !(#[trigger] edge(layers@, a as int, b) is Some && reaches_core_within(
                            layers@,
                            edge(layers@, a as int, b)->0,
                            k as nat,
                        )),
                decreases row@.len() - j,
            {
                proof {
                    lemma_edge_in_range(layers@, a as int, j as int);
                }
                if let Some(t) = row[j] {
                    if cur[t] {
                        v = true;
                    }
                }
                j = j + 1;
            }
            next.push(v);
            a = a + 1;
        }
        cur = next;
        k = k + 1;
    }
    cur
}

/// For every layer, whether it declares, directly or through its inputs, an
/// input named `target`.
pub fn named_reach(layers: &Vec<Layer>, e: &Vec<Vec<Option<usize>>>, target: &str) -> (r: Vec<bool>)
    requires
        is_edge_table(layers@, e@),
    ensures
        r@.len() == layers@.len(),
        forall|i: int| 0 <= i < layers@.len() ==> #[trigger] r@[i] == reaches_named_within(layers@, i, target@, layers@.len()),
{
    let n = layers.len();
    let mut cur: Vec<bool> = Vec::new();
    let mut i: usize = 0;
    while i < n
        invariant
            n == layers@.len(),
            i <= n,
            cur@.len() == i,
            forall|a: int| 0 <= a < i ==> #[trigger] cur@[a] == reaches_named_within(layers@, a, target@, 0),
        decreases n - i,
    {
        cur.push(false);
        i = i + 1;
    }
    let mut k: usize = 0;
    while k < n
        invariant
            n == layers@.len(),
            is_edge_table(layers@, e@),
            k <= n,
            cur@.len() == n,
            forall|a: int| 0 <= a < n ==> #[trigger] cur@[a] == reaches_named_within(layers@, a, target@, k as nat),
        decreases n - k,
    {
        let mut next: Vec<bool> = Vec::new();
        let mut a: usize = 0;
        while a < n
            invariant
                n == layers@.len(),
                is_edge_table(layers@, e@),
                k < n,
                a <= n,
                cur@.len() == n,
                next@.len() == a,
                forall|x: int| 0 <= x < n ==> #[trigger] cur@[x] == reaches_named_within(layers@, x, target@, k as nat),
                forall|x: int| 0 <= x < a ==> #[trigger] next@[x] == reaches_named_within(layers@, x, target@, (k + 1) as nat),
            decreases n - a,
        {
            let mut v = false;
            let row = &e[a];
            let inputs = &layers[a].inputs;
            let mut j: usize = 0;
            while j < row.len() && !v
                invariant
                    n == layers@.len(),
                    is_edge_table(layers@, e@),
                    a < n,
                    *row == e@[a as int],
                    *inputs == layers@[a as int].inputs,
                    row@.len() == inputs@.len(),
                    j <= row@.len(),
                    cur@.len() == n,
                    forall|x: int| 0 <= x < n ==> #[trigger] cur@[x] == reaches_named_within(layers@, x, target@, k as nat),
                    v ==> reaches_named_within(layers@, a as int, target@, (k + 1) as nat),
                    !v ==> forall|b: int|
                        0 <= b < j ==> !(((#[trigger] layers@[a as int].inputs@[b]) == LayerInput::Layer(
                            layers@[a as int].inputs@[b]->0,
                        ) && layers@[a as int].inputs@[b]->0@ == target@ || (edge(layers@, a as int, b) is Some
                            && reaches_named_within(layers@, edge(layers@, a as int, b)->0, target@, k as nat)))),
                decreases row@.len() - j,
            {
                proof {
                    lemma_edge_in_range(layers@, a as int, j as int);
                }
                if let LayerInput::Layer(name) = &inputs[j] {
                    if str_eq(name.as_str(), target) {
                        v = true;
                    }
                }
                if let Some(t) = row[j] {
                    if cur[t] {
                        v = true;
                    }
                }
                j = j + 1;
            }
            next.push(v);
            a = a + 1;
        }
        cur = next;
        k = k + 1;
    }
    cur
}

/// Layer `i` reaches, through at most `k` input edges, a layer whose name is
/// among `names`.
pub open spec fn reaches_names_within(layers: Seq<Layer>, i: int, names: Seq<Seq<char>>, k: nat) -> bool
    decreases k,
{
    if k == 0 {
        false
    } else {
        exists|j: int|
            0 <= j < layers[i].inputs@.len() && #[trigger] edge(layers, i, j) is Some && (names.contains(
                layers[edge(layers, i, j)->0].name@,
            ) || reaches_names_within(layers, edge(layers, i, j)->0, names, (k - 1) as nat))
    }
}

/// Reaching a set of names stays true for any larger set.
pub proof fn lemma_reaches_names_grow(layers: Seq<Layer>, i: int, names: Seq<Seq<char>>, more: Seq<Seq<char>>, k: nat)
    requires
        forall|x: Seq<char>| names.contains(x) ==> more.contains(x),
        reaches_names_within(layers, i, names, k),
    ensures
        reaches_names_within(layers, i, more, k),
    decreases k,
{
    let j = choose|j: int|
        0 <= j < layers[i].inputs@.len() && #[trigger] edge(layers, i, j) is Some && (names.contains(
            layers[edge(layers, i, j)->0].name@,
        ) || reaches_names_within(layers, edge(layers, i, j)->0, names, (k - 1) as nat));
    if !names.contains(layers[edge(layers, i, j)->0].name@) {
        lemma_reaches_names_grow(layers, edge(layers, i, j)->0, names, more, (k - 1) as nat);
    }
}

/// Reaching a layer reaches its name.
pub proof fn lemma_reaches_index_names(layers: Seq<Layer>, i: int, goal: int, names: Seq<Seq<char>>, k: nat)
    requires
        names.contains(layers[goal].name@),
        reaches_index_within(layers, i, goal, k),
    ensures
        reaches_names_within(layers, i, names, k),
    decreases k,
{
    let j = choose|j: int|
        0 <= j < layers[i].inputs@.len() && #[trigger] edge(layers, i, j) is Some && (edge(layers, i, j)->0
            == goal || reaches_index_within(layers, edge(layers, i, j)->0, goal, (k - 1) as nat));
    if edge(layers, i, j)->0 != goal {
        lemma_reaches_index_names(layers, edge(layers, i, j)->0, goal, names, (k - 1) as nat);
    }
}

/// What a reference at site `reference` may see of a definition at site
/// `definition` (`None` is the core graph): the core graph sees only itself;
/// a layer sees the core graph when its inputs reach it, itself, and every
/// layer its inputs name.
pub open spec fn site_visible(layers: Seq<Layer>, definition: Option<Seq<char>>, reference: Option<Seq<char>>) -> bool {
    match reference {
        None => definition is None,
        Some(rn) => match definition {
            None => name_reaches_core(layers, rn),
            Some(dn) => dn == rn || name_reaches_layer(layers, rn, dn),
        },
    }
}

/// The layer graph with its edge and core-reachability tables.
pub struct LayerGraph {
    pub edges: Vec<Vec<Option<usize>>>,
    pub core: Vec<bool>,
}

impl LayerGraph {
    pub open spec fn wf(&self, layers: Seq<Layer>) -> bool {
        &&& is_edge_table(layers, self.edges@)
        &&& self.core@.len() == layers.len()
        &&& forall|i: int| 0 <= i < layers.len() ==> #[trigger] self.core@[i] == reaches_core_within(layers, i, layers.len())
    }

    pub fn new(layers: &Vec<Layer>) -> (g: LayerGraph)
        ensures
            g.wf(layers@),
    {
        let edges = edges(layers);
        let core = core_reach(layers, &edges);
        LayerGraph { edges, core }
    }

    /// Whether the layer named `name` reaches the core graph.
    pub fn reaches_core(&self, layers: &Vec<Layer>, name: &str) -> (b: bool)
        requires
            self.wf(layers@),
        ensures
            b == name_reaches_core(layers@, name@),
    {
        match resolve(layers, name) {
            Some(t) => {
                proof {
                    lemma_resolve_in_range(layers@, name@);
                }
                self.core[t]
            },
            None => false,
        }
    }

    /// Whether the layer named `from` names `to` among its inputs, directly
    /// or through them.
    pub fn reaches_layer(&self, layers: &Vec<Layer>, from: &str, to: &str) -> (b: bool)
        requires
            self.wf(layers@),
        ensures
            b == name_reaches_layer(layers@, from@, to@),
    {
        match resolve(layers, from) {
            Some(t) => {
                proof {
                    lemma_resolve_in_range(layers@, from@);
                }
                let table = named_reach(layers, &self.edges, to);
                table[t]
            },
            None => false,
        }
    }

    /// Whether a reference at `reference` sees a definition at `definition`.
    pub fn visible(&self, layers: &Vec<Layer>, definition: &Site, reference: &Site) -> (b: bool)
        requires
            self.wf(layers@),
        ensures
            b == site_visible(layers@, definition.view(), reference.view()),
    {
        match reference {
            Site::Core => match definition {
                Site::Core => true,
                Site::Layer(_) => false,
            },
            Site::Layer(rn) => match definition {
                Site::Core => self.reaches_core(layers, rn.as_str()),
                Site::Layer(dn) => str_eq(dn.as_str(), rn.as_str()) || self.reaches_layer(layers, rn.as_str(), dn.as_str()),
            },
        }
    }
}

/// Resolves a name among the layers.
pub fn resolve(layers: &Vec<Layer>, name: &str) -> (r: Option<usize>)
    ensures
        match r {
            Some(i) => resolve_layer(layers@, name@) == Some(i as int),
            None => resolve_layer(layers@, name@) is None,
        },
{
    let mut found: Option<usize> = None;
    let mut i: usize = 0;
    while i < layers.len()
        invariant
            i <= layers@.len(),
            match found {
                Some(f) => resolve_layer(layers@.take(i as int), name@) == Some(f as int),
                None => resolve_layer(layers@.take(i as int), name@) is None,
            },
        decreases layers@.len() - i,
    {
        proof {
            assert(layers@.take(i + 1).drop_last() =~= layers@.take(i as int));
        }
        if str_eq(layers[i].name.as_str(), name) {
            found = match found {
                Some(_) => None,
                None => Some(i),
            };
        }
        i = i + 1;
    }
    proof {
        assert(layers@.take(i as int) =~= layers@);
    }
    found
}

/// For every layer and input, the layer the input resolves to.
pub fn edges(layers: &Vec<Layer>) -> (e: Vec<Vec<Option<usize>>>)
    ensures
        is_edge_table(layers@, e@),
{
    let mut e: Vec<Vec<Option<usize>>> = Vec::new();
    let mut i: usize = 0;
    while i < layers.len()
        invariant
            i <= layers@.len(),
            e@.len() == i,
            forall|a: int| 0 <= a < i ==> (#[trigger] e@[a])@.len() == layers@[a].inputs@.len(),
            forall|a: int, j: int|
                0 <= a < i && 0 <= j < layers@[a].inputs@.len() ==> match (#[trigger] e@[a]@[j]) {
                    Some(t) => edge(layers@, a, j) == Some(t as int),
                    None => edge(layers@, a, j) is None,
                },
        decreases layers@.len() - i,
    {
        let inputs = &layers[i].inputs;
        let mut row: Vec<Option<usize>> = Vec::new();
        let mut j: usize = 0;
        while j < inputs.len()
            invariant
                i < layers@.len(),
                *inputs == layers@[i as int].inputs,
                j <= inputs@.len(),
                row@.len() == j,
                forall|b: int| 0 <= b < j ==> match (#[trigger] row@[b]) {
                    Some(t) => edge(layers@, i as int, b) == Some(t as int),
                    None => edge(layers@, i as int, b) is None,
                },
            decreases inputs@.len() - j,
        {
            let target = match &inputs[j] {
                LayerInput::Core => None,
                LayerInput::Layer(name) => resolve(layers, name.as_str()),
            };
            row.push(target);
            j = j + 1;
        }
        e.push(row);
        i = i + 1;
    }
    e
}

} // verus!

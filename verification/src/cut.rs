//! Cuts: a description restricted to a downward-closed set of its layers.
use vstd::prelude::*;

use crate::model::{copy_label, copy_parameters, Description};
use crate::projection::{Layer, LayerInput};
use crate::same::{core_same, label_same, layers_same, parameters_same};
use crate::schema::Schema;
use crate::text::{lemma_seq_lt_irreflexive, lemma_seq_lt_transitive, owned, push_str, seq_lt, str_eq, str_lt};
use crate::validate::{description_valid, string_views, validate_description, validation_error_text, ValidationError};

verus! {

/// Why a set of layers does not form a cut.
#[derive(Debug, PartialEq)]
pub enum CutError {
    UnknownLayer(String),
    Unresolvable { layer: String, missing: Vec<String> },
    Invalid(Vec<ValidationError>),
}

/// `n` is among the selected names.
pub open spec fn is_selected(selected: Seq<&str>, n: Seq<char>) -> bool {
    exists|k: int| 0 <= k < selected.len() && #[trigger] selected[k]@ == n
}

/// Some layer is called `n`.
pub open spec fn has_layer(layers: Seq<Layer>, n: Seq<char>) -> bool {
    exists|i: int| 0 <= i < layers.len() && #[trigger] layers[i].name@ == n
}

/// `n` is the least selected name, in string order, with no layer.
pub open spec fn least_unknown(selected: Seq<&str>, layers: Seq<Layer>, n: Seq<char>) -> bool {
    &&& is_selected(selected, n)
    &&& !has_layer(layers, n)
    &&& forall|k: int|
        0 <= k < selected.len() && !has_layer(layers, #[trigger] selected[k]@) ==> !seq_lt(selected[k]@, n)
}

/// The position of the last layer called `n`.
pub open spec fn last_named(layers: Seq<Layer>, n: Seq<char>) -> Option<int>
    decreases layers.len(),
{
    if layers.len() == 0 {
        None
    } else if layers.last().name@ == n {
        Some(layers.len() - 1)
    } else {
        last_named(layers.drop_last(), n)
    }
}

/// The layer inputs that name a layer outside the selection, in order.
pub open spec fn missing_inputs(inputs: Seq<LayerInput>, selected: Seq<&str>) -> Seq<Seq<char>>
    decreases inputs.len(),
{
    if inputs.len() == 0 {
        Seq::empty()
    } else {
        let rest = missing_inputs(inputs.drop_last(), selected);
        match inputs.last() {
            LayerInput::Layer(m) => if is_selected(selected, m@) {
                rest
            } else {
                rest.push(m@)
            },
            LayerInput::Core => rest,
        }
    }
}

/// The inputs of the layer that a selected name stands for (the last layer
/// of that name) that lie outside the selection.
pub open spec fn absent_inputs(layers: Seq<Layer>, selected: Seq<&str>, n: Seq<char>) -> Seq<Seq<char>> {
    match last_named(layers, n) {
        Some(i) => missing_inputs(layers[i].inputs@, selected),
        None => Seq::empty(),
    }
}

/// `n` is the least selected name, in string order, whose layer reads an
/// unselected layer.
pub open spec fn least_unresolvable(selected: Seq<&str>, layers: Seq<Layer>, n: Seq<char>) -> bool {
    &&& is_selected(selected, n)
    &&& absent_inputs(layers, selected, n).len() > 0
    &&& forall|k: int|
        0 <= k < selected.len() && absent_inputs(layers, selected, #[trigger] selected[k]@).len() > 0 ==> !seq_lt(
            selected[k]@,
            n,
        )
}

/// The layers whose names are selected, in description order.
pub open spec fn kept_layers(layers: Seq<Layer>, selected: Seq<&str>) -> Seq<Layer> {
    layers.filter(|l: Layer| is_selected(selected, l.name@))
}

/// `cut` is `d` with only the selected layers.
pub open spec fn is_cut_of(cut: Description, d: Description, selected: Seq<&str>) -> bool {
    &&& cut.address@ == d.address@
    &&& label_same(cut.label, d.label)
    &&& cut.core_spec == d.core_spec
    &&& core_same(cut.core, d.core)
    &&& parameters_same(cut.extensions@, d.extensions@)
    &&& layers_same(cut.layers@, kept_layers(d.layers@, selected))
}

fn name_selected(selected: &[&str], n: &str) -> (b: bool)
    ensures
        b == is_selected(selected@, n@),
{
    let mut k: usize = 0;
    while k < selected.len()
        invariant
            k <= selected@.len(),
            forall|j: int| 0 <= j < k ==> selected@[j]@ != n@,
        decreases selected@.len() - k,
    {
        if str_eq(selected[k], n) {
            return true;
        }
        k = k + 1;
    }
    false
}

fn layer_exists(layers: &Vec<Layer>, n: &str) -> (b: bool)
    ensures
        b == has_layer(layers@, n@),
{
    let mut i: usize = 0;
    while i < layers.len()
        invariant
            i <= layers@.len(),
            forall|j: int| 0 <= j < i ==> layers@[j].name@ != n@,
        decreases layers@.len() - i,
    {
        if str_eq(layers[i].name.as_str(), n) {
            return true;
        }
        i = i + 1;
    }
    false
}

/// The least selected name without a layer, if any.
fn unknown_layer(layers: &Vec<Layer>, selected: &[&str]) -> (r: Option<usize>)
    ensures
        match r {
            Some(k) => k < selected@.len() && least_unknown(selected@, layers@, selected@[k as int]@),
            None => forall|k: int| 0 <= k < selected@.len() ==> has_layer(layers@, #[trigger] selected@[k]@),
        },
{
    let mut best: Option<usize> = None;
    let mut k: usize = 0;
    while k < selected.len()
        invariant
            k <= selected@.len(),
            match best {
                Some(b) => b < k && !has_layer(layers@, selected@[b as int]@) && forall|j: int|
                    0 <= j < k && !has_layer(layers@, #[trigger] selected@[j]@) ==> !seq_lt(
                        selected@[j]@,
                        selected@[b as int]@,
                    ),
                None => forall|j: int| 0 <= j < k ==> has_layer(layers@, #[trigger] selected@[j]@),
            },
        decreases selected@.len() - k,
    {
        if !layer_exists(layers, selected[k]) {
            match best {
                None => {
                    proof {
                        lemma_seq_lt_irreflexive(selected@[k as int]@);
                    }
                    best = Some(k);
                },
                Some(b) => {
                    if str_lt(selected[k], selected[b]) {
                        proof {
                            assert forall|j: int|
                                0 <= j < k + 1 && !has_layer(layers@, #[trigger] selected@[j]@) implies !seq_lt(
                                selected@[j]@,
                                selected@[k as int]@,
                            ) by {
                                lemma_seq_lt_transitive(selected@[j]@, selected@[k as int]@, selected@[b as int]@);
                                lemma_seq_lt_irreflexive(selected@[k as int]@);
                            }
                        }
                        best = Some(k);
                    }
                },
            }
        }
        k = k + 1;
    }
    proof {
        if let Some(b) = best {
            assert(is_selected(selected@, selected@[b as int]@));
        }
    }
    best
}

/// The position of the last layer called `n`.
fn find_last_named(layers: &Vec<Layer>, n: &str) -> (r: Option<usize>)
    ensures
        match r {
            Some(i) => i < layers@.len() && last_named(layers@, n@) == Some(i as int),
            None => last_named(layers@, n@) is None,
        },
{
    let mut i: usize = layers.len();
    proof {
        assert(layers@.take(layers@.len() as int) =~= layers@);
    }
    while i > 0
        invariant
            i <= layers@.len(),
            last_named(layers@, n@) == last_named(layers@.take(i as int), n@),
        decreases i,
    {
        proof {
            assert(layers@.take(i as int).drop_last() =~= layers@.take(i - 1));
            assert(layers@.take(i as int).last() == layers@[i - 1]);
        }
        if str_eq(layers[i - 1].name.as_str(), n) {
            return Some(i - 1);
        }
        i = i - 1;
    }
    None
}

/// The inputs naming unselected layers, as owned names.
fn missing_of(inputs: &Vec<LayerInput>, selected: &[&str]) -> (r: Vec<String>)
    ensures
        string_views(r@) == missing_inputs(inputs@, selected@),
{
    let mut out: Vec<String> = Vec::new();
    let mut i: usize = 0;
    proof {
        assert(string_views(out@) =~= missing_inputs(inputs@.take(0), selected@));
    }
    while i < inputs.len()
        invariant
            i <= inputs@.len(),
            string_views(out@) == missing_inputs(inputs@.take(i as int), selected@),
        decreases inputs@.len() - i,
    {
        proof {
            assert(inputs@.take(i + 1).drop_last() =~= inputs@.take(i as int));
            assert(inputs@.take(i + 1).last() == inputs@[i as int]);
        }
        let ghost before = out@;
        if let LayerInput::Layer(m) = &inputs[i] {
            if !name_selected(selected, m.as_str()) {
                out.push(m.clone());
                proof {
                    assert(string_views(out@) =~= string_views(before).push(m@));
                }
            }
        }
        i = i + 1;
    }
    proof {
        assert(inputs@.take(inputs@.len() as int) =~= inputs@);
    }
    out
}

fn absent_of(layers: &Vec<Layer>, selected: &[&str], n: &str) -> (r: Vec<String>)
    ensures
        string_views(r@) == absent_inputs(layers@, selected@, n@),
{
    match find_last_named(layers, n) {
        Some(i) => missing_of(&layers[i].inputs, selected),
        None => {
            let v: Vec<String> = Vec::new();
            proof {
                assert(string_views(v@) =~= Seq::<Seq<char>>::empty());
            }
            v
        },
    }
}

/// The least selected name whose layer reads an unselected layer, with those
/// inputs.
fn unresolvable_layer(layers: &Vec<Layer>, selected: &[&str]) -> (r: Option<(usize, Vec<String>)>)
    ensures
        match r {
            Some((k, missing)) => k < selected@.len() && least_unresolvable(selected@, layers@, selected@[k as int]@)
                && string_views(missing@) == absent_inputs(layers@, selected@, selected@[k as int]@),
            None => forall|k: int|
                0 <= k < selected@.len() ==> absent_inputs(layers@, selected@, #[trigger] selected@[k]@).len() == 0,
        },
{
    let mut best: Option<(usize, Vec<String>)> = None;
    let mut k: usize = 0;
    while k < selected.len()
        invariant
            k <= selected@.len(),
            match best {
                Some((b, missing)) => b < k && string_views(missing@) == absent_inputs(
                    layers@,
                    selected@,
                    selected@[b as int]@,
                ) && absent_inputs(layers@, selected@, selected@[b as int]@).len() > 0 && forall|j: int|
                    0 <= j < k && absent_inputs(layers@, selected@, #[trigger] selected@[j]@).len() > 0 ==> !seq_lt(
                        selected@[j]@,
                        selected@[b as int]@,
                    ),
                None => forall|j: int|
                    0 <= j < k ==> absent_inputs(layers@, selected@, #[trigger] selected@[j]@).len() == 0,
            },
        decreases selected@.len() - k,
    {
        let missing = absent_of(layers, selected, selected[k]);
        if missing.len() > 0 {
            let replace = match &best {
                None => true,
                Some((b, _)) => str_lt(selected[k], selected[*b]),
            };
            if replace {
                proof {
                    lemma_seq_lt_irreflexive(selected@[k as int]@);
                    if let Some((b, _)) = best {
                        assert forall|j: int|
                            0 <= j < k + 1 && absent_inputs(layers@, selected@, #[trigger] selected@[j]@).len() > 0 implies !seq_lt(
                            selected@[j]@,
                            selected@[k as int]@,
                        ) by {
                            lemma_seq_lt_transitive(selected@[j]@, selected@[k as int]@, selected@[b as int]@);
                        }
                    }
                }
                best = Some((k, missing));
            }
        }
        k = k + 1;
    }
    proof {
        if let Some((b, _)) = best {
            assert(is_selected(selected@, selected@[b as int]@));
        }
    }
    best
}

/// Copies of the selected layers, in description order.
fn kept_copies(layers: &Vec<Layer>, selected: &[&str]) -> (r: Vec<Layer>)
    ensures
        layers_same(r@, kept_layers(layers@, selected@)),
{
    let mut out: Vec<Layer> = Vec::new();
    let mut i: usize = 0;
    proof {
        assert(layers@.take(0).filter(|l: Layer| is_selected(selected@, l.name@)) =~= Seq::<Layer>::empty());
    }
    while i < layers.len()
        invariant
            i <= layers@.len(),
            layers_same(out@, kept_layers(layers@.take(i as int), selected@)),
        decreases layers@.len() - i,
    {
        let ghost before = out@;
        proof {
            assert(layers@.take(i + 1).drop_last() =~= layers@.take(i as int));
            assert(layers@.take(i + 1).last() == layers@[i as int]);
            layers@.take(i as int).lemma_filter_push(layers@[i as int], |l: Layer| is_selected(selected@, l.name@));
            assert(layers@.take(i + 1) =~= layers@.take(i as int).push(layers@[i as int]));
        }
        if name_selected(selected, layers[i].name.as_str()) {
            out.push(layers[i].clone());
        }
        i = i + 1;
    }
    proof {
        assert(layers@.take(layers@.len() as int) =~= layers@);
    }
    out
}

/// Extracts the description restricted to the selected layers. The least
/// selected name (in string order) without a layer is `UnknownLayer`;
/// otherwise the least selected name whose layer reads an unselected layer
/// is `Unresolvable`, with those inputs in order; otherwise the restricted
/// description is validated, and its errors are `Invalid`.
pub fn extract_cut(description: &Description, selected_layers: &[&str], schemas: &[Schema]) -> (r: Result<
    Description,
    CutError,
>)
    ensures
        (exists|k: int|
            0 <= k < selected_layers@.len() && !has_layer(description.layers@, #[trigger] selected_layers@[k]@))
            ==> (r matches Err(CutError::UnknownLayer(n)) && least_unknown(
            selected_layers@,
            description.layers@,
            n@,
        )),
        (forall|k: int|
            0 <= k < selected_layers@.len() ==> has_layer(description.layers@, #[trigger] selected_layers@[k]@)) ==> {
            &&& (exists|k: int|
                0 <= k < selected_layers@.len() && absent_inputs(
                    description.layers@,
                    selected_layers@,
                    #[trigger] selected_layers@[k]@,
                ).len() > 0) ==> (r matches Err(CutError::Unresolvable { layer, missing }) && least_unresolvable(
                selected_layers@,
                description.layers@,
                layer@,
            ) && string_views(missing@) == absent_inputs(description.layers@, selected_layers@, layer@))
            &&& (forall|k: int|
                0 <= k < selected_layers@.len() ==> absent_inputs(
                    description.layers@,
                    selected_layers@,
                    #[trigger] selected_layers@[k]@,
                ).len() == 0) ==> match r {
                Ok(cut) => is_cut_of(cut, *description, selected_layers@) && description_valid(cut, schemas@),
                Err(e) => e matches CutError::Invalid(errors) && errors@.len() > 0 && exists|c: Description|
                    is_cut_of(c, *description, selected_layers@) && !description_valid(c, schemas@),
            }
        },
{
    if let Some(k) = unknown_layer(&description.layers, selected_layers) {
        return Err(CutError::UnknownLayer(owned(selected_layers[k])));
    }
    if let Some((k, missing)) = unresolvable_layer(&description.layers, selected_layers) {
        return Err(CutError::Unresolvable { layer: owned(selected_layers[k]), missing });
    }
    let cut = Description {
        address: description.address.clone(),
        label: copy_label(&description.label),
        core_spec: description.core_spec,
        core: description.core.clone(),
        extensions: copy_parameters(&description.extensions),
        layers: kept_copies(&description.layers, selected_layers),
    };
    match validate_description(&cut, schemas) {
        Ok(()) => Ok(cut),
        Err(errors) => {
            proof {
                assert(!description_valid(cut, schemas@));
            }
            Err(CutError::Invalid(errors))
        },
    }
}

/// The items joined by `sep`.
pub open spec fn joined_by(items: Seq<Seq<char>>, sep: Seq<char>) -> Seq<char>
    decreases items.len(),
{
    if items.len() == 0 {
        Seq::empty()
    } else if items.len() == 1 {
        items[0]
    } else {
        joined_by(items.drop_last(), sep) + sep + items.last()
    }
}

/// The message of a cut error.
pub open spec fn cut_error_text(e: CutError) -> Seq<char> {
    match e {
        CutError::UnknownLayer(layer) => "C11 unknown layer `"@ + layer@ + "`"@,
        CutError::Unresolvable { layer, missing } => "C12 layer `"@ + layer@ + "` is unresolvable; absent inputs: "@
            + joined_by(string_views(missing@).map_values(|n: Seq<char>| "`"@ + n + "`"@), ", "@),
        CutError::Invalid(errors) => "C11 extracted cut is invalid: "@ + joined_by(
            errors@.map_values(|e: ValidationError| validation_error_text(e)),
            "; "@,
        ),
    }
}

impl CutError {
    /// The error's message.
    pub fn to_string(&self) -> (s: String)
        ensures
            s@ == cut_error_text(*self),
    {
        match self {
            CutError::UnknownLayer(layer) => {
                let mut s = owned("C11 unknown layer `");
                push_str(&mut s, layer.as_str());
                push_str(&mut s, "`");
                s
            },
            CutError::Unresolvable { layer, missing } => {
                let mut s = owned("C12 layer `");
                push_str(&mut s, layer.as_str());
                push_str(&mut s, "` is unresolvable; absent inputs: ");
                let ghost start = s@;
                let ghost items = string_views(missing@).map_values(|n: Seq<char>| "`"@ + n + "`"@);
                let mut i: usize = 0;
                while i < missing.len()
                    invariant
                        items == string_views(missing@).map_values(|n: Seq<char>| "`"@ + n + "`"@),
                        i <= missing@.len(),
                        s@ == start + joined_by(items.take(i as int), ", "@),
                    decreases missing@.len() - i,
                {
                    if i > 0 {
                        push_str(&mut s, ", ");
                    }
                    push_str(&mut s, "`");
                    push_str(&mut s, missing[i].as_str());
                    push_str(&mut s, "`");
                    proof {
                        let p = items.take(i as int);
                        assert(items.take(i + 1) =~= p.push(items[i as int]));
                        assert(p.push(items[i as int]).drop_last() =~= p);
                        if i == 0 {
                            assert(p =~= Seq::<Seq<char>>::empty());
                        }
                        assert(s@ =~= start + joined_by(items.take(i + 1), ", "@));
                    }
                    i = i + 1;
                }
                proof {
                    assert(items.take(i as int) =~= items);
                }
                s
            },
            CutError::Invalid(errors) => {
                let mut s = owned("C11 extracted cut is invalid: ");
                let ghost start = s@;
                let ghost items = errors@.map_values(|e: ValidationError| validation_error_text(e));
                let mut i: usize = 0;
                while i < errors.len()
                    invariant
                        items == errors@.map_values(|e: ValidationError| validation_error_text(e)),
                        i <= errors@.len(),
                        s@ == start + joined_by(items.take(i as int), "; "@),
                    decreases errors@.len() - i,
                {
                    if i > 0 {
                        push_str(&mut s, "; ");
                    }
                    let text = errors[i].to_string();
                    push_str(&mut s, text.as_str());
                    proof {
                        let p = items.take(i as int);
                        assert(items.take(i + 1) =~= p.push(items[i as int]));
                        assert(p.push(items[i as int]).drop_last() =~= p);
                        if i == 0 {
                            assert(p =~= Seq::<Seq<char>>::empty());
                        }
                        assert(s@ =~= start + joined_by(items.take(i + 1), "; "@));
                    }
                    i = i + 1;
                }
                proof {
                    assert(items.take(i as int) =~= items);
                }
                s
            },
        }
    }
}

} // verus!

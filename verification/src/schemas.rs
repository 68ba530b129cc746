//! The registry of shared prototype extension schemas.
use vstd::prelude::*;

use crate::namespace::{https_prefix, is_namespace_text, Namespace, NamespaceError};
use crate::schema::{
    arm_shapes, field_shapes, shape_of, texts, ElementKind, ElementKinds, Schema, SchemaExpr,
    SchemaExprArm, SchemaExprField, ShapeView,
};
use crate::text::{chars_of, is_ascii_char, is_ascii_control, is_ascii_whitespace, owned, push_str, starts_with};
use crate::version::Version;

verus! {

pub const PROTOTYPE_NAMESPACE_ROOT: &'static str = "https://github.com/goldenwitch/grimoire/extension";

/// A namespace the library recognizes: the prototype root, or a path below
/// it.
pub open spec fn is_known_namespace(ns: Seq<char>) -> bool {
    ns == PROTOTYPE_NAMESPACE_ROOT@ || starts_with(ns, PROTOTYPE_NAMESPACE_ROOT@ + "/"@)
}

/// Whether a namespace is the prototype root or lies below it.
pub fn known_namespace(ns: &Namespace) -> (b: bool)
    ensures
        b == is_known_namespace(ns@),
{
    let n = chars_of(ns.as_str());
    let r = chars_of(PROTOTYPE_NAMESPACE_ROOT);
    proof {
        reveal_strlit("/");
    }
    let ghost full = r@ + "/"@;
    if n.len() < r.len() {
        proof {
            assert(n@ != r@);
        }
        return false;
    }
    let mut i: usize = 0;
    while i < r.len()
        invariant
            i <= r@.len() <= n@.len(),
            n@ == ns@,
            r@ == PROTOTYPE_NAMESPACE_ROOT@,
            full == r@ + "/"@,
            "/"@ == seq!['/'],
            forall|j: int| 0 <= j < i ==> n@[j] == r@[j],
        decreases r@.len() - i,
    {
        if n[i] != r[i] {
            proof {
                assert(n@ != r@);
                if n@.len() >= full.len() {
                    assert(full[i as int] == r@[i as int]);
                    assert(n@.take(full.len() as int)[i as int] == n@[i as int]);
                }
            }
            return false;
        }
        i = i + 1;
    }
    proof {
        assert(n@.take(r@.len() as int) =~= r@);
    }
    if n.len() == r.len() {
        proof {
            assert(n@ =~= r@);
        }
        true
    } else {
        let b = n[r.len()] == '/';
        proof {
            assert(full.len() == r@.len() + 1);
            assert(full[r@.len() as int] == '/');
            if b {
                assert(n@.take(full.len() as int) =~= full);
            } else {
                assert(n@.take(full.len() as int)[r@.len() as int] != full[r@.len() as int]);
            }
            assert(n@ != r@);
        }
        b
    }
}

/// The namespace of the registry family `name`.
pub open spec fn family_namespace(name: Seq<char>) -> Seq<char> {
    "https://github.com/goldenwitch/grimoire/extension"@ + "/"@ + name
}

/// Lowercase ASCII letters only.
pub open spec fn is_lower_word(s: Seq<char>) -> bool {
    s.len() > 0 && forall|i: int| 0 <= i < s.len() ==> 'a' <= #[trigger] s[i] && s[i] <= 'z'
}

proof fn lemma_family_namespace(name: Seq<char>)
    requires
        is_lower_word(name),
    ensures
        is_namespace_text(family_namespace(name)),
{
    reveal_strlit("https://github.com/goldenwitch/grimoire/extension");
    reveal_strlit("/");
    let root = "https://github.com/goldenwitch/grimoire/extension"@;
    let s = family_namespace(name);
    assert(root.len() == 49);
    assert(s.take(8) =~= https_prefix());
    assert forall|i: int| 0 <= i < s.len() implies is_ascii_char(#[trigger] s[i]) && !is_ascii_control(s[i])
        && !is_ascii_whitespace(s[i]) by {
        if i < 49 {
            assert(s[i] == root[i]);
        } else if i > 49 {
            assert(s[i] == name[i - 50]);
        }
    }
    assert(starts_with(s, https_prefix()));
}

fn namespace(name: &str) -> (r: Result<Namespace, NamespaceError>)
    requires
        is_lower_word(name@),
    ensures
        r matches Ok(ns) && ns@ == family_namespace(name@),
{
    let mut text = owned(PROTOTYPE_NAMESPACE_ROOT);
    push_str(&mut text, "/");
    push_str(&mut text, name);
    proof {
        assert(text@ =~= family_namespace(name@));
        lemma_family_namespace(name@);
    }
    Namespace::parse(text.as_str())
}

/// The texts of a list of string literals.
pub open spec fn literal_texts(items: Seq<&str>) -> Seq<Seq<char>> {
    items.map_values(|s: &str| s@)
}

fn text() -> (e: SchemaExpr)
    ensures
        shape_of(e) == ShapeView::Text,
{
    SchemaExpr::Text
}

fn positive_integer() -> (e: SchemaExpr)
    ensures
        shape_of(e) == ShapeView::PositiveInteger,
{
    SchemaExpr::PositiveInteger
}

fn finite_number() -> (e: SchemaExpr)
    ensures
        shape_of(e) == ShapeView::FiniteNumber,
{
    SchemaExpr::FiniteNumber
}

fn address_reference() -> (e: SchemaExpr)
    ensures
        shape_of(e) == ShapeView::AddressReference,
{
    SchemaExpr::AddressReference
}

fn presence(schema: SchemaExpr) -> (e: SchemaExpr)
    ensures
        shape_of(e) == ShapeView::Presence(Box::new(shape_of(schema))),
{
    SchemaExpr::Presence(Box::new(schema))
}

fn sequence(schema: SchemaExpr) -> (e: SchemaExpr)
    ensures
        shape_of(e) == ShapeView::Sequence(Box::new(shape_of(schema))),
{
    SchemaExpr::Sequence(Box::new(schema))
}

fn enumeration(items: &[&str]) -> (e: SchemaExpr)
    ensures
        shape_of(e) == ShapeView::Enumeration(literal_texts(items@)),
{
    let mut values: Vec<String> = Vec::new();
    let mut i: usize = 0;
    while i < items.len()
        invariant
            i <= items@.len(),
            texts(values@) =~= literal_texts(items@.take(i as int)),
        decreases items@.len() - i,
    {
        let ghost before = values@;
        values.push(owned(items[i]));
        proof {
            assert(texts(values@) =~= texts(before).push(items@[i as int]@));
            assert(items@.take(i + 1) =~= items@.take(i as int).push(items@[i as int]));
        }
        i = i + 1;
    }
    proof {
        assert(items@.take(i as int) =~= items@);
    }
    SchemaExpr::Enumeration(values)
}

proof fn lemma_field_shapes_push(fields: Seq<SchemaExprField>, f: SchemaExprField)
    ensures
        field_shapes(fields.push(f)) == field_shapes(fields).push((f.name@, shape_of(*f.schema))),
    decreases fields.len(),
{
    let p = fields.push(f);
    assert(p[0] == if fields.len() == 0 { f } else { fields[0] });
    if fields.len() == 0 {
        assert(p.drop_first() =~= Seq::<SchemaExprField>::empty());
        assert(field_shapes(p.drop_first()) =~= Seq::<(Seq<char>, ShapeView)>::empty());
        assert(field_shapes(fields) =~= Seq::<(Seq<char>, ShapeView)>::empty());
        assert(field_shapes(p) =~= field_shapes(fields).push((f.name@, shape_of(*f.schema))));
    } else {
        assert(p.drop_first() =~= fields.drop_first().push(f));
        lemma_field_shapes_push(fields.drop_first(), f);
        assert(field_shapes(p) == seq![(fields[0].name@, shape_of(*fields[0].schema))] + field_shapes(p.drop_first()));
        assert(field_shapes(p) =~= field_shapes(fields).push((f.name@, shape_of(*f.schema))));
    }
}

proof fn lemma_arm_shapes_push(arms: Seq<SchemaExprArm>, a: SchemaExprArm)
    ensures
        arm_shapes(arms.push(a)) == arm_shapes(arms).push((a.tag@, shape_of(*a.schema))),
    decreases arms.len(),
{
    let p = arms.push(a);
    assert(p[0] == if arms.len() == 0 { a } else { arms[0] });
    if arms.len() == 0 {
        assert(p.drop_first() =~= Seq::<SchemaExprArm>::empty());
        assert(arm_shapes(p.drop_first()) =~= Seq::<(Seq<char>, ShapeView)>::empty());
        assert(arm_shapes(arms) =~= Seq::<(Seq<char>, ShapeView)>::empty());
        assert(arm_shapes(p) =~= arm_shapes(arms).push((a.tag@, shape_of(*a.schema))));
    } else {
        assert(p.drop_first() =~= arms.drop_first().push(a));
        lemma_arm_shapes_push(arms.drop_first(), a);
        assert(arm_shapes(p) == seq![(arms[0].tag@, shape_of(*arms[0].schema))] + arm_shapes(p.drop_first()));
        assert(arm_shapes(p) =~= arm_shapes(arms).push((a.tag@, shape_of(*a.schema))));
    }
}

/// Appends a required field.
fn field(fields: &mut Vec<SchemaExprField>, name: &str, schema: SchemaExpr)
    ensures
        field_shapes(final(fields)@) == field_shapes(old(fields)@).push((name@, shape_of(schema))),
{
    let f = SchemaExprField { name: owned(name), schema: Box::new(schema) };
    proof {
        lemma_field_shapes_push(fields@, f);
    }
    fields.push(f);
}

/// Appends a field whose value may be absent.
fn optional_field(fields: &mut Vec<SchemaExprField>, name: &str, schema: SchemaExpr)
    ensures
        field_shapes(final(fields)@) == field_shapes(old(fields)@).push(
            (name@, ShapeView::Presence(Box::new(shape_of(schema)))),
        ),
{
    field(fields, name, presence(schema));
}

fn product(fields: Vec<SchemaExprField>) -> (e: SchemaExpr)
    ensures
        shape_of(e) == ShapeView::Product(field_shapes(fields@)),
{
    SchemaExpr::Product(fields)
}

/// Appends an arm.
fn arm(arms: &mut Vec<SchemaExprArm>, tag: &str, schema: SchemaExpr)
    ensures
        arm_shapes(final(arms)@) == arm_shapes(old(arms)@).push((tag@, shape_of(schema))),
{
    let a = SchemaExprArm { tag: owned(tag), schema: Box::new(schema) };
    proof {
        lemma_arm_shapes_push(arms@, a);
    }
    arms.push(a);
}

fn alternative(arms: Vec<SchemaExprArm>) -> (e: SchemaExpr)
    ensures
        shape_of(e) == ShapeView::Alternative(arm_shapes(arms@)),
{
    SchemaExpr::Alternative(arms)
}

fn kinds(values: &[ElementKind]) -> (s: ElementKinds)
    ensures
        forall|k: ElementKind| #[trigger] s.has(k) <==> values@.contains(k),
{
    ElementKinds::from_kinds(values)
}

/// The number of shared schema families.
pub open spec fn registry_len() -> nat {
    10
}

/// The family names, in registry order.
pub open spec fn registry_name(i: int) -> Seq<char> {
    if i == 0 {
        "axes"@
    } else if i == 1 {
        "shapes"@
    } else if i == 2 {
        "architecture"@
    } else if i == 3 {
        "training"@
    } else if i == 4 {
        "execution"@
    } else if i == 5 {
        "precision"@
    } else if i == 6 {
        "placement"@
    } else if i == 7 {
        "measurement"@
    } else if i == 8 {
        "provenance"@
    } else {
        "lineage"@
    }
}

/// The element kinds each family attaches to.
pub open spec fn registry_kinds(i: int) -> Seq<ElementKind> {
    if i == 0 || i == 1 {
        seq![ElementKind::Port]
    } else if i == 2 || i == 4 {
        seq![ElementKind::Block, ElementKind::Port, ElementKind::Group]
    } else if i == 3 || i == 9 {
        seq![ElementKind::Block, ElementKind::Group]
    } else if i == 5 {
        seq![ElementKind::Block, ElementKind::Port]
    } else if i == 6 || i == 7 {
        seq![
            ElementKind::Description,
            ElementKind::Block,
            ElementKind::Port,
            ElementKind::Connection,
            ElementKind::Group,
        ]
    } else {
        seq![ElementKind::Group]
    }
}

pub open spec fn opt(s: ShapeView) -> ShapeView {
    ShapeView::Presence(Box::new(s))
}

pub open spec fn seq_of(s: ShapeView) -> ShapeView {
    ShapeView::Sequence(Box::new(s))
}

/// The fields of the `axes` family.
pub open spec fn axes_fields() -> Seq<(Seq<char>, ShapeView)> {
    seq![("name"@, ShapeView::Text), ("description"@, opt(ShapeView::Text))]
}

/// The arms of a `shapes` dimension.
pub open spec fn dimension_arms() -> Seq<(Seq<char>, ShapeView)> {
    seq![("literal"@, ShapeView::PositiveInteger), ("symbolic"@, ShapeView::AddressReference)]
}

/// The fields of the `shapes` family.
pub open spec fn shapes_fields() -> Seq<(Seq<char>, ShapeView)> {
    seq![
        ("layout"@, ShapeView::Enumeration(seq!["scalar"@, "vector"@, "sequence"@, "grid"@, "volume"@])),
        ("dimensions"@, seq_of(ShapeView::Alternative(dimension_arms()))),
    ]
}

/// The fields of the `architecture` family.
pub open spec fn architecture_fields() -> Seq<(Seq<char>, ShapeView)> {
    seq![
        ("family"@, ShapeView::Text),
        ("parameter_count"@, opt(ShapeView::PositiveInteger)),
        ("width"@, opt(ShapeView::PositiveInteger)),
        ("depth"@, opt(ShapeView::PositiveInteger)),
        ("head_count"@, opt(ShapeView::PositiveInteger)),
        ("mlp_width"@, opt(ShapeView::PositiveInteger)),
        ("activation"@, opt(ShapeView::Text)),
        ("position_encoding"@, opt(ShapeView::Text)),
        ("attention_regime"@, opt(ShapeView::Enumeration(seq!["causal"@, "bidirectional"@, "block-causal"@, "mixed"@, "unspecified"@]))),
        ("operator"@, opt(ShapeView::Text)),
        ("interface"@, opt(ShapeView::AddressReference)),
    ]
}

/// The fields of the `placement` family.
pub open spec fn placement_fields() -> Seq<(Seq<char>, ShapeView)> {
    seq![("location"@, ShapeView::Text)]
}

/// The fields of the `execution` family.
pub open spec fn execution_fields() -> Seq<(Seq<char>, ShapeView)> {
    seq![
        ("regime"@, ShapeView::Enumeration(seq!["static"@, "streaming"@, "recurrent"@, "closed-loop"@])),
        ("horizon"@, opt(ShapeView::PositiveInteger)),
        ("rate"@, opt(ShapeView::FiniteNumber)),
        ("external_consumer"@, ShapeView::Enumeration(seq!["yes"@, "no"@])),
    ]
}

/// The fields of the `precision` family.
pub open spec fn precision_fields() -> Seq<(Seq<char>, ShapeView)> {
    seq![
        ("weights"@, opt(ShapeView::Text)),
        ("activations"@, opt(ShapeView::Text)),
        ("accumulation"@, opt(ShapeView::Text)),
        ("optimizer_state"@, opt(ShapeView::Text)),
        ("sparsity"@, opt(ShapeView::Text)),
    ]
}

/// The arms of a measured value.
pub open spec fn measured_arms() -> Seq<(Seq<char>, ShapeView)> {
    seq![("integer"@, ShapeView::PositiveInteger), ("number"@, ShapeView::FiniteNumber)]
}

/// The fields of a measurement source.
pub open spec fn source_fields() -> Seq<(Seq<char>, ShapeView)> {
    seq![("origin"@, ShapeView::Text), ("locator"@, opt(ShapeView::Text)), ("protocol"@, opt(ShapeView::Text))]
}

/// The fields of the `measurement` family.
pub open spec fn measurement_fields() -> Seq<(Seq<char>, ShapeView)> {
    seq![
        ("value"@, ShapeView::Alternative(measured_arms())),
        ("unit"@, ShapeView::Text),
        ("source"@, ShapeView::Product(source_fields())),
    ]
}

/// The fields of the `provenance` family.
pub open spec fn provenance_fields() -> Seq<(Seq<char>, ShapeView)> {
    seq![
        ("citations"@, seq_of(ShapeView::Text)),
        ("assumptions"@, seq_of(ShapeView::Text)),
        ("novelty"@, ShapeView::Enumeration(seq!["novel"@, "existing"@, "adapted"@, "unclassified"@])),
    ]
}

/// The fields of the `lineage` family.
pub open spec fn lineage_fields() -> Seq<(Seq<char>, ShapeView)> {
    seq![
        ("base"@, ShapeView::AddressReference),
        ("deltas"@, seq_of(ShapeView::AddressReference)),
        ("operation"@, ShapeView::Enumeration(seq!["continual-update"@, "sparsify-rescale"@, "trim-sign-merge"@])),
        ("result"@, ShapeView::AddressReference),
    ]
}

/// The fields of one training phase.
pub open spec fn phase_fields() -> Seq<(Seq<char>, ShapeView)> {
    seq![
        ("name"@, ShapeView::Text),
        ("steps"@, opt(ShapeView::PositiveInteger)),
        ("learning_rate"@, opt(ShapeView::FiniteNumber)),
        ("frame_count"@, opt(ShapeView::PositiveInteger)),
        ("resolution"@, opt(ShapeView::AddressReference)),
    ]
}

/// The fields of the `training` family.
pub open spec fn training_fields() -> Seq<(Seq<char>, ShapeView)> {
    seq![
        ("objective"@, ShapeView::Text),
        ("optimizer"@, opt(ShapeView::Text)),
        ("batch_size"@, opt(ShapeView::PositiveInteger)),
        ("steps"@, opt(ShapeView::PositiveInteger)),
        ("phases"@, seq_of(ShapeView::Product(phase_fields()))),
        ("trainable_targets"@, seq_of(ShapeView::AddressReference)),
        ("frozen_targets"@, seq_of(ShapeView::AddressReference)),
        ("data_sources"@, seq_of(ShapeView::Text)),
    ]
}

/// The value shape of each family.
pub open spec fn registry_shape(i: int) -> ShapeView {
    ShapeView::Product(
        if i == 0 {
            axes_fields()
        } else if i == 1 {
            shapes_fields()
        } else if i == 2 {
            architecture_fields()
        } else if i == 3 {
            training_fields()
        } else if i == 4 {
            execution_fields()
        } else if i == 5 {
            precision_fields()
        } else if i == 6 {
            placement_fields()
        } else if i == 7 {
            measurement_fields()
        } else if i == 8 {
            provenance_fields()
        } else {
            lineage_fields()
        },
    )
}

/// The `i`th registry schema: its family name, namespace, version 1.0.0,
/// attachment kinds and value shape.
pub open spec fn is_registry_entry(s: Schema, i: int) -> bool {
    &&& s.name@ == registry_name(i)
    &&& s.namespace@ == family_namespace(registry_name(i))
    &&& s.version.major_spec() == 1 && s.version.minor_spec() == 0 && s.version.patch_spec() == 0
    &&& forall|k: ElementKind| #[trigger] s.allowed_elements.has(k) <==> registry_kinds(i).contains(k)
    &&& shape_of(s.value) == registry_shape(i)
}

fn make_schema(family: &str, allowed: &[ElementKind], value: SchemaExpr, Ghost(i): Ghost<int>) -> (s: Schema)
    requires
        family@ == registry_name(i),
        is_lower_word(family@),
        allowed@ =~= registry_kinds(i),
        shape_of(value) == registry_shape(i),
    ensures
        is_registry_entry(s, i),
{
    let ns = namespace(family);
    let namespace = match ns {
        Ok(n) => n,
        Err(_) => {
            proof {
                assert(false);
            }
            vstd::pervasive::unreached()
        },
    };
    Schema {
        namespace,
        name: owned(family),
        version: Version::new(1, 0, 0),
        allowed_elements: kinds(allowed),
        value,
    }
}

#[verifier::rlimit(50)]
fn axes_schema() -> (s: Schema)
    ensures
        is_registry_entry(s, 0),
{
    proof {
        reveal_strlit("axes");
    }
    let mut f: Vec<SchemaExprField> = Vec::new();
    field(&mut f, "name", text());
    optional_field(&mut f, "description", text());
    assert(field_shapes(f@) == axes_fields());
    let value = product(f);
    make_schema("axes", &[ElementKind::Port], value, Ghost(0))
}

#[verifier::rlimit(50)]
fn shapes_schema() -> (s: Schema)
    ensures
        is_registry_entry(s, 1),
{
    proof {
        reveal_strlit("shapes");
    }
    let mut arms: Vec<SchemaExprArm> = Vec::new();
    arm(&mut arms, "literal", positive_integer());
    arm(&mut arms, "symbolic", address_reference());
    assert(arm_shapes(arms@) == dimension_arms());
    let mut f: Vec<SchemaExprField> = Vec::new();
    let layouts = ["scalar", "vector", "sequence", "grid", "volume"];
    proof {
        assert(literal_texts(layouts@) =~= seq!["scalar"@, "vector"@, "sequence"@, "grid"@, "volume"@]);
    }
    field(&mut f, "layout", enumeration(&layouts));
    field(&mut f, "dimensions", sequence(alternative(arms)));
    assert(field_shapes(f@) == shapes_fields());
    let value = product(f);
    make_schema("shapes", &[ElementKind::Port], value, Ghost(1))
}

#[verifier::rlimit(50)]
fn architecture_schema() -> (s: Schema)
    ensures
        is_registry_entry(s, 2),
{
    proof {
        reveal_strlit("architecture");
    }
    let mut f: Vec<SchemaExprField> = Vec::new();
    field(&mut f, "family", text());
    optional_field(&mut f, "parameter_count", positive_integer());
    optional_field(&mut f, "width", positive_integer());
    optional_field(&mut f, "depth", positive_integer());
    optional_field(&mut f, "head_count", positive_integer());
    optional_field(&mut f, "mlp_width", positive_integer());
    optional_field(&mut f, "activation", text());
    optional_field(&mut f, "position_encoding", text());
    let attention_regimes = ["causal", "bidirectional", "block-causal", "mixed", "unspecified"];
    proof {
        assert(literal_texts(attention_regimes@) =~= seq!["causal"@, "bidirectional"@, "block-causal"@, "mixed"@, "unspecified"@]);
    }
    optional_field(&mut f, "attention_regime", enumeration(&attention_regimes));
    optional_field(&mut f, "operator", text());
    optional_field(&mut f, "interface", address_reference());
    assert(field_shapes(f@) == architecture_fields());
    let value = product(f);
    make_schema(
        "architecture",
        &[ElementKind::Block, ElementKind::Port, ElementKind::Group],
        value,
        Ghost(2),
    )
}

#[verifier::rlimit(50)]
fn execution_schema() -> (s: Schema)
    ensures
        is_registry_entry(s, 4),
{
    proof {
        reveal_strlit("execution");
    }
    let mut f: Vec<SchemaExprField> = Vec::new();
    let regimes = ["static", "streaming", "recurrent", "closed-loop"];
    proof {
        assert(literal_texts(regimes@) =~= seq!["static"@, "streaming"@, "recurrent"@, "closed-loop"@]);
    }
    field(&mut f, "regime", enumeration(&regimes));
    optional_field(&mut f, "horizon", positive_integer());
    optional_field(&mut f, "rate", finite_number());
    let answers = ["yes", "no"];
    proof {
        assert(literal_texts(answers@) =~= seq!["yes"@, "no"@]);
    }
    field(&mut f, "external_consumer", enumeration(&answers));
    assert(field_shapes(f@) == execution_fields());
    let value = product(f);
    make_schema(
        "execution",
        &[ElementKind::Block, ElementKind::Port, ElementKind::Group],
        value,
        Ghost(4),
    )
}

#[verifier::rlimit(50)]
fn precision_schema() -> (s: Schema)
    ensures
        is_registry_entry(s, 5),
{
    proof {
        reveal_strlit("precision");
    }
    let mut f: Vec<SchemaExprField> = Vec::new();
    optional_field(&mut f, "weights", text());
    optional_field(&mut f, "activations", text());
    optional_field(&mut f, "accumulation", text());
    optional_field(&mut f, "optimizer_state", text());
    optional_field(&mut f, "sparsity", text());
    assert(field_shapes(f@) == precision_fields());
    let value = product(f);
    make_schema("precision", &[ElementKind::Block, ElementKind::Port], value, Ghost(5))
}

#[verifier::rlimit(50)]
fn placement_schema() -> (s: Schema)
    ensures
        is_registry_entry(s, 6),
{
    proof {
        reveal_strlit("placement");
    }
    let mut f: Vec<SchemaExprField> = Vec::new();
    field(&mut f, "location", text());
    assert(field_shapes(f@) == placement_fields());
    let value = product(f);
    make_schema(
        "placement",
        &[
            ElementKind::Description,
            ElementKind::Block,
            ElementKind::Port,
            ElementKind::Connection,
            ElementKind::Group,
        ],
        value,
        Ghost(6),
    )
}

#[verifier::rlimit(50)]
fn measurement_schema() -> (s: Schema)
    ensures
        is_registry_entry(s, 7),
{
    proof {
        reveal_strlit("measurement");
    }
    let mut arms: Vec<SchemaExprArm> = Vec::new();
    arm(&mut arms, "integer", positive_integer());
    arm(&mut arms, "number", finite_number());
    assert(arm_shapes(arms@) == measured_arms());
    let mut source: Vec<SchemaExprField> = Vec::new();
    field(&mut source, "origin", text());
    optional_field(&mut source, "locator", text());
    optional_field(&mut source, "protocol", text());
    assert(field_shapes(source@) == source_fields());
    let mut f: Vec<SchemaExprField> = Vec::new();
    field(&mut f, "value", alternative(arms));
    field(&mut f, "unit", text());
    field(&mut f, "source", product(source));
    assert(field_shapes(f@) == measurement_fields());
    let value = product(f);
    make_schema(
        "measurement",
        &[
            ElementKind::Description,
            ElementKind::Block,
            ElementKind::Port,
            ElementKind::Connection,
            ElementKind::Group,
        ],
        value,
        Ghost(7),
    )
}

#[verifier::rlimit(50)]
fn provenance_schema() -> (s: Schema)
    ensures
        is_registry_entry(s, 8),
{
    proof {
        reveal_strlit("provenance");
    }
    let mut f: Vec<SchemaExprField> = Vec::new();
    field(&mut f, "citations", sequence(text()));
    field(&mut f, "assumptions", sequence(text()));
    let novelties = ["novel", "existing", "adapted", "unclassified"];
    proof {
        assert(literal_texts(novelties@) =~= seq!["novel"@, "existing"@, "adapted"@, "unclassified"@]);
    }
    field(&mut f, "novelty", enumeration(&novelties));
    assert(field_shapes(f@) == provenance_fields());
    let value = product(f);
    make_schema("provenance", &[ElementKind::Group], value, Ghost(8))
}

#[verifier::rlimit(50)]
fn lineage_schema() -> (s: Schema)
    ensures
        is_registry_entry(s, 9),
{
    proof {
        reveal_strlit("lineage");
    }
    let mut f: Vec<SchemaExprField> = Vec::new();
    field(&mut f, "base", address_reference());
    field(&mut f, "deltas", sequence(address_reference()));
    let operations = ["continual-update", "sparsify-rescale", "trim-sign-merge"];
    proof {
        assert(literal_texts(operations@) =~= seq!["continual-update"@, "sparsify-rescale"@, "trim-sign-merge"@]);
    }
    field(&mut f, "operation", enumeration(&operations));
    field(&mut f, "result", address_reference());
    assert(field_shapes(f@) == lineage_fields());
    let value = product(f);
    make_schema("lineage", &[ElementKind::Block, ElementKind::Group], value, Ghost(9))
}

#[verifier::rlimit(50)]
fn training_schema() -> (s: Schema)
    ensures
        is_registry_entry(s, 3),
{
    proof {
        reveal_strlit("training");
    }
    let mut phase: Vec<SchemaExprField> = Vec::new();
    field(&mut phase, "name", text());
    optional_field(&mut phase, "steps", positive_integer());
    optional_field(&mut phase, "learning_rate", finite_number());
    optional_field(&mut phase, "frame_count", positive_integer());
    optional_field(&mut phase, "resolution", address_reference());
    assert(field_shapes(phase@) == phase_fields());
    let phase = product(phase);
    let mut f: Vec<SchemaExprField> = Vec::new();
    field(&mut f, "objective", text());
    optional_field(&mut f, "optimizer", text());
    optional_field(&mut f, "batch_size", positive_integer());
    optional_field(&mut f, "steps", positive_integer());
    field(&mut f, "phases", sequence(phase));
    field(&mut f, "trainable_targets", sequence(address_reference()));
    field(&mut f, "frozen_targets", sequence(address_reference()));
    field(&mut f, "data_sources", sequence(text()));
    assert(field_shapes(f@) == training_fields());
    let value = product(f);
    make_schema("training", &[ElementKind::Block, ElementKind::Group], value, Ghost(3))
}

/// The shared schema families, each at version 1.0.0 under the prototype
/// namespace root.
pub fn prototype_schemas() -> (r: Result<Vec<Schema>, NamespaceError>)
    ensures
        r matches Ok(v) && v@.len() == registry_len() && forall|i: int|
            0 <= i < registry_len() ==> is_registry_entry(#[trigger] v@[i], i),
{
    let mut v: Vec<Schema> = Vec::new();
    v.push(axes_schema());
    v.push(shapes_schema());
    v.push(architecture_schema());
    v.push(training_schema());
    v.push(execution_schema());
    v.push(precision_schema());
    v.push(placement_schema());
    v.push(measurement_schema());
    v.push(provenance_schema());
    v.push(lineage_schema());
    Ok(v)
}

} // verus!

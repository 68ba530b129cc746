//! The extension check (C10): every extension parameter is well named; a
//! recognized namespace resolves its schema and holds a typed value the
//! schema accepts for the element it is attached to; any other namespace
//! stays opaque.
use vstd::prelude::*;

use crate::decimal::decimal_text;
use crate::definitions::{first_definition, DefEntry, Definitions};
use crate::model::{Block, Connection, Description, ExtensionParameter, ExtensionValue, Group, Port};
use crate::projection::{Decoration, Layer, SelectItem};
use crate::references::{indexed, named};
use crate::schema::{failure_of, schema_check_spec, ElementKind, Schema};
use crate::schemas::{is_known_namespace, known_namespace};
use crate::text::{char_is_alnum, char_is_alpha, chars_of, is_alnum, is_alpha, owned, push_str, str_eq};
use crate::validate::{extends, located_at, report, ValidationError};

verus! {

/// An ASCII letter followed by ASCII letters, digits, `_` and `-`.
pub open spec fn is_identifier(s: Seq<char>) -> bool {
    &&& s.len() > 0
    &&& is_alpha(s[0])
    &&& forall|i: int| 1 <= i < s.len() ==> is_alnum(#[trigger] s[i]) || s[i] == '_' || s[i] == '-'
}

pub fn identifier(s: &str) -> (b: bool)
    ensures
        b == is_identifier(s@),
{
    let cs = chars_of(s);
    if cs.len() == 0 || !char_is_alpha(cs[0]) {
        return false;
    }
    let mut i: usize = 1;
    while i < cs.len()
        invariant
            cs@ == s@,
            1 <= i <= cs@.len(),
            forall|j: int| 1 <= j < i ==> is_alnum(#[trigger] cs@[j]) || cs@[j] == '_' || cs@[j] == '-',
        decreases cs@.len() - i,
    {
        let c = cs[i];
        if !(char_is_alnum(c) || c == '_' || c == '-') {
            return false;
        }
        i = i + 1;
    }
    true
}

/// A schema registered under the parameter's namespace, schema name and
/// version.
pub open spec fn same_schema_key(s: Schema, p: ExtensionParameter) -> bool {
    s.namespace@ == p.namespace@ && s.name@ == p.schema@ && s.version == p.version
}

/// The last schema registered under the parameter's key.
pub open spec fn find_schema(schemas: Seq<Schema>, p: ExtensionParameter) -> Option<int>
    decreases schemas.len(),
{
    if schemas.len() == 0 {
        None
    } else if same_schema_key(schemas.last(), p) {
        Some(schemas.len() - 1)
    } else {
        find_schema(schemas.drop_last(), p)
    }
}

/// A parameter attached to an element of kind `kind` passes C10.
pub open spec fn extension_ok(schemas: Seq<Schema>, p: ExtensionParameter, kind: ElementKind) -> bool {
    &&& is_identifier(p.name@)
    &&& is_identifier(p.schema@)
    &&& if is_known_namespace(p.namespace@) {
        match find_schema(schemas, p) {
            Some(i) => p.value matches ExtensionValue::Known(v) && schema_check_spec(schemas[i], kind, v) is Ok,
            None => false,
        }
    } else {
        p.value is Opaque
    }
}

/// Every parameter of a list passes C10.
pub open spec fn all_ok(schemas: Seq<Schema>, s: Seq<(ExtensionParameter, ElementKind)>) -> bool {
    forall|i: int| 0 <= i < s.len() ==> extension_ok(schemas, (#[trigger] s[i]).0, s[i].1)
}

pub proof fn lemma_all_ok_concat(schemas: Seq<Schema>, a: Seq<(ExtensionParameter, ElementKind)>, b: Seq<(ExtensionParameter, ElementKind)>)
    ensures
        all_ok(schemas, a + b) == (all_ok(schemas, a) && all_ok(schemas, b)),
{
    if all_ok(schemas, a + b) {
        assert forall|i: int| 0 <= i < a.len() implies extension_ok(schemas, (#[trigger] a[i]).0, a[i].1) by {
            assert((a + b)[i] == a[i]);
        }
        assert forall|i: int| 0 <= i < b.len() implies extension_ok(schemas, (#[trigger] b[i]).0, b[i].1) by {
            assert((a + b)[i + a.len()] == b[i]);
        }
    }
    if all_ok(schemas, a) && all_ok(schemas, b) {
        assert forall|i: int| 0 <= i < (a + b).len() implies extension_ok(schemas, (#[trigger] (a + b)[i]).0, (a + b)[i].1) by {
            if i < a.len() {
                assert((a + b)[i] == a[i]);
            } else {
                assert((a + b)[i] == b[i - a.len()]);
            }
        }
    }
}

/// Each parameter with the kind of the element it is attached to.
pub open spec fn with_kind(exts: Seq<ExtensionParameter>, kind: ElementKind) -> Seq<(ExtensionParameter, ElementKind)> {
    exts.map_values(|p: ExtensionParameter| (p, kind))
}

pub open spec fn ports_attachments(ports: Seq<Port>) -> Seq<(ExtensionParameter, ElementKind)>
    decreases ports.len(),
{
    if ports.len() == 0 {
        Seq::empty()
    } else {
        ports_attachments(ports.drop_last()) + with_kind(ports.last().extensions@, ElementKind::Port)
    }
}

pub open spec fn block_attachments(b: Block) -> Seq<(ExtensionParameter, ElementKind)> {
    with_kind(b.extensions@, ElementKind::Block) + ports_attachments(b.ports.values())
}

pub open spec fn blocks_attachments(blocks: Seq<Block>) -> Seq<(ExtensionParameter, ElementKind)>
    decreases blocks.len(),
{
    if blocks.len() == 0 {
        Seq::empty()
    } else {
        blocks_attachments(blocks.drop_last()) + block_attachments(blocks.last())
    }
}

pub open spec fn connections_attachments(cs: Seq<Connection>) -> Seq<(ExtensionParameter, ElementKind)>
    decreases cs.len(),
{
    if cs.len() == 0 {
        Seq::empty()
    } else {
        connections_attachments(cs.drop_last()) + with_kind(cs.last().extensions@, ElementKind::Connection)
    }
}

pub open spec fn groups_attachments(gs: Seq<Group>) -> Seq<(ExtensionParameter, ElementKind)>
    decreases gs.len(),
{
    if gs.len() == 0 {
        Seq::empty()
    } else {
        groups_attachments(gs.drop_last()) + with_kind(gs.last().extensions@, ElementKind::Group)
    }
}

pub open spec fn item_attachments(item: SelectItem) -> Seq<(ExtensionParameter, ElementKind)> {
    match item {
        SelectItem::Use(_) => Seq::empty(),
        SelectItem::GenerateBlock(b) => block_attachments(b),
        SelectItem::GenerateConnection(c) => with_kind(c.extensions@, ElementKind::Connection),
        SelectItem::GenerateGroup(g) => with_kind(g.extensions@, ElementKind::Group),
    }
}

pub open spec fn items_attachments(items: Seq<SelectItem>) -> Seq<(ExtensionParameter, ElementKind)>
    decreases items.len(),
{
    if items.len() == 0 {
        Seq::empty()
    } else {
        items_attachments(items.drop_last()) + item_attachments(items.last())
    }
}

/// The kind a decoration's parameter is checked against: its target's, or
/// a block's when the target is not defined.
pub open spec fn decoration_kind(entries: Seq<DefEntry>, target: Seq<char>) -> ElementKind {
    match first_definition(entries, target) {
        Some(d) => d.0,
        None => ElementKind::Block,
    }
}

pub open spec fn decorations_attachments(decorations: Seq<Decoration>, entries: Seq<DefEntry>) -> Seq<(ExtensionParameter, ElementKind)>
    decreases decorations.len(),
{
    if decorations.len() == 0 {
        Seq::empty()
    } else {
        decorations_attachments(decorations.drop_last(), entries) + seq![(decorations.last().parameter, decoration_kind(entries, decorations.last().target@))]
    }
}

pub open spec fn layers_attachments(layers: Seq<Layer>, entries: Seq<DefEntry>) -> Seq<(ExtensionParameter, ElementKind)>
    decreases layers.len(),
{
    if layers.len() == 0 {
        Seq::empty()
    } else {
        layers_attachments(layers.drop_last(), entries) + items_attachments(layers.last().projection.select@)
            + decorations_attachments(layers.last().projection.decorate@, entries)
    }
}

/// Every extension parameter of a description with the kind it is checked
/// against, in order.
pub open spec fn attachments(d: Description, entries: Seq<DefEntry>) -> Seq<(ExtensionParameter, ElementKind)> {
    with_kind(d.extensions@, ElementKind::Description) + blocks_attachments(d.core.blocks.values())
        + connections_attachments(d.core.connections.values()) + groups_attachments(d.core.groups.values())
        + layers_attachments(d.layers@, entries)
}

fn lookup_schema<'a>(schemas: &'a [Schema], p: &ExtensionParameter) -> (r: Option<&'a Schema>)
    ensures
        match r {
            Some(s) => find_schema(schemas@, *p) matches Some(i) && *s == schemas@[i],
            None => find_schema(schemas@, *p) is None,
        },
{
    let mut found: Option<usize> = None;
    let mut i: usize = 0;
    while i < schemas.len()
        invariant
            i <= schemas@.len(),
            match found {
                Some(f) => f < i && find_schema(schemas@.take(i as int), *p) == Some(f as int),
                None => find_schema(schemas@.take(i as int), *p) is None,
            },
        decreases schemas@.len() - i,
    {
        let s = &schemas[i];
        proof {
            assert(schemas@.take(i + 1).drop_last() =~= schemas@.take(i as int));
            assert(schemas@.take(i + 1).last() == *s);
        }
        if s.namespace.same(&p.namespace) && str_eq(s.name.as_str(), p.schema.as_str()) && s.version.same(p.version) {
            found = Some(i);
        }
        i = i + 1;
    }
    proof {
        assert(schemas@.take(i as int) =~= schemas@);
    }
    match found {
        Some(f) => Some(&schemas[f]),
        None => None,
    }
}

/// What a validation error says: its check, location, identifier and
/// message.
pub open spec fn error_view(e: ValidationError) -> (Seq<char>, Seq<char>, Option<Seq<char>>, Seq<char>) {
    (
        e.check@,
        e.location@,
        match e.identifier {
            Some(i) => Some(i@),
            None => None,
        },
        e.message@,
    )
}

pub open spec fn error_views(errors: Seq<ValidationError>) -> Seq<(Seq<char>, Seq<char>, Option<Seq<char>>, Seq<char>)> {
    errors.map_values(|e: ValidationError| error_view(e))
}

/// How one parameter fails C10, as the rest of its location and the
/// message; `None` when it passes.
pub open spec fn extension_failure(schemas: Seq<Schema>, p: ExtensionParameter, kind: ElementKind) -> Option<
    (Seq<char>, Seq<char>),
> {
    if !is_identifier(p.name@) || !is_identifier(p.schema@) {
        Some((Seq::empty(), "extension parameter or schema name is not a valid identifier"@))
    } else if !is_known_namespace(p.namespace@) {
        if p.value is Known {
            Some((Seq::empty(), "unrecognized namespace must remain opaque"@))
        } else {
            None
        }
    } else {
        match find_schema(schemas, p) {
            None => Some((Seq::empty(), "recognized extension schema does not resolve"@)),
            Some(i) => match p.value {
                ExtensionValue::Opaque(_) => Some((Seq::empty(), "recognized namespace cannot use an opaque value"@)),
                ExtensionValue::Known(v) => match schema_check_spec(schemas[i], kind, v) {
                    Ok(()) => None,
                    Err(f) => Some(("/value"@ + f.0, f.1)),
                },
            },
        }
    }
}

/// The errors one parameter at `location` adds: none, or one C10 error.
pub open spec fn extension_errors(schemas: Seq<Schema>, p: ExtensionParameter, kind: ElementKind, location: Seq<char>) -> Seq<
    (Seq<char>, Seq<char>, Option<Seq<char>>, Seq<char>),
> {
    match extension_failure(schemas, p, kind) {
        None => Seq::empty(),
        Some((rest, message)) => seq![("C10"@, location + rest, Some(p.name@), message)],
    }
}

/// The errors of a list of parameters at `location`, each located by its
/// index.
pub open spec fn list_errors(schemas: Seq<Schema>, exts: Seq<ExtensionParameter>, kind: ElementKind, location: Seq<char>) -> Seq<
    (Seq<char>, Seq<char>, Option<Seq<char>>, Seq<char>),
>
    decreases exts.len(),
{
    if exts.len() == 0 {
        Seq::empty()
    } else {
        list_errors(schemas, exts.drop_last(), kind, location) + extension_errors(
            schemas,
            exts.last(),
            kind,
            location + "/"@ + decimal_text((exts.len() - 1) as nat),
        )
    }
}

/// The errors of a block's first `n` ports, each port's list located at
/// `<prefix><port address><suffix>`.
pub open spec fn ports_errors(schemas: Seq<Schema>, b: Block, n: nat, prefix: Seq<char>, suffix: Seq<char>) -> Seq<
    (Seq<char>, Seq<char>, Option<Seq<char>>, Seq<char>),
>
    decreases n,
{
    if n == 0 {
        Seq::empty()
    } else {
        ports_errors(schemas, b, (n - 1) as nat, prefix, suffix) + list_errors(
            schemas,
            b.ports.values()[n - 1].extensions@,
            ElementKind::Port,
            prefix + b.ports.keys()[n - 1] + suffix,
        )
    }
}

/// The errors of a block's parameters, then of its ports'.
pub open spec fn block_errors(schemas: Seq<Schema>, b: Block, location: Seq<char>, prefix: Seq<char>, suffix: Seq<char>) -> Seq<
    (Seq<char>, Seq<char>, Option<Seq<char>>, Seq<char>),
> {
    list_errors(schemas, b.extensions@, ElementKind::Block, location) + ports_errors(
        schemas,
        b,
        b.ports.values().len(),
        prefix,
        suffix,
    )
}

/// The errors of the first `n` core blocks.
pub open spec fn core_blocks_errors(schemas: Seq<Schema>, d: Description, n: nat) -> Seq<
    (Seq<char>, Seq<char>, Option<Seq<char>>, Seq<char>),
>
    decreases n,
{
    if n == 0 {
        Seq::empty()
    } else {
        let key = d.core.blocks.keys()[n - 1];
        core_blocks_errors(schemas, d, (n - 1) as nat) + block_errors(
            schemas,
            d.core.blocks.values()[n - 1],
            "core/block/"@ + key + "/extensions"@,
            "core/block/"@ + key + "/port/"@,
            "/extensions"@,
        )
    }
}

/// The errors of the first `n` core connections.
pub open spec fn core_connections_errors(schemas: Seq<Schema>, d: Description, n: nat) -> Seq<
    (Seq<char>, Seq<char>, Option<Seq<char>>, Seq<char>),
>
    decreases n,
{
    if n == 0 {
        Seq::empty()
    } else {
        core_connections_errors(schemas, d, (n - 1) as nat) + list_errors(
            schemas,
            d.core.connections.values()[n - 1].extensions@,
            ElementKind::Connection,
            "core/connection/"@ + d.core.connections.keys()[n - 1] + "/extensions"@,
        )
    }
}

/// The errors of the first `n` core groups.
pub open spec fn core_groups_errors(schemas: Seq<Schema>, d: Description, n: nat) -> Seq<
    (Seq<char>, Seq<char>, Option<Seq<char>>, Seq<char>),
>
    decreases n,
{
    if n == 0 {
        Seq::empty()
    } else {
        core_groups_errors(schemas, d, (n - 1) as nat) + list_errors(
            schemas,
            d.core.groups.values()[n - 1].extensions@,
            ElementKind::Group,
            "core/group/"@ + d.core.groups.keys()[n - 1] + "/extensions"@,
        )
    }
}

/// `layer/<name><part>/<k>`.
pub open spec fn layer_place(name: Seq<char>, part: Seq<char>, k: nat) -> Seq<char> {
    "layer/"@ + name + part + "/"@ + decimal_text(k)
}

/// The errors of the `k`th selection item of the layer named `name`.
pub open spec fn item_errors(schemas: Seq<Schema>, name: Seq<char>, item: SelectItem, k: nat) -> Seq<
    (Seq<char>, Seq<char>, Option<Seq<char>>, Seq<char>),
> {
    match item {
        SelectItem::Use(_) => Seq::empty(),
        SelectItem::GenerateBlock(b) => {
            let here = layer_place(name, "/select/block"@, k);
            block_errors(schemas, b, here, here + "/"@ + "port/"@, Seq::empty())
        },
        SelectItem::GenerateConnection(c) => list_errors(
            schemas,
            c.extensions@,
            ElementKind::Connection,
            layer_place(name, "/select/connection"@, k),
        ),
        SelectItem::GenerateGroup(g) => list_errors(
            schemas,
            g.extensions@,
            ElementKind::Group,
            layer_place(name, "/select/group"@, k),
        ),
    }
}

/// The errors of the first `n` selection items of a layer.
pub open spec fn items_errors(schemas: Seq<Schema>, layer: Layer, n: nat) -> Seq<
    (Seq<char>, Seq<char>, Option<Seq<char>>, Seq<char>),
>
    decreases n,
{
    if n == 0 {
        Seq::empty()
    } else {
        items_errors(schemas, layer, (n - 1) as nat) + item_errors(
            schemas,
            layer.name@,
            layer.projection.select@[n - 1],
            (n - 1) as nat,
        )
    }
}

/// The errors of the first `n` decorations of a layer.
pub open spec fn decorations_errors(schemas: Seq<Schema>, layer: Layer, entries: Seq<DefEntry>, n: nat) -> Seq<
    (Seq<char>, Seq<char>, Option<Seq<char>>, Seq<char>),
>
    decreases n,
{
    if n == 0 {
        Seq::empty()
    } else {
        let dec = layer.projection.decorate@[n - 1];
        decorations_errors(schemas, layer, entries, (n - 1) as nat) + extension_errors(
            schemas,
            dec.parameter,
            decoration_kind(entries, dec.target@),
            layer_place(layer.name@, "/decorate"@, (n - 1) as nat),
        )
    }
}

/// The errors of the first `n` layers: each layer's selection, then its
/// decorations.
pub open spec fn layers_errors(schemas: Seq<Schema>, layers: Seq<Layer>, entries: Seq<DefEntry>, n: nat) -> Seq<
    (Seq<char>, Seq<char>, Option<Seq<char>>, Seq<char>),
>
    decreases n,
{
    if n == 0 {
        Seq::empty()
    } else {
        let layer = layers[n - 1];
        layers_errors(schemas, layers, entries, (n - 1) as nat) + items_errors(
            schemas,
            layer,
            layer.projection.select@.len(),
        ) + decorations_errors(schemas, layer, entries, layer.projection.decorate@.len())
    }
}

/// Every C10 error of a description, in check order: its own parameters,
/// the core blocks (each with its ports), connections and groups, then
/// each layer's.
pub open spec fn extension_errors_of(schemas: Seq<Schema>, d: Description, entries: Seq<DefEntry>) -> Seq<
    (Seq<char>, Seq<char>, Option<Seq<char>>, Seq<char>),
> {
    list_errors(schemas, d.extensions@, ElementKind::Description, "description/extensions"@) + core_blocks_errors(
        schemas,
        d,
        d.core.blocks.values().len(),
    ) + core_connections_errors(schemas, d, d.core.connections.values().len()) + core_groups_errors(
        schemas,
        d,
        d.core.groups.values().len(),
    ) + layers_errors(schemas, d.layers@, entries, d.layers@.len())
}

proof fn lemma_failure_iff_not_ok(schemas: Seq<Schema>, p: ExtensionParameter, kind: ElementKind)
    ensures
        extension_failure(schemas, p, kind) is None <==> extension_ok(schemas, p, kind),
{
}

/// Pushing an error adds its view at the end.
pub proof fn lemma_views_push(start: Seq<ValidationError>, after: Seq<ValidationError>)
    requires
        after.len() == start.len() + 1,
        extends(start, after),
    ensures
        error_views(after) == error_views(start) + seq![error_view(after.last())],
{
    assert(after.subrange(0, start.len() as int) == start);
    assert forall|i: int| 0 <= i < start.len() implies after[i] == start[i] by {
        assert(after.subrange(0, start.len() as int)[i] == after[i]);
    }
    assert(error_views(after) =~= error_views(start) + seq![error_view(after.last())]);
}

/// Checks one parameter attached to an element of kind `kind`.
pub fn check_extension_parameter(
    p: &ExtensionParameter,
    kind: ElementKind,
    location: &str,
    schemas: &[Schema],
    errors: &mut Vec<ValidationError>,
)
    ensures
        extends(old(errors)@, final(errors)@),
        final(errors)@.len() == old(errors)@.len() <==> extension_ok(schemas@, *p, kind),
        error_views(final(errors)@) == error_views(old(errors)@) + extension_errors(schemas@, *p, kind, location@),
{
    proof {
        assert(errors@.subrange(0, errors@.len() as int) =~= errors@);
        lemma_failure_iff_not_ok(schemas@, *p, kind);
        reveal_strlit("C10");
    }
    let ghost start = errors@;
    if !identifier(p.name.as_str()) || !identifier(p.schema.as_str()) {
        report(errors, "C10", owned(location), Some(owned(p.name.as_str())), "extension parameter or schema name is not a valid identifier");
        proof {
            lemma_views_push(start, errors@);
        }
        return ;
    }
    if !known_namespace(&p.namespace) {
        if let ExtensionValue::Known(_) = &p.value {
            report(errors, "C10", owned(location), Some(owned(p.name.as_str())), "unrecognized namespace must remain opaque");
            proof {
                lemma_views_push(start, errors@);
            }
        } else {
            proof {
                assert(error_views(errors@) =~= error_views(start) + Seq::empty());
            }
        }
        return ;
    }
    let schema = match lookup_schema(schemas, p) {
        Some(s) => s,
        None => {
            report(errors, "C10", owned(location), Some(owned(p.name.as_str())), "recognized extension schema does not resolve");
            proof {
                lemma_views_push(start, errors@);
            }
            return ;
        },
    };
    let value = match &p.value {
        ExtensionValue::Known(v) => v,
        ExtensionValue::Opaque(_) => {
            report(errors, "C10", owned(location), Some(owned(p.name.as_str())), "recognized namespace cannot use an opaque value");
            proof {
                lemma_views_push(start, errors@);
            }
            return ;
        },
    };
    match schema.validate(kind, value) {
        Ok(()) => {
            proof {
                assert(error_views(errors@) =~= error_views(start) + Seq::empty());
            }
        },
        Err(error) => {
            let mut here = owned(location);
            push_str(&mut here, "/value");
            push_str(&mut here, error.path.as_str());
            let ghost here_view = here@;
            report(errors, "C10", here, Some(owned(p.name.as_str())), error.message.as_str());
            proof {
                lemma_views_push(start, errors@);
                assert(here_view =~= location@ + ("/value"@ + error.path@));
            }
        },
    }
}

/// Checks a list of parameters attached to elements of one kind.
pub fn check_extension_list(
    exts: &Vec<ExtensionParameter>,
    kind: ElementKind,
    location: &str,
    schemas: &[Schema],
    errors: &mut Vec<ValidationError>,
)
    ensures
        extends(old(errors)@, final(errors)@),
        final(errors)@.len() == old(errors)@.len() <==> all_ok(schemas@, with_kind(exts@, kind)),
        error_views(final(errors)@) == error_views(old(errors)@) + list_errors(schemas@, exts@, kind, location@),
{
    let ghost start = errors@;
    proof {
        assert(errors@.subrange(0, start.len() as int) =~= start);
        assert(exts@.take(0) =~= Seq::<ExtensionParameter>::empty());
        assert(error_views(errors@) =~= error_views(start) + list_errors(schemas@, exts@.take(0), kind, location@));
    }
    let mut i: usize = 0;
    while i < exts.len()
        invariant
            i <= exts@.len(),
            extends(start, errors@),
            errors@.len() == start.len() <==> all_ok(schemas@, with_kind(exts@.take(i as int), kind)),
            error_views(errors@) == error_views(start) + list_errors(schemas@, exts@.take(i as int), kind, location@),
        decreases exts@.len() - i,
    {
        let ghost before = errors@;
        let here = indexed(location, i);
        check_extension_parameter(&exts[i], kind, here.as_str(), schemas, errors);
        proof {
            let t = exts@.take(i + 1);
            assert(t.drop_last() =~= exts@.take(i as int));
            assert(t.last() == exts@[i as int]);
            assert(error_views(errors@) =~= error_views(start) + list_errors(schemas@, t, kind, location@));
            assert(errors@.subrange(0, start.len() as int) =~= before.subrange(0, start.len() as int));
            assert(with_kind(exts@.take(i + 1), kind) =~= with_kind(exts@.take(i as int), kind) + seq![(exts@[i as int], kind)]);
            lemma_all_ok_concat(schemas@, with_kind(exts@.take(i as int), kind), seq![(exts@[i as int], kind)]);
            assert(seq![(exts@[i as int], kind)][0] == (exts@[i as int], kind));
        }
        i = i + 1;
    }
    proof {
        assert(exts@.take(i as int) =~= exts@);
    }
}

/// Checks a block's parameters and its ports'; a port's list is located at
/// `<port_prefix><port address><port_suffix>`.
fn check_block_extensions(
    block: &Block,
    block_location: &str,
    port_prefix: &str,
    port_suffix: &str,
    schemas: &[Schema],
    errors: &mut Vec<ValidationError>,
)
    ensures
        extends(old(errors)@, final(errors)@),
        final(errors)@.len() == old(errors)@.len() <==> all_ok(schemas@, block_attachments(*block)),
        error_views(final(errors)@) == error_views(old(errors)@) + block_errors(
            schemas@,
            *block,
            block_location@,
            port_prefix@,
            port_suffix@,
        ),
{
    let ghost start = errors@;
    check_extension_list(&block.extensions, ElementKind::Block, block_location, schemas, errors);
    let ghost mid = errors@;
    proof {
        assert(errors@.subrange(0, mid.len() as int) =~= mid);
        assert(error_views(mid) =~= error_views(start) + list_errors(schemas@, block.extensions@, ElementKind::Block, block_location@) + ports_errors(schemas@, *block, 0, port_prefix@, port_suffix@));
    }
    let mut j: usize = 0;
    while j < block.ports.len()
        invariant
            j <= block.ports.entries().len(),
            extends(start, errors@),
            extends(start, mid),
            extends(mid, errors@),
            mid.len() == start.len() <==> all_ok(schemas@, with_kind(block.extensions@, ElementKind::Block)),
            errors@.len() == mid.len() <==> all_ok(schemas@, ports_attachments(block.ports.values().take(j as int))),
            error_views(errors@) == error_views(start) + list_errors(schemas@, block.extensions@, ElementKind::Block, block_location@)
                + ports_errors(schemas@, *block, j as nat, port_prefix@, port_suffix@),
        decreases block.ports.entries().len() - j,
    {
        let port_key = block.ports.key_at(j);
        let port = block.ports.value_at(j);
        let here = located_at(port_prefix, port_key.as_str(), port_suffix);
        let ghost before = errors@;
        check_extension_list(&port.extensions, ElementKind::Port, here.as_str(), schemas, errors);
        proof {
            assert(errors@.subrange(0, start.len() as int) =~= before.subrange(0, start.len() as int));
            assert(errors@.subrange(0, mid.len() as int) =~= before.subrange(0, mid.len() as int));
            let t = block.ports.values().take(j + 1);
            assert(t.drop_last() =~= block.ports.values().take(j as int));
            assert(t.last() == *port);
            lemma_all_ok_concat(schemas@, ports_attachments(block.ports.values().take(j as int)), with_kind(port.extensions@, ElementKind::Port));
            assert(block.ports.keys()[j as int] == port_key@);
            assert(block.ports.values()[j as int] == *port);
            assert(error_views(errors@) =~= error_views(start) + list_errors(schemas@, block.extensions@, ElementKind::Block, block_location@)
                + ports_errors(schemas@, *block, (j + 1) as nat, port_prefix@, port_suffix@));
        }
        j = j + 1;
    }
    proof {
        assert(block.ports.values().take(j as int) =~= block.ports.values());
        lemma_all_ok_concat(schemas@, with_kind(block.extensions@, ElementKind::Block), ports_attachments(block.ports.values()));
        assert(error_views(errors@) =~= error_views(start) + block_errors(schemas@, *block, block_location@, port_prefix@, port_suffix@));
    }
}

/// Reports extension parameters that fail C10, in order.
pub fn check_extensions(d: &Description, defs: &Definitions, schemas: &[Schema], errors: &mut Vec<ValidationError>)
    requires
        defs.wf(),
    ensures
        extends(old(errors)@, final(errors)@),
        final(errors)@.len() == old(errors)@.len() <==> all_ok(schemas@, attachments(*d, defs.entries@)),
        error_views(final(errors)@) == error_views(old(errors)@) + extension_errors_of(schemas@, *d, defs.entries@),
{
    let ghost start = errors@;
    check_extension_list(&d.extensions, ElementKind::Description, "description/extensions", schemas, errors);
    let ghost done = with_kind(d.extensions@, ElementKind::Description);
    let ghost acc = list_errors(schemas@, d.extensions@, ElementKind::Description, "description/extensions"@);
    proof {
        assert(error_views(errors@) =~= error_views(start) + acc + core_blocks_errors(schemas@, *d, 0));
    }
    let blocks = &d.core.blocks;
    let mut i: usize = 0;
    while i < blocks.len()
        invariant
            *blocks == d.core.blocks,
            i <= blocks.entries().len(),
            extends(start, errors@),
            errors@.len() == start.len() <==> all_ok(schemas@, done + blocks_attachments(blocks.values().take(i as int))),
            error_views(errors@) == error_views(start) + acc + core_blocks_errors(schemas@, *d, i as nat),
        decreases blocks.entries().len() - i,
    {
        let key = blocks.key_at(i);
        let block = blocks.value_at(i);
        let here = located_at("core/block/", key.as_str(), "/extensions");
        let mut prefix = located_at("core/block/", key.as_str(), "/port/");
        let ghost before = errors@;
        check_block_extensions(block, here.as_str(), prefix.as_str(), "/extensions", schemas, errors);
        proof {
            assert(errors@.subrange(0, start.len() as int) =~= before.subrange(0, start.len() as int));
            let t = blocks.values().take(i + 1);
            assert(t.drop_last() =~= blocks.values().take(i as int));
            assert(t.last() == *block);
            let prev = done + blocks_attachments(blocks.values().take(i as int));
            assert(done + blocks_attachments(t) =~= prev + block_attachments(*block));
            lemma_all_ok_concat(schemas@, prev, block_attachments(*block));
            assert(d.core.blocks.keys()[i as int] == key@);
            assert(d.core.blocks.values()[i as int] == *block);
            assert(error_views(errors@) =~= error_views(start) + acc + core_blocks_errors(schemas@, *d, (i + 1) as nat));
        }
        i = i + 1;
    }
    proof {
        assert(blocks.values().take(i as int) =~= blocks.values());
    }
    let ghost done = done + blocks_attachments(d.core.blocks.values());
    let ghost acc = acc + core_blocks_errors(schemas@, *d, d.core.blocks.values().len());
    proof {
        assert(error_views(errors@) =~= error_views(start) + acc + core_connections_errors(schemas@, *d, 0));
    }
    let connections = &d.core.connections;
    let mut i: usize = 0;
    while i < connections.len()
        invariant
            *connections == d.core.connections,
            i <= connections.entries().len(),
            extends(start, errors@),
            errors@.len() == start.len() <==> all_ok(schemas@, done + connections_attachments(connections.values().take(i as int))),
            error_views(errors@) == error_views(start) + acc + core_connections_errors(schemas@, *d, i as nat),
        decreases connections.entries().len() - i,
    {
        let key = connections.key_at(i);
        let c = connections.value_at(i);
        let here = located_at("core/connection/", key.as_str(), "/extensions");
        let ghost before = errors@;
        check_extension_list(&c.extensions, ElementKind::Connection, here.as_str(), schemas, errors);
        proof {
            assert(errors@.subrange(0, start.len() as int) =~= before.subrange(0, start.len() as int));
            let t = connections.values().take(i + 1);
            assert(t.drop_last() =~= connections.values().take(i as int));
            assert(t.last() == *c);
            let prev = done + connections_attachments(connections.values().take(i as int));
            assert(done + connections_attachments(t) =~= prev + with_kind(c.extensions@, ElementKind::Connection));
            lemma_all_ok_concat(schemas@, prev, with_kind(c.extensions@, ElementKind::Connection));
            assert(d.core.connections.keys()[i as int] == key@);
            assert(d.core.connections.values()[i as int] == *c);
            assert(error_views(errors@) =~= error_views(start) + acc + core_connections_errors(schemas@, *d, (i + 1) as nat));
        }
        i = i + 1;
    }
    proof {
        assert(connections.values().take(i as int) =~= connections.values());
    }
    let ghost done = done + connections_attachments(d.core.connections.values());
    let ghost acc = acc + core_connections_errors(schemas@, *d, d.core.connections.values().len());
    proof {
        assert(error_views(errors@) =~= error_views(start) + acc + core_groups_errors(schemas@, *d, 0));
    }
    let groups = &d.core.groups;
    let mut i: usize = 0;
    while i < groups.len()
        invariant
            *groups == d.core.groups,
            i <= groups.entries().len(),
            extends(start, errors@),
            errors@.len() == start.len() <==> all_ok(schemas@, done + groups_attachments(groups.values().take(i as int))),
            error_views(errors@) == error_views(start) + acc + core_groups_errors(schemas@, *d, i as nat),
        decreases groups.entries().len() - i,
    {
        let key = groups.key_at(i);
        let g = groups.value_at(i);
        let here = located_at("core/group/", key.as_str(), "/extensions");
        let ghost before = errors@;
        check_extension_list(&g.extensions, ElementKind::Group, here.as_str(), schemas, errors);
        proof {
            assert(errors@.subrange(0, start.len() as int) =~= before.subrange(0, start.len() as int));
            let t = groups.values().take(i + 1);
            assert(t.drop_last() =~= groups.values().take(i as int));
            assert(t.last() == *g);
            let prev = done + groups_attachments(groups.values().take(i as int));
            assert(done + groups_attachments(t) =~= prev + with_kind(g.extensions@, ElementKind::Group));
            lemma_all_ok_concat(schemas@, prev, with_kind(g.extensions@, ElementKind::Group));
            assert(d.core.groups.keys()[i as int] == key@);
            assert(d.core.groups.values()[i as int] == *g);
            assert(error_views(errors@) =~= error_views(start) + acc + core_groups_errors(schemas@, *d, (i + 1) as nat));
        }
        i = i + 1;
    }
    proof {
        assert(groups.values().take(i as int) =~= groups.values());
    }
    let ghost done = done + groups_attachments(d.core.groups.values());
    let ghost acc = acc + core_groups_errors(schemas@, *d, d.core.groups.values().len());
    proof {
        assert(error_views(errors@) =~= error_views(start) + acc + layers_errors(schemas@, d.layers@, defs.entries@, 0));
        reveal_strlit("");
    }
    let mut l: usize = 0;
    while l < d.layers.len()
        invariant
            defs.wf(),
            l <= d.layers@.len(),
            extends(start, errors@),
            errors@.len() == start.len() <==> all_ok(schemas@, done + layers_attachments(d.layers@.take(l as int), defs.entries@)),
            error_views(errors@) == error_views(start) + acc + layers_errors(schemas@, d.layers@, defs.entries@, l as nat),
            acc == list_errors(schemas@, d.extensions@, ElementKind::Description, "description/extensions"@) + core_blocks_errors(
                schemas@,
                *d,
                d.core.blocks.values().len(),
            ) + core_connections_errors(schemas@, *d, d.core.connections.values().len()) + core_groups_errors(
                schemas@,
                *d,
                d.core.groups.values().len(),
            ),
            ""@ == Seq::<char>::empty(),
        decreases d.layers@.len() - l,
    {
        let layer = &d.layers[l];
        let ghost before_layer = done + layers_attachments(d.layers@.take(l as int), defs.entries@);
        let ghost acc_layer = acc + layers_errors(schemas@, d.layers@, defs.entries@, l as nat);
        proof {
            assert(error_views(errors@) =~= error_views(start) + acc_layer + items_errors(schemas@, *layer, 0));
        }
        let select = &layer.projection.select;
        let mut k: usize = 0;
        while k < select.len()
            invariant
                *select == layer.projection.select,
                k <= select@.len(),
                extends(start, errors@),
                errors@.len() == start.len() <==> all_ok(schemas@, before_layer + items_attachments(select@.take(k as int))),
                error_views(errors@) == error_views(start) + acc_layer + items_errors(schemas@, *layer, k as nat),
                ""@ == Seq::<char>::empty(),
            decreases select@.len() - k,
        {
            let ghost before = errors@;
            match &select[k] {
                SelectItem::GenerateBlock(block) => {
                    let here = indexed(located_at("layer/", layer.name.as_str(), "/select/block").as_str(), k);
                    let prefix = named(here.as_str(), "port/");
                    check_block_extensions(block, here.as_str(), prefix.as_str(), "", schemas, errors);
                    proof {
                        assert(here@ =~= layer_place(layer.name@, "/select/block"@, k as nat));
                    }
                },
                SelectItem::GenerateConnection(c) => {
                    let here = indexed(located_at("layer/", layer.name.as_str(), "/select/connection").as_str(), k);
                    check_extension_list(&c.extensions, ElementKind::Connection, here.as_str(), schemas, errors);
                    proof {
                        assert(here@ =~= layer_place(layer.name@, "/select/connection"@, k as nat));
                    }
                },
                SelectItem::GenerateGroup(g) => {
                    let here = indexed(located_at("layer/", layer.name.as_str(), "/select/group").as_str(), k);
                    check_extension_list(&g.extensions, ElementKind::Group, here.as_str(), schemas, errors);
                    proof {
                        assert(here@ =~= layer_place(layer.name@, "/select/group"@, k as nat));
                    }
                },
                SelectItem::Use(_) => {
                    proof {
                        assert(errors@.subrange(0, errors@.len() as int) =~= errors@);
                        assert(error_views(errors@) =~= error_views(before) + item_errors(schemas@, layer.name@, select@[k as int], k as nat));
                        assert(all_ok(schemas@, item_attachments(select@[k as int]))) by {
                            assert(item_attachments(select@[k as int]) =~= Seq::<(ExtensionParameter, ElementKind)>::empty());
                        }
                    }
                },
            }
            proof {
                assert(errors@.subrange(0, start.len() as int) =~= before.subrange(0, start.len() as int));
                let t = select@.take(k + 1);
                assert(t.drop_last() =~= select@.take(k as int));
                assert(t.last() == select@[k as int]);
                let prev = before_layer + items_attachments(select@.take(k as int));
                assert(before_layer + items_attachments(t) =~= prev + item_attachments(select@[k as int]));
                lemma_all_ok_concat(schemas@, prev, item_attachments(select@[k as int]));
                assert(error_views(errors@) =~= error_views(start) + acc_layer + items_errors(schemas@, *layer, (k + 1) as nat));
            }
            k = k + 1;
        }
        proof {
            assert(select@.take(k as int) =~= select@);
            assert(error_views(errors@) =~= error_views(start) + acc_layer + items_errors(schemas@, *layer, layer.projection.select@.len())
                + decorations_errors(schemas@, *layer, defs.entries@, 0));
        }
        let ghost after_select = before_layer + items_attachments(select@);
        let decorate = &layer.projection.decorate;
        let mut k: usize = 0;
        while k < decorate.len()
            invariant
                defs.wf(),
                *decorate == layer.projection.decorate,
                k <= decorate@.len(),
                extends(start, errors@),
                errors@.len() == start.len() <==> all_ok(schemas@, after_select + decorations_attachments(decorate@.take(k as int), defs.entries@)),
                error_views(errors@) == error_views(start) + acc_layer + items_errors(schemas@, *layer, layer.projection.select@.len())
                    + decorations_errors(schemas@, *layer, defs.entries@, k as nat),
            decreases decorate@.len() - k,
        {
            let decoration = &decorate[k];
            let kind = match defs.get(&decoration.target) {
                Some(def) => def.kind,
                None => ElementKind::Block,
            };
            let here = indexed(located_at("layer/", layer.name.as_str(), "/decorate").as_str(), k);
            let ghost before = errors@;
            check_extension_parameter(&decoration.parameter, kind, here.as_str(), schemas, errors);
            proof {
                assert(errors@.subrange(0, start.len() as int) =~= before.subrange(0, start.len() as int));
                let t = decorate@.take(k + 1);
                assert(t.drop_last() =~= decorate@.take(k as int));
                assert(t.last() == *decoration);
                let one = seq![(decoration.parameter, kind)];
                let prev = after_select + decorations_attachments(decorate@.take(k as int), defs.entries@);
                assert(after_select + decorations_attachments(t, defs.entries@) =~= prev + one);
                lemma_all_ok_concat(schemas@, prev, one);
                assert(one[0] == (decoration.parameter, kind));
                assert(here@ =~= layer_place(layer.name@, "/decorate"@, k as nat));
                assert(kind == decoration_kind(defs.entries@, decoration.target@));
                assert(error_views(errors@) =~= error_views(start) + acc_layer + items_errors(schemas@, *layer, layer.projection.select@.len())
                    + decorations_errors(schemas@, *layer, defs.entries@, (k + 1) as nat));
            }
            k = k + 1;
        }
        proof {
            assert(decorate@.take(k as int) =~= decorate@);
            let t = d.layers@.take(l + 1);
            assert(t.drop_last() =~= d.layers@.take(l as int));
            assert(t.last() == *layer);
            assert(done + layers_attachments(t, defs.entries@) =~= after_select + decorations_attachments(decorate@, defs.entries@));
            assert(error_views(errors@) =~= error_views(start) + acc + layers_errors(schemas@, d.layers@, defs.entries@, (l + 1) as nat));
        }
        l = l + 1;
    }
    proof {
        assert(d.layers@.take(l as int) =~= d.layers@);
        assert(error_views(errors@) =~= error_views(start) + extension_errors_of(schemas@, *d, defs.entries@));
    }
}

} // verus!

//! Canonical text for descriptions and standalone layer documents.
use vstd::prelude::*;

use crate::address::Address;
use crate::decimal::{decimal_text, lemma_decimal_text, push_decimal};
use crate::parser::number_literal;
use crate::map::OrderedMap;
use crate::model::{Block, Connection, CoreGraph, Description, ExtensionParameter, ExtensionValue, Group, Port};
use crate::projection::{Check, Decoration, ExpectedCardinality, Layer, LayerFile, LayerInput, Projection, SchemaUse, SelectItem};
use crate::same::member_views;
use crate::serialize::{comma_joined, indentation, quoted, write_address, write_indent, write_string, SerializeError};
use crate::text::{lemma_seq_lt_asymmetric, lemma_seq_lt_transitive, owned, push_str, seq_lt, str_lt, str_eq};
use crate::value::{double_integer, FiniteNumber, Value};
use vstd::utf8::{decode_utf8, encode_utf8, valid_utf8};

verus! {

/// Rendered text, or the message of the first part that cannot be written.
pub type Rendered = Result<Seq<char>, Seq<char>>;

/// `a` followed by `b`; the first failure stands.
pub open spec fn then(a: Rendered, b: Rendered) -> Rendered {
    match a {
        Err(m) => Err(m),
        Ok(x) => match b {
            Err(m) => Err(m),
            Ok(y) => Ok(x + y),
        },
    }
}

/// The writer appended the rendered text, or failed with its message.
pub open spec fn rendered_into(before: Seq<char>, after: Seq<char>, r: Result<(), SerializeError>, t: Rendered) -> bool {
    match t {
        Ok(s) => r is Ok && after == before + s,
        Err(m) => r matches Err(e) && e.message@ == m,
    }
}

pub open spec fn number_message() -> Seq<char> {
    "only a whole finite number below 2^53 has a canonical text"@
}

pub open spec fn payload_message() -> Seq<char> {
    "opaque extension payload is not valid UTF-8"@
}

/// The text of a finite number that is a whole number below 2^53: its decimal
/// digits, after `-` when the sign bit is set (negative zero is `-0`).
pub open spec fn number_text(bits: u64) -> Rendered {
    match double_integer(bits) {
        Some((negative, n)) => Ok(
            if negative {
                "-"@ + decimal_text(n)
            } else {
                decimal_text(n)
            },
        ),
        None => Err(number_message()),
    }
}

/// The canonical text of a positive integer reads back as that positive
/// integer, and the text of a whole finite number reads back with the same
/// magnitude: a nonnegative one as the finite number zero when it is zero and
/// as a positive integer otherwise.
pub proof fn integer_text_reads_back(n: u64)
    ensures
        value_text(Value::PositiveInteger(n)) == Ok::<Seq<char>, Seq<char>>(decimal_text(n as nat)),
        number_literal(decimal_text(n as nat)) == (if n == 0 {
            Some((true, 0nat))
        } else {
            Some((false, n as nat))
        }),
        forall|x: FiniteNumber|
            #![trigger value_text(Value::Number(x))]
            double_integer(x.spec_bits()) == Some((false, n as nat)) ==> value_text(Value::Number(x))
                == Ok::<Seq<char>, Seq<char>>(decimal_text(n as nat)),
{
    lemma_decimal_text(n as nat);
}

/// `, ` before every item but the first.
pub open spec fn separator(count: nat) -> Seq<char> {
    if count > 1 {
        ", "@
    } else {
        Seq::empty()
    }
}

/// The canonical text of a value.
pub open spec fn value_text(v: Value) -> Rendered
    decreases v, 1int,
{
    match v {
        Value::Bool(b) => Ok(
            if b {
                "true"@
            } else {
                "false"@
            },
        ),
        Value::PositiveInteger(n) => Ok(decimal_text(n as nat)),
        Value::Number(x) => number_text(x.spec_bits()),
        Value::Text(s) => Ok(quoted(s@)),
        Value::Enum(s) => Ok(s@),
        Value::Product(fields) => then(then(Ok("{"@), fields_text(fields@)), Ok("}"@)),
        Value::Sequence(items) => then(then(Ok("["@), items_text(items@)), Ok("]"@)),
        Value::AddressReference(a) => Ok("ref("@ + a@ + ")"@),
        Value::Absent => Ok("absent"@),
        Value::Present(inner) => then(then(Ok("present("@), value_text(*inner)), Ok(")"@)),
        Value::Tagged { tag, value } => then(then(Ok(tag@ + "("@), value_text(*value)), Ok(")"@)),
    }
}

/// `name: value` for each field, separated by `, `.
pub open spec fn fields_text(fields: Seq<(String, Value)>) -> Rendered
    decreases fields, 0int,
{
    if fields.len() == 0 {
        Ok(Seq::empty())
    } else {
        then(
            fields_text(fields.drop_last()),
            then(Ok(separator(fields.len()) + fields.last().0@ + ": "@), value_text(fields.last().1)),
        )
    }
}

/// The items, separated by `, `.
pub open spec fn items_text(items: Seq<Value>) -> Rendered
    decreases items, 0int,
{
    if items.len() == 0 {
        Ok(Seq::empty())
    } else {
        then(items_text(items.drop_last()), then(Ok(separator(items.len())), value_text(items.last())))
    }
}

/// A known parameter is written field by field; an opaque one is its source
/// text again.
#[verifier::opaque]
pub open spec fn parameter_text(p: ExtensionParameter) -> Rendered {
    match p.value {
        ExtensionValue::Known(v) => then(
            then(
                Ok(
                    "extension "@ + quoted(p.namespace@) + " "@ + p.name@ + " schema "@ + p.schema@ + " @"@
                        + p.version.text() + " = "@,
                ),
                value_text(v),
            ),
            Ok(";"@),
        ),
        ExtensionValue::Opaque(bytes) => if valid_utf8(bytes@) {
            Ok(decode_utf8(bytes@))
        } else {
            Err(payload_message())
        },
    }
}

/// `std::str::from_utf8`: the bytes as text exactly when they are valid
/// UTF-8, the text then encoding to those same bytes.
#[verifier::external_body]
fn utf8_text(bytes: &[u8]) -> (r: Option<&str>)
    ensures
        r is Some <==> valid_utf8(bytes@),
        r matches Some(s) ==> encode_utf8(s@) == bytes@,
{
    std::str::from_utf8(bytes).ok()
}

fn fail(message: &str) -> (r: Result<(), SerializeError>)
    ensures
        r matches Err(e) && e.message@ == message@,
{
    Err(SerializeError { message: owned(message) })
}

fn write_number(output: &mut String, x: FiniteNumber) -> (r: Result<(), SerializeError>)
    ensures
        rendered_into(old(output)@, final(output)@, r, number_text(x.spec_bits())),
{
    match x.integer_value() {
        Some((negative, n)) => {
            let ghost start = output@;
            if negative {
                push_str(output, "-");
            }
            push_decimal(output, n);
            proof {
                if negative {
                    assert(output@ =~= start + ("-"@ + decimal_text(n as nat)));
                }
            }
            Ok(())
        },
        None => fail("only a whole finite number below 2^53 has a canonical text"),
    }
}

/// Appends the canonical text of a value.
pub fn write_value(output: &mut String, value: &Value) -> (r: Result<(), SerializeError>)
    ensures
        rendered_into(old(output)@, final(output)@, r, value_text(*value)),
    decreases value,
{
    match value {
        Value::Bool(b) => {
            if *b {
                push_str(output, "true");
            } else {
                push_str(output, "false");
            }
            Ok(())
        },
        Value::PositiveInteger(n) => {
            push_decimal(output, *n);
            Ok(())
        },
        Value::Number(x) => write_number(output, *x),
        Value::Text(s) => {
            write_string(output, s.as_str());
            Ok(())
        },
        Value::Enum(s) => {
            push_str(output, s.as_str());
            Ok(())
        },
        Value::Product(fields) => {
            let ghost start = output@;
            push_str(output, "{");
            let mut i: usize = 0;
            proof {
                assert(fields@.take(0) =~= Seq::<(String, Value)>::empty());
            }
            while i < fields.len()
                invariant
                    *value == Value::Product(*fields),
                    i <= fields@.len(),
                    fields_text(fields@.take(i as int)) is Ok,
                    output@ == start + "{"@ + fields_text(fields@.take(i as int))->Ok_0,
                decreases fields@.len() - i,
            {
                proof {
                    assert(fields@.take(i + 1).drop_last() =~= fields@.take(i as int));
                    assert(fields@.take(i + 1).last() == fields@[i as int]);
                }
                if i > 0 {
                    push_str(output, ", ");
                }
                push_str(output, fields[i].0.as_str());
                push_str(output, ": ");
                let ghost mid = output@;
                let inner = write_value(output, &fields[i].1);
                if inner.is_err() {
                    proof {
                        lemma_fields_failed(fields@, i as int);
                    }
                    return inner;
                }
                proof {
                    assert(output@ =~= start + "{"@ + fields_text(fields@.take(i + 1))->Ok_0);
                }
                i = i + 1;
            }
            push_str(output, "}");
            proof {
                assert(fields@.take(fields@.len() as int) =~= fields@);
                assert(output@ =~= start + value_text(*value)->Ok_0);
            }
            Ok(())
        },
        Value::Sequence(items) => {
            let ghost start = output@;
            push_str(output, "[");
            let mut i: usize = 0;
            proof {
                assert(items@.take(0) =~= Seq::<Value>::empty());
            }
            while i < items.len()
                invariant
                    *value == Value::Sequence(*items),
                    i <= items@.len(),
                    items_text(items@.take(i as int)) is Ok,
                    output@ == start + "["@ + items_text(items@.take(i as int))->Ok_0,
                decreases items@.len() - i,
            {
                proof {
                    assert(items@.take(i + 1).drop_last() =~= items@.take(i as int));
                    assert(items@.take(i + 1).last() == items@[i as int]);
                }
                if i > 0 {
                    push_str(output, ", ");
                }
                let inner = write_value(output, &items[i]);
                if inner.is_err() {
                    proof {
                        lemma_items_failed(items@, i as int);
                    }
                    return inner;
                }
                proof {
                    assert(output@ =~= start + "["@ + items_text(items@.take(i + 1))->Ok_0);
                }
                i = i + 1;
            }
            push_str(output, "]");
            proof {
                assert(items@.take(items@.len() as int) =~= items@);
                assert(output@ =~= start + value_text(*value)->Ok_0);
            }
            Ok(())
        },
        Value::AddressReference(a) => {
            push_str(output, "ref(");
            write_address(output, a);
            push_str(output, ")");
            proof {
                assert(final(output)@ =~= old(output)@ + value_text(*value)->Ok_0);
            }
            Ok(())
        },
        Value::Absent => {
            push_str(output, "absent");
            Ok(())
        },
        Value::Present(inner) => {
            push_str(output, "present(");
            write_value(output, inner)?;
            push_str(output, ")");
            proof {
                assert(final(output)@ =~= old(output)@ + value_text(*value)->Ok_0);
            }
            Ok(())
        },
        Value::Tagged { tag, value: inner } => {
            push_str(output, tag.as_str());
            push_str(output, "(");
            write_value(output, inner)?;
            push_str(output, ")");
            proof {
                assert(final(output)@ =~= old(output)@ + value_text(*value)->Ok_0);
            }
            Ok(())
        },
    }
}

/// Once a field fails, the fields fail with its message.
proof fn lemma_fields_failed(fields: Seq<(String, Value)>, i: int)
    requires
        0 <= i < fields.len(),
        fields_text(fields.take(i)) is Ok,
        value_text(fields[i].1) is Err,
    ensures
        fields_text(fields) == value_text(fields[i].1),
    decreases fields.len(),
{
    assert(fields.take(i + 1).drop_last() =~= fields.take(i));
    if i + 1 == fields.len() {
        assert(fields.take(i + 1) =~= fields);
    } else {
        assert(fields.drop_last().take(i) =~= fields.take(i));
        lemma_fields_failed(fields.drop_last(), i);
    }
}

proof fn lemma_items_failed(items: Seq<Value>, i: int)
    requires
        0 <= i < items.len(),
        items_text(items.take(i)) is Ok,
        value_text(items[i]) is Err,
    ensures
        items_text(items) == value_text(items[i]),
    decreases items.len(),
{
    assert(items.take(i + 1).drop_last() =~= items.take(i));
    if i + 1 == items.len() {
        assert(items.take(i + 1) =~= items);
    } else {
        assert(items.drop_last().take(i) =~= items.take(i));
        lemma_items_failed(items.drop_last(), i);
    }
}

/// Appends the canonical text of an extension parameter.
pub fn write_extension_parameter(output: &mut String, extension: &ExtensionParameter) -> (r: Result<(), SerializeError>)
    ensures
        rendered_into(old(output)@, final(output)@, r, parameter_text(*extension)),
{
    proof {
        reveal(parameter_text);
    }
    match &extension.value {
        ExtensionValue::Known(value) => {
            push_str(output, "extension ");
            write_string(output, extension.namespace.as_str());
            push_str(output, " ");
            push_str(output, extension.name.as_str());
            push_str(output, " schema ");
            push_str(output, extension.schema.as_str());
            push_str(output, " @");
            extension.version.write_to(output);
            push_str(output, " = ");
            write_value(output, value)?;
            push_str(output, ";");
            proof {
                assert(final(output)@ =~= old(output)@ + parameter_text(*extension)->Ok_0);
            }
            Ok(())
        },
        ExtensionValue::Opaque(bytes) => match utf8_text(bytes.as_slice()) {
            Some(text) => {
                proof {
                    vstd::utf8::encode_utf8_decode_utf8(text@);
                }
                push_str(output, text);
                Ok(())
            },
            None => fail("opaque extension payload is not valid UTF-8"),
        },
    }
}

/// The texts of `items` one after another.
pub open spec fn joined<A>(items: Seq<A>, f: spec_fn(A) -> Rendered) -> Rendered
    decreases items.len(),
{
    if items.len() == 0 {
        Ok(Seq::empty())
    } else {
        then(joined(items.drop_last(), f), f(items.last()))
    }
}

/// Once an item fails, the whole list fails with its message.
pub proof fn lemma_joined_failed<A>(items: Seq<A>, f: spec_fn(A) -> Rendered, i: int)
    requires
        0 <= i < items.len(),
        joined(items.take(i), f) is Ok,
        f(items[i]) is Err,
    ensures
        joined(items, f) == f(items[i]),
    decreases items.len(),
{
    assert(items.take(i + 1).drop_last() =~= items.take(i));
    if i + 1 == items.len() {
        assert(items.take(i + 1) =~= items);
    } else {
        assert(items.drop_last().take(i) =~= items.take(i));
        lemma_joined_failed(items.drop_last(), f, i);
    }
}

/// One more item on a list that rendered so far.
pub proof fn lemma_joined_step<A>(items: Seq<A>, f: spec_fn(A) -> Rendered, i: int)
    requires
        0 <= i < items.len(),
    ensures
        joined(items.take(i + 1), f) == then(joined(items.take(i), f), f(items[i])),
{
    assert(items.take(i + 1).drop_last() =~= items.take(i));
}

/// One parameter per line.
pub open spec fn parameter_line(indent: nat) -> spec_fn(ExtensionParameter) -> Rendered {
    |p: ExtensionParameter| then(then(Ok(indentation(indent)), parameter_text(p)), Ok("\n"@))
}

/// An `extensions` block, or nothing when there are none.
#[verifier::opaque]
pub open spec fn extensions_text(exts: Seq<ExtensionParameter>, indent: nat) -> Rendered {
    if exts.len() == 0 {
        Ok(Seq::empty())
    } else {
        then(
            then(Ok(indentation(indent) + "extensions {\n"@), joined(exts, parameter_line(indent + 1))),
            Ok(indentation(indent) + "}\n"@),
        )
    }
}

/// ` "label"`, or nothing.
pub open spec fn label_text(label: Option<String>) -> Seq<char> {
    match label {
        Some(l) => " "@ + quoted(l@),
        None => Seq::empty(),
    }
}

/// A port or connection line: closed at once without extensions, else
/// after its `extensions` block.
pub open spec fn element_line(head: Seq<char>, exts: Seq<ExtensionParameter>, indent: nat) -> Rendered {
    if exts.len() == 0 {
        Ok(head + ";\n"@)
    } else {
        then(then(Ok(head + "\n"@), extensions_text(exts, indent + 1)), Ok(indentation(indent) + ";\n"@))
    }
}

#[verifier::opaque]
pub open spec fn port_text(p: Port, indent: nat) -> Rendered {
    element_line(indentation(indent) + "port "@ + p.address@ + label_text(p.label), p.extensions@, indent)
}

#[verifier::opaque]
pub open spec fn connection_text(c: Connection, indent: nat) -> Rendered {
    element_line(
        indentation(indent) + "connection "@ + c.address@ + " "@ + c.source@ + " -> "@ + c.destination@,
        c.extensions@,
        indent,
    )
}

pub open spec fn port_line(indent: nat) -> spec_fn(Port) -> Rendered {
    |p: Port| port_text(p, indent)
}

pub open spec fn block_line(indent: nat) -> spec_fn(Block) -> Rendered {
    |b: Block| block_text(b, indent)
}

pub open spec fn connection_line(indent: nat) -> spec_fn(Connection) -> Rendered {
    |c: Connection| connection_text(c, indent)
}

pub open spec fn group_line(indent: nat) -> spec_fn(Group) -> Rendered {
    |g: Group| group_text(g, indent)
}

#[verifier::opaque]
pub open spec fn block_text(b: Block, indent: nat) -> Rendered {
    then(
        then(
            then(
                Ok(indentation(indent) + "block "@ + b.address@ + " "@ + quoted(b.name@) + " {\n"@),
                joined(b.ports.values(), port_line(indent + 1)),
            ),
            extensions_text(b.extensions@, indent + 1),
        ),
        Ok(indentation(indent) + "}\n"@),
    )
}

/// The members of a group on one line, or nothing without members.
pub open spec fn members_text(members: Seq<Address>, indent: nat) -> Seq<char> {
    if members.len() == 0 {
        Seq::empty()
    } else {
        indentation(indent) + comma_joined(member_views(members)) + ";\n"@
    }
}

#[verifier::opaque]
pub open spec fn group_text(g: Group, indent: nat) -> Rendered {
    then(
        then(
            Ok(
                indentation(indent) + "group "@ + g.address@ + label_text(g.label) + " {\n"@ + members_text(
                    g.members@,
                    indent + 1,
                ),
            ),
            extensions_text(g.extensions@, indent + 1),
        ),
        Ok(indentation(indent) + "}\n"@),
    )
}

#[verifier::opaque]
pub open spec fn core_text(core: CoreGraph, indent: nat) -> Rendered {
    then(
        then(
            then(
                then(
                    Ok(indentation(indent) + "core {\n"@),
                    joined(core.blocks.values(), block_line(indent + 1)),
                ),
                joined(core.connections.values(), connection_line(indent + 1)),
            ),
            joined(core.groups.values(), group_line(indent + 1)),
        ),
        Ok(indentation(indent) + "}\n"@),
    )
}

fn write_extension_lines(output: &mut String, exts: &Vec<ExtensionParameter>, indent: usize) -> (r: Result<(), SerializeError>)
    ensures
        rendered_into(old(output)@, final(output)@, r, joined(exts@, parameter_line(indent as nat))),
{
    let ghost start = output@;
    let ghost f = parameter_line(indent as nat);
    let mut i: usize = 0;
    proof {
        assert(exts@.take(0) =~= Seq::<ExtensionParameter>::empty());
    }
    while i < exts.len()
        invariant
            f == parameter_line(indent as nat),
            start == old(output)@,
            i <= exts@.len(),
            joined(exts@.take(i as int), f) is Ok,
            output@ == start + joined(exts@.take(i as int), f)->Ok_0,
        decreases exts@.len() - i,
    {
        proof {
            lemma_joined_step(exts@, f, i as int);
        }
        write_indent(output, indent);
        let w = write_extension_parameter(output, &exts[i]);
        if w.is_err() {
            proof {
                lemma_joined_failed(exts@, f, i as int);
            }
            return w;
        }
        push_str(output, "\n");
        proof {
            assert(output@ =~= start + joined(exts@.take(i + 1), f)->Ok_0);
        }
        i = i + 1;
    }
    proof {
        assert(exts@.take(exts@.len() as int) =~= exts@);
    }
    Ok(())
}

/// Appends an `extensions` block when there are extensions.
pub fn write_extensions(output: &mut String, exts: &Vec<ExtensionParameter>, indent: usize) -> (r: Result<(), SerializeError>)
    requires
        indent < 64,
    ensures
        rendered_into(old(output)@, final(output)@, r, extensions_text(exts@, indent as nat)),
{
    proof {
        reveal(extensions_text);
    }
    if exts.len() == 0 {
        proof {
            assert(final(output)@ =~= old(output)@ + Seq::<char>::empty());
        }
        return Ok(());
    }
    write_indent(output, indent);
    push_str(output, "extensions {\n");
    write_extension_lines(output, exts, indent + 1)?;
    write_indent(output, indent);
    push_str(output, "}\n");
    proof {
        assert(final(output)@ =~= old(output)@ + extensions_text(exts@, indent as nat)->Ok_0);
    }
    Ok(())
}

fn write_label(output: &mut String, label: &Option<String>)
    ensures
        final(output)@ == old(output)@ + label_text(*label),
{
    if let Some(l) = label {
        push_str(output, " ");
        write_string(output, l.as_str());
        proof {
            assert(final(output)@ =~= old(output)@ + label_text(*label));
        }
    } else {
        proof {
            assert(final(output)@ =~= old(output)@ + label_text(*label));
        }
    }
}

fn write_element_end(output: &mut String, exts: &Vec<ExtensionParameter>, indent: usize, Ghost(head): Ghost<Seq<char>>) -> (r: Result<(), SerializeError>)
    requires
        indent < 63,
        old(output)@.len() >= head.len(),
        old(output)@.subrange(old(output)@.len() - head.len(), old(output)@.len() as int) == head,
    ensures
        rendered_into(
            old(output)@.subrange(0, old(output)@.len() - head.len()),
            final(output)@,
            r,
            element_line(head, exts@, indent as nat),
        ),
{
    let ghost before = old(output)@.subrange(0, old(output)@.len() - head.len());
    proof {
        assert(old(output)@ =~= before + head);
    }
    if exts.len() == 0 {
        push_str(output, ";\n");
        proof {
            assert(final(output)@ =~= before + element_line(head, exts@, indent as nat)->Ok_0);
        }
        return Ok(());
    }
    push_str(output, "\n");
    write_extensions(output, exts, indent + 1)?;
    write_indent(output, indent);
    push_str(output, ";\n");
    proof {
        assert(final(output)@ =~= before + element_line(head, exts@, indent as nat)->Ok_0);
    }
    Ok(())
}

pub fn write_port(output: &mut String, port: &Port, indent: usize) -> (r: Result<(), SerializeError>)
    requires
        indent < 63,
    ensures
        rendered_into(old(output)@, final(output)@, r, port_text(*port, indent as nat)),
{
    proof {
        reveal(port_text);
    }
    let ghost start = output@;
    write_indent(output, indent);
    push_str(output, "port ");
    write_address(output, &port.address);
    write_label(output, &port.label);
    let ghost head = indentation(indent as nat) + "port "@ + port.address@ + label_text(port.label);
    proof {
        assert(output@ =~= start + head);
        assert(output@.subrange(0, output@.len() - head.len()) =~= start);
        assert(output@.subrange(output@.len() - head.len(), output@.len() as int) =~= head);
    }
    write_element_end(output, &port.extensions, indent, Ghost(head))
}

pub fn write_connection(output: &mut String, connection: &Connection, indent: usize) -> (r: Result<(), SerializeError>)
    requires
        indent < 63,
    ensures
        rendered_into(old(output)@, final(output)@, r, connection_text(*connection, indent as nat)),
{
    proof {
        reveal(connection_text);
    }
    let ghost start = output@;
    write_indent(output, indent);
    push_str(output, "connection ");
    write_address(output, &connection.address);
    push_str(output, " ");
    write_address(output, &connection.source);
    push_str(output, " -> ");
    write_address(output, &connection.destination);
    let ghost head = indentation(indent as nat) + "connection "@ + connection.address@ + " "@ + connection.source@
        + " -> "@ + connection.destination@;
    proof {
        assert(output@ =~= start + head);
        assert(output@.subrange(0, output@.len() - head.len()) =~= start);
        assert(output@.subrange(output@.len() - head.len(), output@.len() as int) =~= head);
    }
    write_element_end(output, &connection.extensions, indent, Ghost(head))
}

fn write_ports(output: &mut String, ports: &OrderedMap<Address, Port>, indent: usize) -> (r: Result<(), SerializeError>)
    requires
        indent < 63,
    ensures
        rendered_into(old(output)@, final(output)@, r, joined(ports.values(), port_line(indent as nat))),
{
    let ghost start = output@;
    let ghost f = port_line(indent as nat);
    let ghost items = ports.values();
    let mut i: usize = 0;
    proof {
        assert(items.take(0) =~= Seq::<Port>::empty());
    }
    while i < ports.len()
        invariant
            indent < 63,
            start == old(output)@,
            f == port_line(indent as nat),
            items == ports.values(),
            i <= items.len(),
            joined(items.take(i as int), f) is Ok,
            output@ == start + joined(items.take(i as int), f)->Ok_0,
        decreases items.len() - i,
    {
        proof {
            lemma_joined_step(items, f, i as int);
        }
        let w = write_port(output, ports.value_at(i), indent);
        if w.is_err() {
            proof {
                lemma_joined_failed(items, f, i as int);
            }
            return w;
        }
        proof {
            assert(output@ =~= start + joined(items.take(i + 1), f)->Ok_0);
        }
        i = i + 1;
    }
    proof {
        assert(items.take(items.len() as int) =~= items);
    }
    Ok(())
}

#[verifier::rlimit(40)]
pub fn write_block(output: &mut String, block: &Block, indent: usize) -> (r: Result<(), SerializeError>)
    requires
        indent < 62,
    ensures
        rendered_into(old(output)@, final(output)@, r, block_text(*block, indent as nat)),
{
    proof {
        reveal(block_text);
    }
    let ghost start = output@;
    let ghost n = indent as nat;
    let ghost head = indentation(n) + "block "@ + block.address@ + " "@ + quoted(block.name@) + " {\n"@;
    let ghost ports = joined(block.ports.values(), port_line(n + 1));
    let ghost exts = extensions_text(block.extensions@, n + 1);
    let ghost tail = indentation(n) + "}\n"@;
    assert(block_text(*block, n) == then(then(then(Ok(head), ports), exts), Ok(tail)));
    write_indent(output, indent);
    push_str(output, "block ");
    write_address(output, &block.address);
    push_str(output, " ");
    write_string(output, block.name.as_str());
    push_str(output, " {\n");
    proof {
        assert(output@ =~= start + head);
    }
    write_ports(output, &block.ports, indent + 1)?;
    write_extensions(output, &block.extensions, indent + 1)?;
    write_indent(output, indent);
    push_str(output, "}\n");
    proof {
        assert(final(output)@ =~= start + (head + ports->Ok_0 + exts->Ok_0 + tail));
    }
    Ok(())
}

fn write_address_list(output: &mut String, addresses: &Vec<Address>)
    ensures
        final(output)@ == old(output)@ + comma_joined(member_views(addresses@)),
{
    let ghost start = output@;
    let mut i: usize = 0;
    while i < addresses.len()
        invariant
            start == old(output)@,
            i <= addresses@.len(),
            output@ == start + comma_joined(member_views(addresses@).take(i as int)),
        decreases addresses@.len() - i,
    {
        if i > 0 {
            push_str(output, ", ");
        }
        write_address(output, &addresses[i]);
        proof {
            let p = member_views(addresses@).take(i as int);
            assert(member_views(addresses@).take(i + 1) =~= p.push(addresses@[i as int]@));
            assert(p.push(addresses@[i as int]@).drop_last() =~= p);
            if i == 0 {
                assert(p =~= Seq::<Seq<char>>::empty());
            }
            assert(output@ =~= start + comma_joined(member_views(addresses@).take(i + 1)));
        }
        i = i + 1;
    }
    proof {
        assert(member_views(addresses@).take(i as int) =~= member_views(addresses@));
    }
}

pub fn write_group(output: &mut String, group: &Group, indent: usize) -> (r: Result<(), SerializeError>)
    requires
        indent < 62,
    ensures
        rendered_into(old(output)@, final(output)@, r, group_text(*group, indent as nat)),
{
    proof {
        reveal(group_text);
    }
    let ghost start = output@;
    write_indent(output, indent);
    push_str(output, "group ");
    write_address(output, &group.address);
    write_label(output, &group.label);
    push_str(output, " {\n");
    if group.members.len() > 0 {
        write_indent(output, indent + 1);
        write_address_list(output, &group.members);
        push_str(output, ";\n");
    }
    proof {
        assert(output@ =~= start + indentation(indent as nat) + "group "@ + group.address@ + label_text(group.label)
            + " {\n"@ + members_text(group.members@, (indent + 1) as nat));
    }
    write_extensions(output, &group.extensions, indent + 1)?;
    write_indent(output, indent);
    push_str(output, "}\n");
    proof {
        assert(final(output)@ =~= start + group_text(*group, indent as nat)->Ok_0);
    }
    Ok(())
}

fn write_blocks(output: &mut String, items_map: &OrderedMap<Address, Block>, indent: usize) -> (r: Result<(), SerializeError>)
    requires
        indent < 62,
    ensures
        rendered_into(old(output)@, final(output)@, r, joined(items_map.values(), block_line(indent as nat))),
{
    let ghost start = output@;
    let ghost f = block_line(indent as nat);
    let ghost items = items_map.values();
    let mut i: usize = 0;
    proof {
        assert(items.take(0) =~= Seq::<Block>::empty());
    }
    while i < items_map.len()
        invariant
            indent < 62,
            start == old(output)@,
            f == block_line(indent as nat),
            items == items_map.values(),
            i <= items.len(),
            joined(items.take(i as int), f) is Ok,
            output@ == start + joined(items.take(i as int), f)->Ok_0,
        decreases items.len() - i,
    {
        proof {
            lemma_joined_step(items, f, i as int);
        }
        let w = write_block(output, items_map.value_at(i), indent);
        if w.is_err() {
            proof {
                lemma_joined_failed(items, f, i as int);
            }
            return w;
        }
        proof {
            assert(output@ =~= start + joined(items.take(i + 1), f)->Ok_0);
        }
        i = i + 1;
    }
    proof {
        assert(items.take(items.len() as int) =~= items);
    }
    Ok(())
}

fn write_connections(output: &mut String, items_map: &OrderedMap<Address, Connection>, indent: usize) -> (r: Result<(), SerializeError>)
    requires
        indent < 62,
    ensures
        rendered_into(old(output)@, final(output)@, r, joined(items_map.values(), connection_line(indent as nat))),
{
    let ghost start = output@;
    let ghost f = connection_line(indent as nat);
    let ghost items = items_map.values();
    let mut i: usize = 0;
    proof {
        assert(items.take(0) =~= Seq::<Connection>::empty());
    }
    while i < items_map.len()
        invariant
            indent < 62,
            start == old(output)@,
            f == connection_line(indent as nat),
            items == items_map.values(),
            i <= items.len(),
            joined(items.take(i as int), f) is Ok,
            output@ == start + joined(items.take(i as int), f)->Ok_0,
        decreases items.len() - i,
    {
        proof {
            lemma_joined_step(items, f, i as int);
        }
        let w = write_connection(output, items_map.value_at(i), indent);
        if w.is_err() {
            proof {
                lemma_joined_failed(items, f, i as int);
            }
            return w;
        }
        proof {
            assert(output@ =~= start + joined(items.take(i + 1), f)->Ok_0);
        }
        i = i + 1;
    }
    proof {
        assert(items.take(items.len() as int) =~= items);
    }
    Ok(())
}

fn write_groups(output: &mut String, items_map: &OrderedMap<Address, Group>, indent: usize) -> (r: Result<(), SerializeError>)
    requires
        indent < 62,
    ensures
        rendered_into(old(output)@, final(output)@, r, joined(items_map.values(), group_line(indent as nat))),
{
    let ghost start = output@;
    let ghost f = group_line(indent as nat);
    let ghost items = items_map.values();
    let mut i: usize = 0;
    proof {
        assert(items.take(0) =~= Seq::<Group>::empty());
    }
    while i < items_map.len()
        invariant
            indent < 62,
            start == old(output)@,
            f == group_line(indent as nat),
            items == items_map.values(),
            i <= items.len(),
            joined(items.take(i as int), f) is Ok,
            output@ == start + joined(items.take(i as int), f)->Ok_0,
        decreases items.len() - i,
    {
        proof {
            lemma_joined_step(items, f, i as int);
        }
        let w = write_group(output, items_map.value_at(i), indent);
        if w.is_err() {
            proof {
                lemma_joined_failed(items, f, i as int);
            }
            return w;
        }
        proof {
            assert(output@ =~= start + joined(items.take(i + 1), f)->Ok_0);
        }
        i = i + 1;
    }
    proof {
        assert(items.take(items.len() as int) =~= items);
    }
    Ok(())
}

/// Appends the `core` block: blocks, then connections, then groups, each in
/// address order.
#[verifier::rlimit(40)]
pub fn write_core(output: &mut String, core: &CoreGraph, indent: usize) -> (r: Result<(), SerializeError>)
    requires
        indent < 61,
    ensures
        rendered_into(old(output)@, final(output)@, r, core_text(*core, indent as nat)),
{
    proof {
        reveal(core_text);
    }
    let ghost start = output@;
    let ghost n = indent as nat;
    let ghost blocks = joined(core.blocks.values(), block_line(n + 1));
    let ghost connections = joined(core.connections.values(), connection_line(n + 1));
    let ghost groups = joined(core.groups.values(), group_line(n + 1));
    let ghost head = indentation(n) + "core {\n"@;
    let ghost tail = indentation(n) + "}\n"@;
    assert(core_text(*core, n) == then(then(then(then(Ok(head), blocks), connections), groups), Ok(tail)));
    write_indent(output, indent);
    push_str(output, "core {\n");
    write_blocks(output, &core.blocks, indent + 1)?;
    write_connections(output, &core.connections, indent + 1)?;
    write_groups(output, &core.groups, indent + 1)?;
    write_indent(output, indent);
    push_str(output, "}\n");
    proof {
        assert(final(output)@ =~= start + (head + blocks->Ok_0 + connections->Ok_0 + groups->Ok_0 + tail));
    }
    Ok(())
}

/// Positions in stable insertion order: `i` goes before the first of
/// `order` that it comes before, after all the others.
pub open spec fn insert_by(order: Seq<int>, i: int, before: spec_fn(int, int) -> bool) -> Seq<int>
    decreases order.len(),
{
    if order.len() == 0 {
        seq![i]
    } else if before(i, order[0]) {
        seq![i] + order
    } else {
        seq![order[0]] + insert_by(order.drop_first(), i, before)
    }
}

/// The positions `0..n`, stably sorted by `before`.
pub open spec fn sorted_by(n: nat, before: spec_fn(int, int) -> bool) -> Seq<int>
    decreases n,
{
    if n == 0 {
        Seq::empty()
    } else {
        insert_by(sorted_by((n - 1) as nat, before), n - 1, before)
    }
}

proof fn lemma_insert_by(order: Seq<int>, i: int, before: spec_fn(int, int) -> bool, p: int)
    requires
        0 <= p <= order.len(),
        forall|k: int| 0 <= k < p ==> !before(i, #[trigger] order[k]),
        p < order.len() ==> before(i, order[p]),
    ensures
        insert_by(order, i, before) == order.insert(p, i),
    decreases order.len(),
{
    if order.len() == 0 {
        assert(order.insert(p, i) =~= seq![i]);
    } else if p == 0 {
        assert(order.insert(p, i) =~= seq![i] + order);
    } else {
        assert(!before(i, order[0]));
        let rest = order.drop_first();
        assert forall|k: int| 0 <= k < p - 1 implies !before(i, #[trigger] rest[k]) by {
            assert(rest[k] == order[k + 1]);
        }
        if p - 1 < rest.len() {
            assert(rest[p - 1] == order[p]);
        }
        lemma_insert_by(rest, i, before, p - 1);
        assert(order.insert(p, i) =~= seq![order[0]] + rest.insert(p - 1, i));
    }
}

/// `before` is a strict order on positions.
pub open spec fn strict_order(before: spec_fn(int, int) -> bool) -> bool {
    &&& forall|a: int, b: int| #[trigger] before(a, b) ==> !before(b, a)
    &&& forall|a: int, b: int, c: int| #[trigger] before(a, b) && #[trigger] before(b, c) ==> before(a, c)
}

/// No position comes after one that it goes before.
pub open spec fn ordered_by(order: Seq<int>, before: spec_fn(int, int) -> bool) -> bool {
    forall|i: int, j: int| 0 <= i < j < order.len() ==> !before(#[trigger] order[j], #[trigger] order[i])
}

proof fn lemma_insert_by_ordered(order: Seq<int>, i: int, before: spec_fn(int, int) -> bool)
    requires
        strict_order(before),
        ordered_by(order, before),
    ensures
        insert_by(order, i, before).len() == order.len() + 1,
        insert_by(order, i, before).to_multiset() == order.to_multiset().insert(i),
        ordered_by(insert_by(order, i, before), before),
    decreases order.len(),
{
    broadcast use vstd::seq_lib::group_to_multiset_ensures, vstd::multiset::group_multiset_axioms;

    let r = insert_by(order, i, before);
    if order.len() == 0 {
        assert(r =~= seq![i]);
        assert(seq![i] =~= Seq::<int>::empty().push(i));
        assert(order =~= Seq::<int>::empty());
    } else if before(i, order[0]) {
        assert(r =~= seq![i] + order);
        vstd::seq_lib::lemma_multiset_commutative(seq![i], order);
        assert(seq![i] =~= Seq::<int>::empty().push(i));
        assert forall|a: int, b: int| 0 <= a < b < r.len() implies !before(#[trigger] r[b], #[trigger] r[a]) by {
            if a == 0 {
                assert(r[b] == order[b - 1]);
                if before(order[b - 1], i) {
                    if b - 1 > 0 {
                        assert(before(order[b - 1], order[0]));
                    }
                }
            } else {
                assert(r[a] == order[a - 1] && r[b] == order[b - 1]);
            }
        }
    } else {
        let rest = order.drop_first();
        assert forall|a: int, b: int| 0 <= a < b < rest.len() implies !before(#[trigger] rest[b], #[trigger] rest[a]) by {
            assert(rest[a] == order[a + 1] && rest[b] == order[b + 1]);
        }
        lemma_insert_by_ordered(rest, i, before);
        let t = insert_by(rest, i, before);
        assert(r =~= seq![order[0]] + t);
        vstd::seq_lib::lemma_multiset_commutative(seq![order[0]], t);
        vstd::seq_lib::lemma_multiset_commutative(seq![order[0]], rest);
        assert(seq![order[0]] + rest =~= order);
        assert(seq![order[0]] =~= Seq::<int>::empty().push(order[0]));
        assert(r.to_multiset() =~= order.to_multiset().insert(i));
        assert forall|a: int, b: int| 0 <= a < b < r.len() implies !before(#[trigger] r[b], #[trigger] r[a]) by {
            if a == 0 {
                assert(r[b] == t[b - 1]);
                assert(t.to_multiset().count(t[b - 1]) > 0);
                if t[b - 1] != i {
                    assert(rest.to_multiset().count(t[b - 1]) > 0);
                    assert(rest.contains(t[b - 1]));
                    let k = choose|k: int| 0 <= k < rest.len() && rest[k] == t[b - 1];
                    assert(order[k + 1] == t[b - 1]);
                }
            } else {
                assert(r[a] == t[a - 1] && r[b] == t[b - 1]);
            }
        }
    }
}

proof fn lemma_sorted_by_ordered(n: nat, before: spec_fn(int, int) -> bool)
    requires
        strict_order(before),
    ensures
        sorted_by(n, before).len() == n,
        forall|k: int| 0 <= k < n <==> #[trigger] sorted_by(n, before).to_multiset().count(k) > 0,
        forall|k: int| #[trigger] sorted_by(n, before).to_multiset().count(k) <= 1,
        ordered_by(sorted_by(n, before), before),
    decreases n,
{
    broadcast use vstd::seq_lib::group_to_multiset_ensures, vstd::multiset::group_multiset_axioms;

    if n == 0 {
        assert(sorted_by(n, before) =~= Seq::<int>::empty());
    } else {
        lemma_sorted_by_ordered((n - 1) as nat, before);
        lemma_insert_by_ordered(sorted_by((n - 1) as nat, before), n - 1, before);
    }
}

/// The canonical text lists the layers by name: every layer of the input is
/// there exactly as often as in the input, and no layer comes after one whose
/// name it precedes.
pub proof fn canonical_layer_order(layers: Seq<Layer>)
    ensures
        sorted_layers(layers).len() == layers.len(),
        sorted_layers(layers).to_multiset() == layers.to_multiset(),
        forall|i: int, j: int|
            0 <= i < j < layers.len() ==> !seq_lt(
                #[trigger] sorted_layers(layers)[j].name@,
                #[trigger] sorted_layers(layers)[i].name@,
            ),
{
    let before = names_before(layers);
    assert forall|a: int, b: int| #[trigger] before(a, b) implies !before(b, a) by {
        lemma_seq_lt_asymmetric(layers[a].name@, layers[b].name@);
    }
    assert forall|a: int, b: int, c: int| #[trigger] before(a, b) && #[trigger] before(b, c) implies before(a, c) by {
        lemma_seq_lt_transitive(layers[a].name@, layers[b].name@, layers[c].name@);
    }
    lemma_sorted_by_ordered(layers.len(), before);
    let order = sorted_by(layers.len(), before);
    assert forall|i: int, j: int| 0 <= i < j < layers.len() implies !seq_lt(
        #[trigger] sorted_layers(layers)[j].name@,
        #[trigger] sorted_layers(layers)[i].name@,
    ) by {
        assert(!before(order[j], order[i]));
    }
    lemma_permutation_multiset(layers, order);
}

/// Taking the items of `items` at a permutation of its positions keeps the
/// multiset of items.
proof fn lemma_permutation_multiset<A>(items: Seq<A>, order: Seq<int>)
    requires
        order.len() == items.len(),
        forall|k: int| 0 <= k < items.len() <==> #[trigger] order.to_multiset().count(k) > 0,
        forall|k: int| #[trigger] order.to_multiset().count(k) <= 1,
    ensures
        order.map_values(|k: int| items[k]).to_multiset() == items.to_multiset(),
    decreases items.len(),
{
    broadcast use vstd::seq_lib::group_to_multiset_ensures, vstd::multiset::group_multiset_axioms;

    let n = items.len();
    if n == 0 {
        assert(order.map_values(|k: int| items[k]) =~= Seq::<A>::empty());
        assert(items =~= Seq::<A>::empty());
    } else {
        let last = n - 1;
        assert(order.to_multiset().count(last) > 0);
        assert(order.contains(last));
        let p = choose|p: int| 0 <= p < order.len() && order[p] == last;
        let rest = order.remove(p);
        vstd::seq_lib::to_multiset_remove(order, p);
        let front = items.drop_last();
        assert forall|k: int| 0 <= k < front.len() <==> #[trigger] rest.to_multiset().count(k) > 0 by {
            if k != last {
                assert(rest.to_multiset().count(k) == order.to_multiset().count(k));
            }
        }
        assert forall|k: int| #[trigger] rest.to_multiset().count(k) <= 1 by {
            if k != last {
                assert(rest.to_multiset().count(k) == order.to_multiset().count(k));
            }
        }
        lemma_permutation_multiset(front, rest);
        let mapped = order.map_values(|k: int| items[k]);
        let mapped_rest = rest.map_values(|k: int| front[k]);
        assert forall|j: int| 0 <= j < rest.len() implies 0 <= #[trigger] rest[j] < front.len() by {
            assert(rest.to_multiset().count(rest[j]) > 0);
        }
        assert(mapped =~= mapped_rest.insert(p, items[last]));
        vstd::seq_lib::to_multiset_insert(mapped_rest, p, items[last]);
        assert(front.push(items[last]) =~= items);
        vstd::seq_lib::to_multiset_build(front, items[last]);
    }
}

/// The order of schema uses: by namespace, then name, then version.
pub open spec fn use_before(a: SchemaUse, b: SchemaUse) -> bool {
    seq_lt(a.namespace@, b.namespace@) || (a.namespace@ == b.namespace@ && (seq_lt(a.name@, b.name@) || (a.name@
        == b.name@ && (a.version.major_spec() < b.version.major_spec() || (a.version.major_spec()
        == b.version.major_spec() && (a.version.minor_spec() < b.version.minor_spec() || (
    a.version.minor_spec() == b.version.minor_spec() && a.version.patch_spec() < b.version.patch_spec())))))))
}

pub open spec fn uses_before(uses: Seq<SchemaUse>) -> spec_fn(int, int) -> bool {
    |i: int, j: int| use_before(uses[i], uses[j])
}

/// Layers are ordered by name.
pub open spec fn names_before(layers: Seq<Layer>) -> spec_fn(int, int) -> bool {
    |i: int, j: int| seq_lt(layers[i].name@, layers[j].name@)
}

/// The uses in canonical order.
pub open spec fn sorted_uses(uses: Seq<SchemaUse>) -> Seq<SchemaUse> {
    sorted_by(uses.len(), uses_before(uses)).map_values(|k: int| uses[k])
}

/// The layers in canonical order.
pub open spec fn sorted_layers(layers: Seq<Layer>) -> Seq<Layer> {
    sorted_by(layers.len(), names_before(layers)).map_values(|k: int| layers[k])
}

pub open spec fn positions(order: Seq<usize>) -> Seq<int> {
    order.map_values(|x: usize| x as int)
}

fn use_lt(a: &SchemaUse, b: &SchemaUse) -> (r: bool)
    ensures
        r == use_before(*a, *b),
{
    if str_lt(a.namespace.as_str(), b.namespace.as_str()) {
        return true;
    }
    if !str_eq(a.namespace.as_str(), b.namespace.as_str()) {
        return false;
    }
    if str_lt(a.name.as_str(), b.name.as_str()) {
        return true;
    }
    str_eq(a.name.as_str(), b.name.as_str()) && a.version.before(b.version)
}

/// The positions of the uses in canonical order.
fn use_order(uses: &Vec<SchemaUse>) -> (order: Vec<usize>)
    ensures
        positions(order@) == sorted_by(uses@.len(), uses_before(uses@)),
        forall|k: int| 0 <= k < order@.len() ==> order@[k] < uses@.len(),
{
    let ghost before = uses_before(uses@);
    let mut order: Vec<usize> = Vec::new();
    let mut i: usize = 0;
    proof {
        assert(positions(order@) =~= Seq::<int>::empty());
    }
    while i < uses.len()
        invariant
            before == uses_before(uses@),
            i <= uses@.len(),
            positions(order@) == sorted_by(i as nat, before),
            forall|k: int| 0 <= k < order@.len() ==> order@[k] < i,
        decreases uses@.len() - i,
    {
        let mut p: usize = 0;
        while p < order.len() && !use_lt(&uses[i], &uses[order[p]])
            invariant
                before == uses_before(uses@),
                i < uses@.len(),
                p <= order@.len(),
                forall|k: int| 0 <= k < order@.len() ==> order@[k] < i,
                forall|k: int| 0 <= k < p ==> !before(i as int, #[trigger] positions(order@)[k]),
            decreases order@.len() - p,
        {
            p = p + 1;
        }
        let ghost prior = positions(order@);
        proof {
            lemma_insert_by(prior, i as int, before, p as int);
        }
        order.insert(p, i);
        proof {
            assert(positions(order@) =~= prior.insert(p as int, i as int));
        }
        i = i + 1;
    }
    order
}

/// The positions of the layers in name order.
fn layer_order(layers: &Vec<Layer>) -> (order: Vec<usize>)
    ensures
        positions(order@) == sorted_by(layers@.len(), names_before(layers@)),
        forall|k: int| 0 <= k < order@.len() ==> order@[k] < layers@.len(),
{
    let ghost before = names_before(layers@);
    let mut order: Vec<usize> = Vec::new();
    let mut i: usize = 0;
    proof {
        assert(positions(order@) =~= Seq::<int>::empty());
    }
    while i < layers.len()
        invariant
            before == names_before(layers@),
            i <= layers@.len(),
            positions(order@) == sorted_by(i as nat, before),
            forall|k: int| 0 <= k < order@.len() ==> order@[k] < i,
        decreases layers@.len() - i,
    {
        let mut p: usize = 0;
        while p < order.len() && !str_lt(layers[i].name.as_str(), layers[order[p]].name.as_str())
            invariant
                before == names_before(layers@),
                i < layers@.len(),
                p <= order@.len(),
                forall|k: int| 0 <= k < order@.len() ==> order@[k] < i,
                forall|k: int| 0 <= k < p ==> !before(i as int, #[trigger] positions(order@)[k]),
            decreases order@.len() - p,
        {
            p = p + 1;
        }
        let ghost prior = positions(order@);
        proof {
            lemma_insert_by(prior, i as int, before, p as int);
        }
        order.insert(p, i);
        proof {
            assert(positions(order@) =~= prior.insert(p as int, i as int));
        }
        i = i + 1;
    }
    order
}

#[verifier::opaque]
pub open spec fn select_text(item: SelectItem, indent: nat) -> Rendered {
    match item {
        SelectItem::Use(addresses) => Ok(indentation(indent) + "use "@ + comma_joined(member_views(addresses@)) + ";\n"@),
        SelectItem::GenerateBlock(b) => block_text(b, indent),
        SelectItem::GenerateConnection(c) => connection_text(c, indent),
        SelectItem::GenerateGroup(g) => group_text(g, indent),
    }
}

pub open spec fn select_line(indent: nat) -> spec_fn(SelectItem) -> Rendered {
    |item: SelectItem| select_text(item, indent)
}

pub open spec fn invert_line(indent: nat) -> spec_fn(Address) -> Rendered {
    |a: Address| Ok(indentation(indent) + "group "@ + a@ + ";\n"@)
}

pub open spec fn decoration_line(indent: nat) -> spec_fn(Decoration) -> Rendered {
    |d: Decoration| then(then(Ok(indentation(indent) + "on "@ + d.target@ + " "@), parameter_text(d.parameter)), Ok("\n"@))
}

pub open spec fn cardinality_text(c: ExpectedCardinality) -> Seq<char> {
    match c {
        ExpectedCardinality::Empty => "empty"@,
        ExpectedCardinality::Nonempty => "nonempty"@,
    }
}

pub open spec fn check_line(indent: nat) -> spec_fn(Check) -> Rendered {
    |c: Check| Ok(
        indentation(indent) + "check "@ + c.name@ + " expect "@ + cardinality_text(c.expected) + " over "@ + quoted(
            c.namespace@,
        ) + " "@ + c.parameter@ + ";\n"@,
    )
}

/// A titled section of a projection, left out when it has no entries.
pub open spec fn section(present: bool, indent: nat, title: Seq<char>, body: Rendered) -> Rendered {
    if !present {
        Ok(Seq::empty())
    } else {
        then(then(Ok(indentation(indent) + title + " {\n"@), body), Ok(indentation(indent) + "}\n"@))
    }
}

/// The stages of a projection: its selection, then inversions, decorations
/// and checks when there are any.
#[verifier::opaque]
pub open spec fn projection_body(p: Projection, indent: nat) -> Rendered {
    then(
        then(
            then(
                section(true, indent, "select"@, joined(p.select@, select_line(indent + 1))),
                section(p.invert@.len() > 0, indent, "invert"@, joined(p.invert@, invert_line(indent + 1))),
            ),
            section(p.decorate@.len() > 0, indent, "decorate"@, joined(p.decorate@, decoration_line(indent + 1))),
        ),
        section(p.checks@.len() > 0, indent, "checks"@, joined(p.checks@, check_line(indent + 1))),
    )
}

#[verifier::opaque]
pub open spec fn projection_text(p: Projection, indent: nat) -> Rendered {
    then(then(Ok(indentation(indent) + "projection {\n"@), projection_body(p, indent + 1)), Ok(indentation(indent) + "}\n"@))
}

pub open spec fn input_text(input: LayerInput) -> Seq<char> {
    match input {
        LayerInput::Core => "core"@,
        LayerInput::Layer(name) => quoted(name@),
    }
}

pub open spec fn use_line(indent: nat) -> spec_fn(SchemaUse) -> Rendered {
    |u: SchemaUse| Ok(
        indentation(indent) + quoted(u.namespace@) + " / "@ + u.name@ + " @"@ + u.version.text() + ";\n"@,
    )
}

/// A layer: its inputs, what it consumes with schema uses in canonical
/// order, and its projection.
pub open spec fn layer_open(layer: Layer, indent: nat) -> Seq<char> {
    indentation(indent) + "layer "@ + quoted(layer.name@) + " {\n"@
}

pub open spec fn inputs_line(layer: Layer, indent: nat) -> Seq<char> {
    indentation(indent) + "inputs { "@ + comma_joined(layer.inputs@.map_values(|i: LayerInput| input_text(i)))
        + " };\n"@
}

pub open spec fn consumes_open(layer: Layer, indent: nat) -> Seq<char> {
    indentation(indent) + "consumes {\n"@ + indentation(indent + 1) + "projection-language "@
        + layer.projection_language.text() + ";\n"@ + indentation(indent + 1) + "schemas {\n"@
}

/// The opening of a layer, through the start of its schema uses.
#[verifier::opaque]
pub open spec fn layer_head(layer: Layer, indent: nat) -> Seq<char> {
    layer_open(layer, indent) + inputs_line(layer, indent + 1) + consumes_open(layer, indent + 1)
}

/// A layer: its inputs, what it consumes with schema uses in canonical
/// order, and its projection.
#[verifier::opaque]
pub open spec fn layer_text(layer: Layer, indent: nat) -> Rendered {
    then(
        then(
            then(Ok(layer_head(layer, indent)), joined(sorted_uses(layer.schemas@), use_line(indent + 3))),
            Ok(indentation(indent + 2) + "}\n"@ + indentation(indent + 1) + "}\n"@),
        ),
        then(projection_text(layer.projection, indent + 1), Ok(indentation(indent) + "}\n"@)),
    )
}

pub open spec fn layer_line(indent: nat) -> spec_fn(Layer) -> Rendered {
    |l: Layer| layer_text(l, indent)
}

/// The canonical text of a description: header, core spec, extensions,
/// core, then its layers in name order.
pub open spec fn description_text(d: Description) -> Rendered {
    then(
        then(
            then(
                Ok(
                    "grimoire 1.0.0\ndescription "@ + d.address@ + label_text(d.label) + " {\n"@ + indentation(1)
                        + "core-spec "@ + d.core_spec.text() + ";\n"@,
                ),
                extensions_text(d.extensions@, 1),
            ),
            core_text(d.core, 1),
        ),
        then(joined(sorted_layers(d.layers@), layer_line(1)), Ok("}\n"@)),
    )
}

/// The canonical text of a standalone layer document.
pub open spec fn layer_document_text(doc: LayerFile) -> Rendered {
    then(Ok("grimoire-layer 1.0.0\nfor "@ + doc.description@ + ";\n"@), layer_text(doc.layer, 0))
}

fn write_select_item(output: &mut String, item: &SelectItem, indent: usize) -> (r: Result<(), SerializeError>)
    requires
        indent < 62,
    ensures
        rendered_into(old(output)@, final(output)@, r, select_text(*item, indent as nat)),
{
    proof {
        reveal(select_text);
    }
    match item {
        SelectItem::Use(addresses) => {
            write_indent(output, indent);
            push_str(output, "use ");
            write_address_list(output, addresses);
            push_str(output, ";\n");
            proof {
                assert(final(output)@ =~= old(output)@ + select_text(*item, indent as nat)->Ok_0);
            }
            Ok(())
        },
        SelectItem::GenerateBlock(b) => write_block(output, b, indent),
        SelectItem::GenerateConnection(c) => write_connection(output, c, indent),
        SelectItem::GenerateGroup(g) => write_group(output, g, indent),
    }
}

fn write_select(output: &mut String, items: &Vec<SelectItem>, indent: usize) -> (r: Result<(), SerializeError>)
    requires
        indent < 62,
    ensures
        rendered_into(old(output)@, final(output)@, r, joined(items@, select_line(indent as nat))),
{
    let ghost start = output@;
    let ghost f = select_line(indent as nat);
    let mut i: usize = 0;
    proof {
        assert(items@.take(0) =~= Seq::<SelectItem>::empty());
    }
    while i < items.len()
        invariant
            indent < 62,
            start == old(output)@,
            f == select_line(indent as nat),
            i <= items@.len(),
            joined(items@.take(i as int), f) is Ok,
            output@ == start + joined(items@.take(i as int), f)->Ok_0,
        decreases items@.len() - i,
    {
        proof {
            lemma_joined_step(items@, f, i as int);
        }
        let w = write_select_item(output, &items[i], indent);
        if w.is_err() {
            proof {
                lemma_joined_failed(items@, f, i as int);
            }
            return w;
        }
        proof {
            assert(output@ =~= start + joined(items@.take(i + 1), f)->Ok_0);
        }
        i = i + 1;
    }
    proof {
        assert(items@.take(items@.len() as int) =~= items@);
    }
    Ok(())
}

fn write_inverts(output: &mut String, groups: &Vec<Address>, indent: usize)
    ensures
        joined(groups@, invert_line(indent as nat)) is Ok,
        final(output)@ == old(output)@ + joined(groups@, invert_line(indent as nat))->Ok_0,
{
    let ghost start = output@;
    let ghost f = invert_line(indent as nat);
    let mut i: usize = 0;
    proof {
        assert(groups@.take(0) =~= Seq::<Address>::empty());
    }
    while i < groups.len()
        invariant
            start == old(output)@,
            f == invert_line(indent as nat),
            i <= groups@.len(),
            joined(groups@.take(i as int), f) is Ok,
            output@ == start + joined(groups@.take(i as int), f)->Ok_0,
        decreases groups@.len() - i,
    {
        proof {
            lemma_joined_step(groups@, f, i as int);
        }
        write_indent(output, indent);
        push_str(output, "group ");
        write_address(output, &groups[i]);
        push_str(output, ";\n");
        proof {
            assert(output@ =~= start + joined(groups@.take(i + 1), f)->Ok_0);
        }
        i = i + 1;
    }
    proof {
        assert(groups@.take(groups@.len() as int) =~= groups@);
    }
}

fn write_decorations(output: &mut String, decorations: &Vec<Decoration>, indent: usize) -> (r: Result<(), SerializeError>)
    ensures
        rendered_into(old(output)@, final(output)@, r, joined(decorations@, decoration_line(indent as nat))),
{
    let ghost start = output@;
    let ghost f = decoration_line(indent as nat);
    let mut i: usize = 0;
    proof {
        assert(decorations@.take(0) =~= Seq::<Decoration>::empty());
    }
    while i < decorations.len()
        invariant
            start == old(output)@,
            f == decoration_line(indent as nat),
            i <= decorations@.len(),
            joined(decorations@.take(i as int), f) is Ok,
            output@ == start + joined(decorations@.take(i as int), f)->Ok_0,
        decreases decorations@.len() - i,
    {
        proof {
            lemma_joined_step(decorations@, f, i as int);
        }
        let d = &decorations[i];
        write_indent(output, indent);
        push_str(output, "on ");
        write_address(output, &d.target);
        push_str(output, " ");
        let w = write_extension_parameter(output, &d.parameter);
        if w.is_err() {
            proof {
                lemma_joined_failed(decorations@, f, i as int);
            }
            return w;
        }
        push_str(output, "\n");
        proof {
            assert(output@ =~= start + joined(decorations@.take(i + 1), f)->Ok_0);
        }
        i = i + 1;
    }
    proof {
        assert(decorations@.take(decorations@.len() as int) =~= decorations@);
    }
    Ok(())
}

fn write_checks(output: &mut String, checks: &Vec<Check>, indent: usize)
    ensures
        joined(checks@, check_line(indent as nat)) is Ok,
        final(output)@ == old(output)@ + joined(checks@, check_line(indent as nat))->Ok_0,
{
    let ghost start = output@;
    let ghost f = check_line(indent as nat);
    let mut i: usize = 0;
    proof {
        assert(checks@.take(0) =~= Seq::<Check>::empty());
    }
    while i < checks.len()
        invariant
            start == old(output)@,
            f == check_line(indent as nat),
            i <= checks@.len(),
            joined(checks@.take(i as int), f) is Ok,
            output@ == start + joined(checks@.take(i as int), f)->Ok_0,
        decreases checks@.len() - i,
    {
        proof {
            lemma_joined_step(checks@, f, i as int);
        }
        let c = &checks[i];
        write_indent(output, indent);
        push_str(output, "check ");
        push_str(output, c.name.as_str());
        push_str(output, " expect ");
        match c.expected {
            ExpectedCardinality::Empty => push_str(output, "empty"),
            ExpectedCardinality::Nonempty => push_str(output, "nonempty"),
        }
        push_str(output, " over ");
        write_string(output, c.namespace.as_str());
        push_str(output, " ");
        push_str(output, c.parameter.as_str());
        push_str(output, ";\n");
        proof {
            assert(output@ =~= start + joined(checks@.take(i + 1), f)->Ok_0);
        }
        i = i + 1;
    }
    proof {
        assert(checks@.take(checks@.len() as int) =~= checks@);
    }
}

fn write_select_section(output: &mut String, items: &Vec<SelectItem>, indent: usize) -> (r: Result<(), SerializeError>)
    requires
        indent < 61,
    ensures
        rendered_into(
            old(output)@,
            final(output)@,
            r,
            section(true, indent as nat, "select"@, joined(items@, select_line(indent as nat + 1))),
        ),
{
    let ghost start = output@;
    write_indent(output, indent);
    push_str(output, "select");
    push_str(output, " {\n");
    write_select(output, items, indent + 1)?;
    write_indent(output, indent);
    push_str(output, "}\n");
    proof {
        assert(final(output)@ =~= start + section(true, indent as nat, "select"@, joined(items@, select_line(indent as nat + 1)))->Ok_0);
    }
    Ok(())
}

fn write_invert_section(output: &mut String, groups: &Vec<Address>, indent: usize)
    requires
        indent < 61,
    ensures
        section(groups@.len() > 0, indent as nat, "invert"@, joined(groups@, invert_line(indent as nat + 1))) is Ok,
        final(output)@ == old(output)@ + section(
            groups@.len() > 0,
            indent as nat,
            "invert"@,
            joined(groups@, invert_line(indent as nat + 1)),
        )->Ok_0,
{
    let ghost start = output@;
    if groups.len() == 0 {
        proof {
            assert(final(output)@ =~= start + Seq::<char>::empty());
        }
        return;
    }
    write_indent(output, indent);
    push_str(output, "invert");
    push_str(output, " {\n");
    write_inverts(output, groups, indent + 1);
    write_indent(output, indent);
    push_str(output, "}\n");
    proof {
        assert(final(output)@ =~= start + section(groups@.len() > 0, indent as nat, "invert"@, joined(groups@, invert_line(indent as nat + 1)))->Ok_0);
    }
}

fn write_decorate_section(output: &mut String, decorations: &Vec<Decoration>, indent: usize) -> (r: Result<(), SerializeError>)
    requires
        indent < 61,
    ensures
        rendered_into(
            old(output)@,
            final(output)@,
            r,
            section(decorations@.len() > 0, indent as nat, "decorate"@, joined(decorations@, decoration_line(indent as nat + 1))),
        ),
{
    let ghost start = output@;
    if decorations.len() == 0 {
        proof {
            assert(final(output)@ =~= start + Seq::<char>::empty());
        }
        return Ok(());
    }
    write_indent(output, indent);
    push_str(output, "decorate");
    push_str(output, " {\n");
    write_decorations(output, decorations, indent + 1)?;
    write_indent(output, indent);
    push_str(output, "}\n");
    proof {
        assert(final(output)@ =~= start + section(decorations@.len() > 0, indent as nat, "decorate"@, joined(decorations@, decoration_line(indent as nat + 1)))->Ok_0);
    }
    Ok(())
}

fn write_checks_section(output: &mut String, checks: &Vec<Check>, indent: usize)
    requires
        indent < 61,
    ensures
        section(checks@.len() > 0, indent as nat, "checks"@, joined(checks@, check_line(indent as nat + 1))) is Ok,
        final(output)@ == old(output)@ + section(
            checks@.len() > 0,
            indent as nat,
            "checks"@,
            joined(checks@, check_line(indent as nat + 1)),
        )->Ok_0,
{
    let ghost start = output@;
    if checks.len() == 0 {
        proof {
            assert(final(output)@ =~= start + Seq::<char>::empty());
        }
        return;
    }
    write_indent(output, indent);
    push_str(output, "checks");
    push_str(output, " {\n");
    write_checks(output, checks, indent + 1);
    write_indent(output, indent);
    push_str(output, "}\n");
    proof {
        assert(final(output)@ =~= start + section(checks@.len() > 0, indent as nat, "checks"@, joined(checks@, check_line(indent as nat + 1)))->Ok_0);
    }
}

fn write_projection_body(output: &mut String, projection: &Projection, indent: usize) -> (r: Result<(), SerializeError>)
    requires
        indent < 61,
    ensures
        rendered_into(old(output)@, final(output)@, r, projection_body(*projection, indent as nat)),
{
    proof {
        reveal(projection_body);
    }
    let ghost start = output@;
    let ghost n = indent as nat;
    let ghost sel = section(true, n, "select"@, joined(projection.select@, select_line(n + 1)));
    let ghost inv = section(projection.invert@.len() > 0, n, "invert"@, joined(projection.invert@, invert_line(n + 1)));
    let ghost dec = section(
        projection.decorate@.len() > 0,
        n,
        "decorate"@,
        joined(projection.decorate@, decoration_line(n + 1)),
    );
    let ghost chk = section(projection.checks@.len() > 0, n, "checks"@, joined(projection.checks@, check_line(n + 1)));
    assert(projection_body(*projection, n) == then(then(then(sel, inv), dec), chk));
    write_select_section(output, &projection.select, indent)?;
    write_invert_section(output, &projection.invert, indent);
    write_decorate_section(output, &projection.decorate, indent)?;
    write_checks_section(output, &projection.checks, indent);
    proof {
        assert(final(output)@ =~= start + (sel->Ok_0 + inv->Ok_0 + dec->Ok_0 + chk->Ok_0));
    }
    Ok(())
}

/// Appends a projection: its selection, then inversions, decorations and
/// checks when there are any.
pub fn write_projection(output: &mut String, projection: &Projection, indent: usize) -> (r: Result<(), SerializeError>)
    requires
        indent < 60,
    ensures
        rendered_into(old(output)@, final(output)@, r, projection_text(*projection, indent as nat)),
{
    proof {
        reveal(projection_text);
    }
    let ghost start = output@;
    write_indent(output, indent);
    push_str(output, "projection {\n");
    write_projection_body(output, projection, indent + 1)?;
    write_indent(output, indent);
    push_str(output, "}\n");
    proof {
        assert(final(output)@ =~= start + projection_text(*projection, indent as nat)->Ok_0);
    }
    Ok(())
}

fn write_inputs(output: &mut String, inputs: &Vec<LayerInput>)
    ensures
        final(output)@ == old(output)@ + comma_joined(inputs@.map_values(|i: LayerInput| input_text(i))),
{
    let ghost start = output@;
    let ghost texts = inputs@.map_values(|i: LayerInput| input_text(i));
    let mut i: usize = 0;
    while i < inputs.len()
        invariant
            start == old(output)@,
            texts == inputs@.map_values(|i: LayerInput| input_text(i)),
            i <= inputs@.len(),
            output@ == start + comma_joined(texts.take(i as int)),
        decreases inputs@.len() - i,
    {
        if i > 0 {
            push_str(output, ", ");
        }
        match &inputs[i] {
            LayerInput::Core => push_str(output, "core"),
            LayerInput::Layer(name) => write_string(output, name.as_str()),
        }
        proof {
            let p = texts.take(i as int);
            assert(texts.take(i + 1) =~= p.push(texts[i as int]));
            assert(p.push(texts[i as int]).drop_last() =~= p);
            if i == 0 {
                assert(p =~= Seq::<Seq<char>>::empty());
            }
            assert(output@ =~= start + comma_joined(texts.take(i + 1)));
        }
        i = i + 1;
    }
    proof {
        assert(texts.take(i as int) =~= texts);
    }
}

fn write_uses(output: &mut String, uses: &Vec<SchemaUse>, indent: usize)
    ensures
        joined(sorted_uses(uses@), use_line(indent as nat)) is Ok,
        final(output)@ == old(output)@ + joined(sorted_uses(uses@), use_line(indent as nat))->Ok_0,
{
    let order = use_order(uses);
    let ghost start = output@;
    let ghost f = use_line(indent as nat);
    let ghost items = sorted_uses(uses@);
    let mut k: usize = 0;
    proof {
        assert(items.take(0) =~= Seq::<SchemaUse>::empty());
    }
    while k < order.len()
        invariant
            start == old(output)@,
            f == use_line(indent as nat),
            items == sorted_uses(uses@),
            positions(order@) == sorted_by(uses@.len(), uses_before(uses@)),
            forall|j: int| 0 <= j < order@.len() ==> order@[j] < uses@.len(),
            items.len() == order@.len(),
            k <= order@.len(),
            joined(items.take(k as int), f) is Ok,
            output@ == start + joined(items.take(k as int), f)->Ok_0,
        decreases order@.len() - k,
    {
        proof {
            lemma_joined_step(items, f, k as int);
            assert(positions(order@)[k as int] == order@[k as int] as int);
            assert(items[k as int] == uses@[order@[k as int] as int]);
        }
        let u = &uses[order[k]];
        write_indent(output, indent);
        write_string(output, u.namespace.as_str());
        push_str(output, " / ");
        push_str(output, u.name.as_str());
        push_str(output, " @");
        u.version.write_to(output);
        push_str(output, ";\n");
        proof {
            assert(output@ =~= start + joined(items.take(k + 1), f)->Ok_0);
        }
        k = k + 1;
    }
    proof {
        assert(items.take(items.len() as int) =~= items);
    }
}

fn write_layer_head(output: &mut String, layer: &Layer, indent: usize)
    requires
        indent < 57,
    ensures
        final(output)@ == old(output)@ + layer_head(*layer, indent as nat),
{
    let ghost start = output@;
    let ghost n = indent as nat;
    write_indent(output, indent);
    push_str(output, "layer ");
    write_string(output, layer.name.as_str());
    push_str(output, " {\n");
    proof {
        assert(output@ =~= start + layer_open(*layer, n));
    }
    let ghost after_open = output@;
    write_indent(output, indent + 1);
    push_str(output, "inputs { ");
    write_inputs(output, &layer.inputs);
    push_str(output, " };\n");
    proof {
        assert(output@ =~= after_open + inputs_line(*layer, n + 1));
    }
    let ghost after_inputs = output@;
    write_indent(output, indent + 1);
    push_str(output, "consumes {\n");
    write_indent(output, indent + 2);
    push_str(output, "projection-language ");
    layer.projection_language.write_to(output);
    push_str(output, ";\n");
    write_indent(output, indent + 2);
    push_str(output, "schemas {\n");
    proof {
        assert(output@ =~= after_inputs + consumes_open(*layer, n + 1));
        reveal(layer_head);
        assert(final(output)@ =~= start + layer_head(*layer, n));
    }
}

/// Appends a layer.
pub fn write_layer(output: &mut String, layer: &Layer, indent: usize) -> (r: Result<(), SerializeError>)
    requires
        indent < 57,
    ensures
        rendered_into(old(output)@, final(output)@, r, layer_text(*layer, indent as nat)),
{
    proof {
        reveal(layer_text);
    }
    let ghost start = output@;
    let ghost n = indent as nat;
    let ghost uses = joined(sorted_uses(layer.schemas@), use_line(n + 3));
    let ghost close = indentation(n + 2) + "}\n"@ + indentation(n + 1) + "}\n"@;
    let ghost proj = projection_text(layer.projection, n + 1);
    let ghost tail = indentation(n) + "}\n"@;
    assert(layer_text(*layer, n) == then(then(then(Ok(layer_head(*layer, n)), uses), Ok(close)), then(proj, Ok(tail))));
    write_layer_head(output, layer, indent);
    write_uses(output, &layer.schemas, indent + 3);
    let ghost after_uses = output@;
    write_indent(output, indent + 2);
    push_str(output, "}\n");
    write_indent(output, indent + 1);
    push_str(output, "}\n");
    proof {
        assert(output@ =~= after_uses + close);
    }
    let ghost after_close = output@;
    write_projection(output, &layer.projection, indent + 1)?;
    let ghost after_projection = output@;
    write_indent(output, indent);
    push_str(output, "}\n");
    proof {
        assert(final(output)@ =~= after_projection + tail);
        assert(final(output)@ =~= start + layer_text(*layer, n)->Ok_0);
    }
    Ok(())
}

/// Renders a description as its canonical document: the header and core
/// spec, the description's extensions, the core graph, then its layers in
/// name order. Fails when an opaque extension payload is not valid UTF-8, or
/// when a finite number other than zero would be written.
pub fn serialize_description(description: &Description) -> (r: Result<String, SerializeError>)
    ensures
        match description_text(*description) {
            Ok(t) => r matches Ok(s) && s@ == t,
            Err(m) => r matches Err(e) && e.message@ == m,
        },
{
    let mut output = owned("grimoire 1.0.0\ndescription ");
    write_address(&mut output, &description.address);
    write_label(&mut output, &description.label);
    push_str(&mut output, " {\n");
    write_indent(&mut output, 1);
    push_str(&mut output, "core-spec ");
    description.core_spec.write_to(&mut output);
    push_str(&mut output, ";\n");
    let ghost head = output@;
    proof {
        assert(head =~= "grimoire 1.0.0\ndescription "@ + description.address@ + label_text(description.label)
            + " {\n"@ + indentation(1) + "core-spec "@ + description.core_spec.text() + ";\n"@);
    }
    if let Err(e) = write_extensions(&mut output, &description.extensions, 1) {
        return Err(e);
    }
    if let Err(e) = write_core(&mut output, &description.core, 1) {
        return Err(e);
    }
    let ghost before_layers = output@;
    let order = layer_order(&description.layers);
    let ghost f = layer_line(1);
    let ghost items = sorted_layers(description.layers@);
    let mut k: usize = 0;
    proof {
        assert(items.take(0) =~= Seq::<Layer>::empty());
    }
    while k < order.len()
        invariant
            f == layer_line(1),
            extensions_text(description.extensions@, 1) is Ok,
            core_text(description.core, 1) is Ok,
            items == sorted_layers(description.layers@),
            positions(order@) == sorted_by(description.layers@.len(), names_before(description.layers@)),
            forall|j: int| 0 <= j < order@.len() ==> order@[j] < description.layers@.len(),
            items.len() == order@.len(),
            k <= order@.len(),
            joined(items.take(k as int), f) is Ok,
            output@ == before_layers + joined(items.take(k as int), f)->Ok_0,
        decreases order@.len() - k,
    {
        proof {
            lemma_joined_step(items, f, k as int);
            assert(positions(order@)[k as int] == order@[k as int] as int);
            assert(items[k as int] == description.layers@[order@[k as int] as int]);
        }
        if let Err(e) = write_layer(&mut output, &description.layers[order[k]], 1) {
            proof {
                lemma_joined_failed(items, f, k as int);
            }
            return Err(e);
        }
        proof {
            assert(output@ =~= before_layers + joined(items.take(k + 1), f)->Ok_0);
        }
        k = k + 1;
    }
    proof {
        assert(items.take(items.len() as int) =~= items);
    }
    push_str(&mut output, "}\n");
    proof {
        assert(output@ =~= description_text(*description)->Ok_0);
    }
    Ok(output)
}

/// Renders a standalone layer document.
pub fn serialize_layer_document(document: &LayerFile) -> (r: Result<String, SerializeError>)
    ensures
        match layer_document_text(*document) {
            Ok(t) => r matches Ok(s) && s@ == t,
            Err(m) => r matches Err(e) && e.message@ == m,
        },
{
    let mut output = owned("grimoire-layer 1.0.0\nfor ");
    write_address(&mut output, &document.description);
    push_str(&mut output, ";\n");
    if let Err(e) = write_layer(&mut output, &document.layer, 0) {
        return Err(e);
    }
    proof {
        assert(output@ =~= layer_document_text(*document)->Ok_0);
    }
    Ok(output)
}

} // verus!

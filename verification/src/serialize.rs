//! Canonical text for schema documents, and the string and address writers
//! shared by the document serializers.
use vstd::prelude::*;

use crate::address::Address;
use crate::lexer::{escape_at, hex4_value, hex_digit_value, prefixed, string_from};
use crate::schema::{element_kind_at, ElementKind, ElementKinds, Schema, SchemaExpr, SchemaExprArm, SchemaExprField, texts};
use crate::text::{char_is_control, chars_of, is_control, is_hex_digit, owned, push_char, push_str};

verus! {

/// A failure to render a document as text.
#[derive(Debug, PartialEq, Eq)]
pub struct SerializeError {
    pub message: String,
}

impl SerializeError {
    /// The error's message.
    pub fn to_string(&self) -> (s: String)
        ensures
            s@ == self.message@,
    {
        owned(self.message.as_str())
    }
}

/// A lowercase hexadecimal digit.
pub open spec fn hex_char(d: nat) -> char {
    if d < 10 {
        ((d + 48) as u32) as char
    } else {
        ((d + 87) as u32) as char
    }
}

/// How one character is written inside a quoted string.
pub open spec fn escape_char(c: char) -> Seq<char> {
    if c == '"' {
        seq!['\\', '"']
    } else if c == '\\' {
        seq!['\\', '\\']
    } else if c == '\x08' {
        seq!['\\', 'b']
    } else if c == '\x0C' {
        seq!['\\', 'f']
    } else if c == '\n' {
        seq!['\\', 'n']
    } else if c == '\r' {
        seq!['\\', 'r']
    } else if c == '\t' {
        seq!['\\', 't']
    } else if is_control(c) {
        let u = c as u32 as nat;
        seq!['\\', 'u', '0', '0', hex_char(u / 16), hex_char(u % 16)]
    } else {
        seq![c]
    }
}

/// The escaped characters of `s`.
pub open spec fn escaped(s: Seq<char>) -> Seq<char>
    decreases s.len(),
{
    if s.len() == 0 {
        Seq::empty()
    } else {
        escaped(s.drop_last()) + escape_char(s.last())
    }
}

/// `s` as a quoted string.
pub open spec fn quoted(s: Seq<char>) -> Seq<char> {
    seq!['"'] + escaped(s) + seq!['"']
}

/// Four spaces per level.
pub open spec fn indentation(n: nat) -> Seq<char>
    decreases n,
{
    if n == 0 {
        Seq::empty()
    } else {
        indentation((n - 1) as nat) + "    "@
    }
}

fn hex_digit(d: u32) -> (c: char)
    requires
        d < 16,
    ensures
        c == hex_char(d as nat),
{
    if d < 10 {
        char_from_code(d + 48)
    } else {
        char_from_code(d + 87)
    }
}

fn char_from_code(u: u32) -> (c: char)
    requires
        u < 128,
    ensures
        c == (u as char),
{
    let b = u as u8;
    b as char
}

/// Escaping distributes over concatenation.
pub proof fn lemma_escaped_concat(a: Seq<char>, b: Seq<char>)
    ensures
        escaped(a + b) == escaped(a) + escaped(b),
    decreases b.len(),
{
    if b.len() == 0 {
        assert(a + b =~= a);
        assert(escaped(a) + escaped(b) =~= escaped(a));
    } else {
        lemma_escaped_concat(a, b.drop_last());
        assert((a + b).drop_last() =~= a + b.drop_last());
        assert((a + b).last() == b.last());
        assert(escaped(a) + escaped(b.drop_last()) + escape_char(b.last()) =~= escaped(a) + (escaped(
            b.drop_last(),
        ) + escape_char(b.last())));
    }
}

/// A digit written by `hex_char` reads back as its value.
pub proof fn lemma_hex_char(d: nat)
    requires
        d < 16,
    ensures
        is_hex_digit(hex_char(d)),
        hex_digit_value(hex_char(d)) == d,
{
}

/// The escape of one character reads back as that character.
pub proof fn lemma_escape_char_reads_back(x: Seq<char>, i: int, c: char)
    requires
        0 <= i,
        i + escape_char(c).len() <= x.len(),
        x.subrange(i, i + escape_char(c).len()) == escape_char(c),
    ensures
        string_from(x, i) == prefixed(seq![c], string_from(x, i + escape_char(c).len())),
{
    let e = escape_char(c);
    assert(x[i] == e[0]);
    if e.len() > 1 {
        assert(x[i + 1] == e[1]);
    }
    if c != '"' && c != '\\' && c != '\x08' && c != '\x0C' && c != '\n' && c != '\r' && c != '\t' && is_control(c) {
        let u = c as u32 as nat;
        assert(u < 0xa0);
        lemma_hex_char(u / 16);
        lemma_hex_char(u % 16);
        assert(x[i + 2] == '0');
        assert(x[i + 3] == '0');
        assert(x[i + 4] == hex_char(u / 16));
        assert(x[i + 5] == hex_char(u % 16));
        assert(hex4_value(x, i + 2) == u);
        vstd::utf8::char_u32_cast(c, c as u32);
        assert(escape_at(x, i + 1) == Some((c, i + 6)));
    }
}

/// The escaped text of `s`, its closing quote and anything after, read from
/// the start of the escaped text, give back `s`.
pub proof fn lemma_escaped_reads_back(p: Seq<char>, s: Seq<char>, rest: Seq<char>)
    ensures
        string_from(p + escaped(s) + seq!['"'] + rest, p.len() as int) == Some(
            (s, (p.len() + escaped(s).len() + 1) as int),
        ),
    decreases s.len(),
{
    let x = p + escaped(s) + seq!['"'] + rest;
    if s.len() == 0 {
        assert(x[p.len() as int] == '"');
        assert(s =~= Seq::<char>::empty());
    } else {
        let c = s[0];
        let s2 = s.subrange(1, s.len() as int);
        assert(seq![c] + s2 =~= s);
        lemma_escaped_concat(seq![c], s2);
        assert(seq![c].drop_last() =~= Seq::<char>::empty());
        assert(seq![c].last() == c);
        assert(escaped(Seq::<char>::empty()) =~= Seq::<char>::empty());
        assert(escaped(seq![c]) == escaped(Seq::<char>::empty()) + escape_char(c));
        assert(escaped(seq![c]) =~= escape_char(c));
        let q = p + escape_char(c);
        lemma_escaped_reads_back(q, s2, rest);
        assert(q + escaped(s2) + seq!['"'] + rest =~= x);
        assert(x.subrange(p.len() as int, (p.len() + escape_char(c).len()) as int) =~= escape_char(c));
        lemma_escape_char_reads_back(x, p.len() as int, c);
    }
}

/// A string written by `write_string` reads back as the same text: the
/// quoted string starts a token whose contents are the original characters,
/// ending just after the closing quote, whatever follows it.
pub proof fn quoted_text_reads_back(s: Seq<char>, rest: Seq<char>)
    ensures
        string_from(quoted(s) + rest, 1) == Some((s, quoted(s).len() as int)),
{
    lemma_escaped_reads_back(seq!['"'], s, rest);
    assert(seq!['"'] + escaped(s) + seq!['"'] + rest =~= quoted(s) + rest);
}

/// Appends `value` as a quoted string with escapes.
pub fn write_string(output: &mut String, value: &str)
    ensures
        final(output)@ == old(output)@ + quoted(value@),
{
    push_char(output, '"');
    let cs = chars_of(value);
    let ghost start = output@;
    let mut i: usize = 0;
    while i < cs.len()
        invariant
            cs@ == value@,
            i <= cs@.len(),
            output@ == start + escaped(cs@.take(i as int)),
        decreases cs@.len() - i,
    {
        let c = cs[i];
        proof {
            assert(cs@.take(i + 1).drop_last() =~= cs@.take(i as int));
            assert(cs@.take(i + 1).last() == c);
        }
        let ghost before = output@;
        if c == '"' {
            push_str(output, "\\\"");
        } else if c == '\\' {
            push_str(output, "\\\\");
        } else if c == '\x08' {
            push_str(output, "\\b");
        } else if c == '\x0C' {
            push_str(output, "\\f");
        } else if c == '\n' {
            push_str(output, "\\n");
        } else if c == '\r' {
            push_str(output, "\\r");
        } else if c == '\t' {
            push_str(output, "\\t");
        } else if char_is_control(c) {
            let u = c as u32;
            push_str(output, "\\u00");
            push_char(output, hex_digit(u / 16));
            push_char(output, hex_digit(u % 16));
        } else {
            push_char(output, c);
        }
        proof {
            reveal_strlit("\\\"");
            reveal_strlit("\\\\");
            reveal_strlit("\\b");
            reveal_strlit("\\f");
            reveal_strlit("\\n");
            reveal_strlit("\\r");
            reveal_strlit("\\t");
            reveal_strlit("\\u00");
            assert(output@ =~= before + escape_char(c));
        }
        i = i + 1;
    }
    push_char(output, '"');
    proof {
        assert(cs@.take(i as int) =~= value@);
        assert(output@ =~= old(output)@ + quoted(value@));
    }
}

/// Appends four spaces per level.
pub fn write_indent(output: &mut String, indent: usize)
    ensures
        final(output)@ == old(output)@ + indentation(indent as nat),
{
    let ghost start = output@;
    let mut i: usize = 0;
    while i < indent
        invariant
            i <= indent,
            output@ == start + indentation(i as nat),
        decreases indent - i,
    {
        push_str(output, "    ");
        proof {
            assert(output@ =~= start + indentation((i + 1) as nat));
        }
        i = i + 1;
    }
}

/// Appends an address as written.
pub fn write_address(output: &mut String, address: &Address)
    ensures
        final(output)@ == old(output)@ + address@,
{
    push_str(output, address.as_str());
}

/// The lowercase name of an element kind in documents.
pub open spec fn element_kind_name(kind: ElementKind) -> Seq<char> {
    match kind {
        ElementKind::Description => "description"@,
        ElementKind::Block => "block"@,
        ElementKind::Port => "port"@,
        ElementKind::Connection => "connection"@,
        ElementKind::Group => "group"@,
    }
}

fn element_kind_text(kind: ElementKind) -> (s: &'static str)
    ensures
        s@ == element_kind_name(kind),
{
    match kind {
        ElementKind::Description => "description",
        ElementKind::Block => "block",
        ElementKind::Port => "port",
        ElementKind::Connection => "connection",
        ElementKind::Group => "group",
    }
}

/// Items separated by `, `.
pub open spec fn comma_joined(items: Seq<Seq<char>>) -> Seq<char>
    decreases items.len(),
{
    if items.len() == 0 {
        Seq::empty()
    } else if items.len() == 1 {
        items[0]
    } else {
        comma_joined(items.drop_last()) + ", "@ + items.last()
    }
}

/// The canonical text of a schema expression at an indentation level.
pub open spec fn expr_text(e: SchemaExpr, indent: nat) -> Seq<char>
    decreases e, 1int,
{
    match e {
        SchemaExpr::FiniteScalar => "finite-scalar"@,
        SchemaExpr::PositiveInteger => "positive-integer"@,
        SchemaExpr::FiniteNumber => "finite-number"@,
        SchemaExpr::Text => "text"@,
        SchemaExpr::Enumeration(values) => "enumeration { "@ + comma_joined(
            texts(values@),
        ) + " }"@,
        SchemaExpr::Product(fields) => "product {\n"@ + fields_text(fields@, indent, 0) + indentation(
            indent,
        ) + "}"@,
        SchemaExpr::Sequence(item) => "sequence<"@ + expr_text(*item, indent) + ">"@,
        SchemaExpr::Alternative(arms) => "alternative {\n"@ + arms_text(arms@, indent, 0)
            + indentation(indent) + "}"@,
        SchemaExpr::AddressReference => "address-reference"@,
        SchemaExpr::Presence(inner) => "presence<"@ + expr_text(*inner, indent) + ">"@,
    }
}

/// One line per field from position `start` on; every line but the last
/// ends with a comma.
pub open spec fn fields_text(fields: Seq<SchemaExprField>, indent: nat, start: int) -> Seq<char>
    decreases fields, 0int, fields.len() - start,
{
    if start < 0 || start >= fields.len() {
        Seq::empty()
    } else {
        indentation(indent + 1) + fields[start].name@ + ": "@ + expr_text(
            *fields[start].schema,
            indent + 1,
        ) + (if start + 1 < fields.len() {
            ","@
        } else {
            Seq::empty()
        }) + "\n"@ + fields_text(fields, indent, start + 1)
    }
}

/// One line per arm from position `start` on; every line but the last ends
/// with a comma.
pub open spec fn arms_text(arms: Seq<SchemaExprArm>, indent: nat, start: int) -> Seq<char>
    decreases arms, 0int, arms.len() - start,
{
    if start < 0 || start >= arms.len() {
        Seq::empty()
    } else {
        indentation(indent + 1) + arms[start].tag@ + ": "@ + expr_text(*arms[start].schema, indent + 1)
            + (if start + 1 < arms.len() {
            ","@
        } else {
            Seq::empty()
        }) + "\n"@ + arms_text(arms, indent, start + 1)
    }
}

/// The names of the allowed kinds among the first `i` kinds, in
/// declaration order.
pub open spec fn allowed_names_upto(kinds: ElementKinds, i: int) -> Seq<Seq<char>>
    decreases i,
{
    if i <= 0 {
        Seq::empty()
    } else {
        let p = allowed_names_upto(kinds, i - 1);
        if kinds.has(element_kind_at(i - 1)) {
            p.push(element_kind_name(element_kind_at(i - 1)))
        } else {
            p
        }
    }
}

/// The names of the allowed kinds, in declaration order.
pub open spec fn allowed_names(schema: Schema) -> Seq<Seq<char>> {
    allowed_names_upto(schema.allowed_elements, 5)
}

/// The nesting depth of a schema expression.
pub open spec fn expr_depth(e: SchemaExpr) -> nat
    decreases e, 1int,
{
    match e {
        SchemaExpr::Product(fields) => 1 + fields_depth(fields@),
        SchemaExpr::Alternative(arms) => 1 + arms_depth(arms@),
        SchemaExpr::Sequence(item) => expr_depth(*item),
        SchemaExpr::Presence(inner) => expr_depth(*inner),
        _ => 0,
    }
}

pub open spec fn fields_depth(fields: Seq<SchemaExprField>) -> nat
    decreases fields, 0int,
{
    if fields.len() == 0 {
        0
    } else {
        let a = expr_depth(*fields[0].schema);
        let b = fields_depth(fields.drop_first());
        if a > b {
            a
        } else {
            b
        }
    }
}

pub open spec fn arms_depth(arms: Seq<SchemaExprArm>) -> nat
    decreases arms, 0int,
{
    if arms.len() == 0 {
        0
    } else {
        let a = expr_depth(*arms[0].schema);
        let b = arms_depth(arms.drop_first());
        if a > b {
            a
        } else {
            b
        }
    }
}

/// The canonical schema document.
#[verifier::opaque]
pub open spec fn schema_document_text(schema: Schema) -> Seq<char> {
    "grimoire-schema 1.0.0\nschema {\n"@ + "    namespace "@ + quoted(schema.namespace@) + ";\n"@
        + "    name "@ + schema.name@ + ";\n"@ + "    version "@ + schema.version.text() + ";\n"@
        + "    allows { "@ + comma_joined(allowed_names(schema)) + " };\n"@ + "    value "@
        + expr_text(schema.value, 1) + ";\n}"@ + "\n"@
}

proof fn lemma_fields_depth(fields: Seq<SchemaExprField>, i: int)
    requires
        0 <= i < fields.len(),
    ensures
        expr_depth(*fields[i].schema) <= fields_depth(fields),
    decreases fields.len(),
{
    if i > 0 {
        lemma_fields_depth(fields.drop_first(), i - 1);
    }
}

proof fn lemma_arms_depth(arms: Seq<SchemaExprArm>, i: int)
    requires
        0 <= i < arms.len(),
    ensures
        expr_depth(*arms[i].schema) <= arms_depth(arms),
    decreases arms.len(),
{
    if i > 0 {
        lemma_arms_depth(arms.drop_first(), i - 1);
    }
}

/// Appends the canonical text of a schema expression.
pub fn write_schema_expression(output: &mut String, expression: &SchemaExpr, indent: usize)
    requires
        indent + expr_depth(*expression) < usize::MAX,
    ensures
        final(output)@ == old(output)@ + expr_text(*expression, indent as nat),
    decreases expression, 1int,
{
    let ghost start = output@;
    match expression {
        SchemaExpr::FiniteScalar => push_str(output, "finite-scalar"),
        SchemaExpr::PositiveInteger => push_str(output, "positive-integer"),
        SchemaExpr::FiniteNumber => push_str(output, "finite-number"),
        SchemaExpr::Text => push_str(output, "text"),
        SchemaExpr::Enumeration(values) => {
            push_str(output, "enumeration { ");
            write_enumeration(output, values);
            push_str(output, " }");
            proof {
                assert(output@ =~= start + expr_text(*expression, indent as nat));
            }
        },
        SchemaExpr::Product(fields) => {
            push_str(output, "product {\n");
            write_fields(output, fields, indent);
            write_indent(output, indent);
            push_str(output, "}");
            proof {
                assert(output@ =~= start + expr_text(*expression, indent as nat));
            }
        },
        SchemaExpr::Sequence(item) => {
            push_str(output, "sequence<");
            write_schema_expression(output, item, indent);
            push_str(output, ">");
            proof {
                assert(output@ =~= start + expr_text(*expression, indent as nat));
            }
        },
        SchemaExpr::Alternative(arms) => {
            push_str(output, "alternative {\n");
            write_arms(output, arms, indent);
            write_indent(output, indent);
            push_str(output, "}");
            proof {
                assert(output@ =~= start + expr_text(*expression, indent as nat));
            }
        },
        SchemaExpr::AddressReference => push_str(output, "address-reference"),
        SchemaExpr::Presence(inner) => {
            push_str(output, "presence<");
            write_schema_expression(output, inner, indent);
            push_str(output, ">");
            proof {
                assert(output@ =~= start + expr_text(*expression, indent as nat));
            }
        },
    }
}

fn write_enumeration(output: &mut String, values: &Vec<String>)
    ensures
        final(output)@ == old(output)@ + comma_joined(texts(values@)),
{
    let ghost mid = output@;
    let mut index: usize = 0;
    while index < values.len()
        invariant
            index <= values@.len(),
            output@ == mid + comma_joined(texts(values@).take(index as int)),
        decreases values@.len() - index,
    {
        if index > 0 {
            push_str(output, ", ");
        }
        push_str(output, values[index].as_str());
        proof {
            let p = texts(values@).take(index as int);
            assert(texts(values@).take(index + 1) =~= p.push(values@[index as int]@));
            assert(p.push(values@[index as int]@).drop_last() =~= p);
            if index == 0 {
                assert(p =~= Seq::<Seq<char>>::empty());
            }
            assert(output@ =~= mid + comma_joined(texts(values@).take(index + 1)));
        }
        index = index + 1;
    }
    proof {
        assert(texts(values@).take(index as int) =~= texts(values@));
    }
}

fn write_fields(output: &mut String, fields: &Vec<SchemaExprField>, indent: usize)
    requires
        indent + 1 + fields_depth(fields@) < usize::MAX,
    ensures
        final(output)@ == old(output)@ + fields_text(fields@, indent as nat, 0),
    decreases fields, 0int,
{
    let ghost mid = output@;
    let mut index: usize = 0;
    while index < fields.len()
        invariant
            index <= fields@.len(),
            indent + 1 + fields_depth(fields@) < usize::MAX,
            mid + fields_text(fields@, indent as nat, 0) == output@ + fields_text(fields@, indent as nat, index as int),
        decreases fields@.len() - index,
    {
        let ghost before = output@;
        write_indent(output, indent + 1);
        push_str(output, fields[index].name.as_str());
        push_str(output, ": ");
        proof {
            lemma_fields_depth(fields@, index as int);
            assert(decreases_to!(fields => fields@[index as int].schema));
        }
        write_schema_expression(output, &fields[index].schema, indent + 1);
        if index + 1 < fields.len() {
            push_str(output, ",");
        }
        push_str(output, "\n");
        proof {
            let tail = fields_text(fields@, indent as nat, index + 1);
            let piece = indentation((indent + 1) as nat) + fields@[index as int].name@ + ": "@ + expr_text(
                *fields@[index as int].schema,
                (indent + 1) as nat,
            ) + (if index + 1 < fields@.len() {
                ","@
            } else {
                Seq::<char>::empty()
            }) + "\n"@;
            assert(output@ =~= before + piece);
            assert(fields_text(fields@, indent as nat, index as int) == piece + tail);
        }
        index = index + 1;
    }
    proof {
        assert(fields_text(fields@, indent as nat, index as int) =~= Seq::<char>::empty());
        assert(output@ =~= mid + fields_text(fields@, indent as nat, 0));
    }
}

fn write_arms(output: &mut String, arms: &Vec<SchemaExprArm>, indent: usize)
    requires
        indent + 1 + arms_depth(arms@) < usize::MAX,
    ensures
        final(output)@ == old(output)@ + arms_text(arms@, indent as nat, 0),
    decreases arms, 0int,
{
    let ghost mid = output@;
    let mut index: usize = 0;
    while index < arms.len()
        invariant
            index <= arms@.len(),
            indent + 1 + arms_depth(arms@) < usize::MAX,
            mid + arms_text(arms@, indent as nat, 0) == output@ + arms_text(arms@, indent as nat, index as int),
        decreases arms@.len() - index,
    {
        let ghost before = output@;
        write_indent(output, indent + 1);
        push_str(output, arms[index].tag.as_str());
        push_str(output, ": ");
        proof {
            lemma_arms_depth(arms@, index as int);
            assert(decreases_to!(arms => arms@[index as int].schema));
        }
        write_schema_expression(output, &arms[index].schema, indent + 1);
        if index + 1 < arms.len() {
            push_str(output, ",");
        }
        push_str(output, "\n");
        proof {
            let tail = arms_text(arms@, indent as nat, index + 1);
            let piece = indentation((indent + 1) as nat) + arms@[index as int].tag@ + ": "@ + expr_text(
                *arms@[index as int].schema,
                (indent + 1) as nat,
            ) + (if index + 1 < arms@.len() {
                ","@
            } else {
                Seq::<char>::empty()
            }) + "\n"@;
            assert(output@ =~= before + piece);
            assert(arms_text(arms@, indent as nat, index as int) == piece + tail);
        }
        index = index + 1;
    }
    proof {
        assert(arms_text(arms@, indent as nat, index as int) =~= Seq::<char>::empty());
        assert(output@ =~= mid + arms_text(arms@, indent as nat, 0));
    }
}

/// Renders a schema as its canonical document.
pub fn serialize_schema_document(schema: &Schema) -> (r: Result<String, SerializeError>)
    requires
        expr_depth(schema.value) < usize::MAX - 1,
    ensures
        r matches Ok(s) && s@ == schema_document_text(*schema),
{
    let mut output = owned("grimoire-schema 1.0.0\nschema {\n");
    push_str(&mut output, "    namespace ");
    write_string(&mut output, schema.namespace.as_str());
    push_str(&mut output, ";\n");
    push_str(&mut output, "    name ");
    push_str(&mut output, schema.name.as_str());
    push_str(&mut output, ";\n");
    push_str(&mut output, "    version ");
    schema.version.write_to(&mut output);
    push_str(&mut output, ";\n");
    push_str(&mut output, "    allows { ");
    let ghost mid = output@;
    let mut i: usize = 0;
    let mut written: usize = 0;
    while i < 5
        invariant
            i <= 5,
            written <= i,
            written == allowed_names_upto(schema.allowed_elements, i as int).len(),
            output@ == mid + comma_joined(allowed_names_upto(schema.allowed_elements, i as int)),
        decreases 5 - i,
    {
        let kind = ElementKind::at(i);
        if schema.allowed_elements.contains(&kind) {
            if written > 0 {
                push_str(&mut output, ", ");
            }
            push_str(&mut output, element_kind_text(kind));
            proof {
                let p = allowed_names_upto(schema.allowed_elements, i as int);
                assert(allowed_names_upto(schema.allowed_elements, i + 1) == p.push(element_kind_name(kind)));
                assert(p.push(element_kind_name(kind)).drop_last() =~= p);
                if written == 0 {
                    assert(p =~= Seq::<Seq<char>>::empty());
                }
                assert(output@ =~= mid + comma_joined(allowed_names_upto(schema.allowed_elements, i + 1)));
            }
            written = written + 1;
        }
        i = i + 1;
    }
    push_str(&mut output, " };\n");
    push_str(&mut output, "    value ");
    write_schema_expression(&mut output, &schema.value, 1);
    push_str(&mut output, ";\n}");
    push_str(&mut output, "\n");
    proof {
        reveal(schema_document_text);
        assert(output@ =~= schema_document_text(*schema));
    }
    Ok(output)
}

} // verus!

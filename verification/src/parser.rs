//! The description and layer document parsers.
use vstd::prelude::*;
use vstd::string::StrSliceExecFns;
use vstd::utf8::encode_utf8;

use crate::address::{is_address_text, Address};
use crate::canonical::{description_text, label_text, sorted_layers};
use crate::decimal::{all_digits, decimal_value, is_u64_text, parse_u64};
use crate::documents::{
    expect_end, lemma_forces_punct, lemma_forces_some, lemma_forces_word, located, parse_address, parse_namespace,
    parse_version, punct_follows, ParseError,
};
use crate::lexer::{blanks, failure, slice_chars, string_from, token_fits, Cursor, Failure, TokenKind};
use crate::map::{strictly_increasing, OrderedMap};
use crate::model::{core_addresses, Block, Connection, CoreGraph, Description, ExtensionParameter, ExtensionValue, Group, Port};
use crate::projection::{Check, Decoration, ExpectedCardinality, Layer, LayerFile, LayerInput, Projection, SchemaUse, SelectItem};
use crate::reading::{lemma_text_char, lemma_text_split, plain_word, text_at, word_ends};
use crate::schemas::{is_known_namespace, known_namespace};
use crate::serialize::{indentation, quoted};
use crate::text::{char_is_digit, chars_of, is_digit, owned, push_str, str_eq, string_of};
use crate::value::{
    decimal_double, double_integer, field_names, lemma_fields_ordered, lemma_items_ordered, value_ordered, FiniteNumber, Value,
};
use crate::version::Version;

verus! {

/// What identifies a layer input: the core, or a layer's name.
pub open spec fn input_key(input: LayerInput) -> Option<Seq<char>> {
    match input {
        LayerInput::Core => None,
        LayerInput::Layer(name) => Some(name@),
    }
}

/// No input is declared twice.
pub open spec fn inputs_distinct(inputs: Seq<LayerInput>) -> bool {
    forall|i: int, j: int| 0 <= i < j < inputs.len() ==> input_key(#[trigger] inputs[i]) != input_key(#[trigger] inputs[j])
}

/// A word that starts like a number.
pub open spec fn numeric_word(w: Seq<char>) -> bool {
    w.len() > 0 && (is_digit(w[0]) || ((w[0] == '-' || w[0] == '+') && w.len() > 1 && is_digit(w[1])))
}

fn is_numeric_word(w: &Vec<char>) -> (b: bool)
    ensures
        b == numeric_word(w@),
{
    w.len() > 0 && (char_is_digit(w[0]) || ((w[0] == '-' || w[0] == '+') && w.len() > 1 && char_is_digit(
        w[1],
    )))
}

/// `w` is digits up to a point at `p`, and only zeros after it, at least one.
pub open spec fn whole_with_zero_fraction(w: Seq<char>, p: int) -> bool {
    &&& 0 < p
    &&& p + 1 < w.len()
    &&& w[p] == '.'
    &&& all_digits(w.take(p))
    &&& forall|i: int| p < i < w.len() ==> #[trigger] w[i] == '0'
}

/// What a number word denotes: `Some((true, v))` is the finite number `v`,
/// `Some((false, v))` the positive integer `v`. Zero is a finite number, and so
/// is a whole number written with a fraction of zeros, up to 2^53.
pub open spec fn number_literal(w: Seq<char>) -> Option<(bool, nat)> {
    if is_u64_text(w) {
        if decimal_value(w) == 0 {
            Some((true, 0))
        } else {
            Some((false, decimal_value(w)))
        }
    } else if exists|p: int| whole_with_zero_fraction(w, p) {
        let p = choose|p: int| whole_with_zero_fraction(w, p);
        if decimal_value(w.take(p)) < 0x20_0000_0000_0000 {
            Some((true, decimal_value(w.take(p))))
        } else {
            None
        }
    } else {
        None
    }
}

/// `w` is digits, a point at `p`, and digits again, at least one on each side.
pub open spec fn fraction_at(w: Seq<char>, p: int) -> bool {
    &&& 0 < p
    &&& p + 1 < w.len()
    &&& w[p] == '.'
    &&& all_digits(w.take(p))
    &&& all_digits(w.skip(p + 1))
}

/// A decimal fraction `digits.digits` as `(m, k)`: its digits read as one
/// integer `m`, and `k` of them after the point, so that its value is
/// `m / 10^k`.
pub open spec fn fraction_literal(w: Seq<char>) -> Option<(nat, nat)> {
    if exists|p: int| fraction_at(w, p) {
        let p = choose|p: int| fraction_at(w, p);
        Some((decimal_value(w.take(p) + w.skip(p + 1)), (w.len() - p - 1) as nat))
    } else {
        None
    }
}

/// What a number word that is no whole number reads as: the double nearest a
/// decimal fraction with at most 22 digits after the point whose digits
/// make a nonzero integer below 2^53.
pub open spec fn fraction_reading(w: Seq<char>, r: Option<Value>) -> bool {
    match fraction_literal(w) {
        Some((m, k)) => if 0 < m < 0x20_0000_0000_0000 && k <= 22 {
            r matches Some(Value::Number(x)) && decimal_double(x.spec_bits(), m, k)
        } else {
            r is None
        },
        None => r is None,
    }
}

/// The value of a decimal fraction whose first point is at `p`.
fn fraction_value(w: &Vec<char>, p: usize) -> (r: Option<Value>)
    requires
        p < w@.len(),
        w@[p as int] == '.',
        forall|i: int| 0 <= i < p ==> w@[i] != '.',
    ensures
        fraction_reading(w@, r),
{
    proof {
        assert forall|q: int| #[trigger] fraction_at(w@, q) implies q == p by {
            if q < p {
                assert(w@[q] != '.');
            } else if p < q {
                assert(w@.take(q)[p as int] == w@[p as int]);
                assert(is_digit(w@.take(q)[p as int]));
            }
        }
    }
    if p == 0 || w.len() - p < 2 {
        return None;
    }
    let mut digits: Vec<char> = Vec::new();
    let mut i: usize = 0;
    while i < w.len()
        invariant
            0 < p,
            p + 1 < w@.len(),
            i <= w@.len(),
            i <= p ==> digits@ == w@.take(i as int),
            i > p ==> digits@ == w@.take(p as int) + w@.subrange(p + 1, i as int),
            forall|j: int| 0 <= j < i && j != p ==> is_digit(#[trigger] w@[j]),
            forall|q: int| #[trigger] fraction_at(w@, q) ==> q == p,
        decreases w@.len() - i,
    {
        if i != p {
            if !char_is_digit(w[i]) {
                proof {
                    if fraction_at(w@, p as int) {
                        if i < p {
                            assert(w@.take(p as int)[i as int] == w@[i as int]);
                        } else {
                            assert(w@.skip(p + 1)[i - p - 1] == w@[i as int]);
                        }
                    }
                    assert(!fraction_at(w@, p as int));
                    assert(!exists|q: int| fraction_at(w@, q));
                }
                return None;
            }
            let ghost before = digits@;
            digits.push(w[i]);
            proof {
                if i < p {
                    assert(digits@ =~= w@.take(i + 1));
                } else {
                    assert(digits@ =~= w@.take(p as int) + w@.subrange(p + 1, i + 1));
                }
            }
        } else {
            proof {
                assert(w@.take(p as int) + w@.subrange(p + 1, p + 1) =~= w@.take(p as int));
            }
        }
        i = i + 1;
    }
    proof {
        assert(w@.subrange(p + 1, w@.len() as int) =~= w@.skip(p + 1));
        assert forall|j: int| 0 <= j < w@.take(p as int).len() implies is_digit(#[trigger] w@.take(p as int)[j]) by {
            assert(w@.take(p as int)[j] == w@[j]);
        }
        assert forall|j: int| 0 <= j < w@.skip(p + 1).len() implies is_digit(#[trigger] w@.skip(p + 1)[j]) by {
            assert(w@.skip(p + 1)[j] == w@[p + 1 + j]);
        }
        assert(fraction_at(w@, p as int));
        assert forall|j: int| 0 <= j < digits@.len() implies is_digit(#[trigger] digits@[j]) by {
            if j < p {
                assert(digits@[j] == w@[j]);
            } else {
                assert(digits@[j] == w@[j + 1]);
            }
        }
    }
    let k = w.len() - p - 1;
    match parse_u64(digits.as_slice()) {
        Some(m) => {
            if 0 < m && m < 0x20_0000_0000_0000u64 && k <= 22 {
                Some(Value::Number(FiniteNumber::from_decimal(m, k as u64)))
            } else {
                None
            }
        },
        None => None,
    }
}

/// The value of a number word, as `number_literal` describes it.
fn number_literal_value(w: &Vec<char>) -> (r: Option<Value>)
    ensures
        match number_literal(w@) {
            Some((true, n)) => r matches Some(Value::Number(x)) && double_integer(x.spec_bits()) == Some((false, n)),
            Some((false, n)) => r == Some(Value::PositiveInteger(n as u64)),
            None => fraction_reading(w@, r),
        },
{
    match parse_u64(w.as_slice()) {
        Some(0) => {
            return Some(Value::Number(FiniteNumber::from_integer(0)));
        },
        Some(n) => {
            return Some(Value::PositiveInteger(n));
        },
        None => {},
    }
    let mut p: usize = 0;
    while p < w.len() && w[p] != '.'
        invariant
            p <= w@.len(),
            forall|i: int| 0 <= i < p ==> w@[i] != '.',
            !is_u64_text(w@),
        decreases w@.len() - p,
    {
        p = p + 1;
    }
    proof {
        assert forall|q: int| #[trigger] whole_with_zero_fraction(w@, q) implies q == p by {
            if q < p {
                assert(w@[q] != '.');
            } else if p < q {
                assert(w@.take(q)[p as int] == w@[p as int]);
                assert(is_digit(w@.take(q)[p as int]));
            }
        }
    }
    if p == w.len() {
        proof {
            assert forall|q: int| !#[trigger] fraction_at(w@, q) by {
                if fraction_at(w@, q) {
                    assert(w@[q] != '.');
                }
            }
        }
        return None;
    }
    if p == 0 || w.len() - p < 2 {
        return fraction_value(w, p);
    }
    let mut i: usize = p + 1;
    while i < w.len()
        invariant
            p < i <= w@.len(),
            w@[p as int] == '.',
            forall|j: int| 0 <= j < p ==> w@[j] != '.',
            forall|j: int| p < j < i ==> #[trigger] w@[j] == '0',
            forall|q: int| #[trigger] whole_with_zero_fraction(w@, q) ==> q == p,
            !is_u64_text(w@),
        decreases w@.len() - i,
    {
        if w[i] != '0' {
            proof {
                assert(w@[i as int] != '0');
                assert(!whole_with_zero_fraction(w@, p as int));
            }
            return fraction_value(w, p);
        }
        i = i + 1;
    }
    let whole = slice_chars(w, 0, p);
    assert(whole@ =~= w@.take(p as int));
    match parse_u64(whole.as_slice()) {
        Some(n) => {
            proof {
                assert(whole_with_zero_fraction(w@, p as int));
            }
            if n < 0x20_0000_0000_0000u64 {
                Some(Value::Number(FiniteNumber::from_integer(n)))
            } else {
                fraction_value(w, p)
            }
        },
        None => {
            proof {
                if whole_with_zero_fraction(w@, p as int) {
                    assert(decimal_value(w@.take(p as int)) > u64::MAX);
                }
            }
            fraction_value(w, p)
        },
    }
}

fn has_name(pairs: &Vec<(String, Value)>, name: &str) -> (b: bool)
    ensures
        b == field_names(pairs@).contains(name@),
{
    let mut i: usize = 0;
    while i < pairs.len()
        invariant
            i <= pairs@.len(),
            forall|j: int| 0 <= j < i ==> pairs@[j].0@ != name@,
        decreases pairs@.len() - i,
    {
        if str_eq(pairs[i].0.as_str(), name) {
            proof {
                assert(field_names(pairs@)[i as int] == name@);
            }
            return true;
        }
        i = i + 1;
    }
    proof {
        if field_names(pairs@).contains(name@) {
            let j = choose|j: int| 0 <= j < pairs@.len() && #[trigger] field_names(pairs@)[j] == name@;
            assert(pairs@[j].0@ == name@);
        }
    }
    false
}

fn named_failure(at: usize, prefix: &str, name: &str) -> (f: Failure)
    ensures
        f.at == at,
{
    let mut message = owned(prefix);
    push_str(&mut message, " `");
    push_str(&mut message, name);
    push_str(&mut message, "`");
    Failure { at, message }
}

/// Parses one typed value.
pub fn parse_value(c: &mut Cursor) -> (r: Result<Value, Failure>)
    requires
        old(c).wf(),
    ensures
        final(c).source() == old(c).source(),
        r is Ok ==> final(c).wf() && final(c).remaining() < old(c).remaining(),
        r matches Ok(v) ==> value_ordered(v),
        r matches Err(f) ==> f.at <= old(c).source().len(),
    decreases old(c).remaining(),
{
    let at = c.at();
    match c.kind() {
        TokenKind::Text => {
            let text = c.take_text()?;
            match text {
                Some(t) => Ok(Value::Text(t)),
                None => Err(c.error("expected a string")),
            }
        },
        TokenKind::LeftBrace => {
            c.advance()?;
            let mut pairs: Vec<(String, Value)> = Vec::new();
            if c.kind() != TokenKind::RightBrace {
                let mut more = true;
                while more
                    invariant
                        c.wf(),
                        c.source() == old(c).source(),
                        c.remaining() < old(c).remaining(),
                        forall|j: int| 0 <= j < pairs@.len() ==> value_ordered(#[trigger] pairs@[j].1),
                    decreases c.remaining(),
                {
                    let name_at = c.at();
                    let name = c.take_word()?;
                    if has_name(&pairs, name.as_str()) {
                        return Err(named_failure(name_at, "duplicate product field", name.as_str()));
                    }
                    c.expect(TokenKind::Colon)?;
                    let value = parse_value(c)?;
                    pairs.push((name, value));
                    if c.kind() == TokenKind::Comma {
                        c.advance()?;
                    } else {
                        more = false;
                    }
                }
            }
            c.expect(TokenKind::RightBrace)?;
            proof {
                lemma_fields_ordered(pairs@);
            }
            Ok(Value::product(pairs))
        },
        TokenKind::LeftBracket => {
            c.advance()?;
            let mut items: Vec<Value> = Vec::new();
            if c.kind() != TokenKind::RightBracket {
                let mut more = true;
                while more
                    invariant
                        c.wf(),
                        c.source() == old(c).source(),
                        c.remaining() < old(c).remaining(),
                        forall|j: int| 0 <= j < items@.len() ==> value_ordered(#[trigger] items@[j]),
                    decreases c.remaining(),
                {
                    let value = parse_value(c)?;
                    items.push(value);
                    if c.kind() == TokenKind::Comma {
                        c.advance()?;
                    } else {
                        more = false;
                    }
                }
            }
            c.expect(TokenKind::RightBracket)?;
            proof {
                lemma_items_ordered(items@);
            }
            Ok(Value::Sequence(items))
        },
        TokenKind::Word => {
            let word_chars = slice_chars(c.text(), 0, c.text().len());
            let word = c.take_word()?;
            let w = word.as_str();
            if c.kind() == TokenKind::LeftParen {
                c.advance()?;
                if str_eq(w, "ref") {
                    let address = parse_address(c)?;
                    c.expect(TokenKind::RightParen)?;
                    Ok(Value::AddressReference(address))
                } else {
                    let inner = parse_value(c)?;
                    c.expect(TokenKind::RightParen)?;
                    if str_eq(w, "present") {
                        Ok(Value::Present(Box::new(inner)))
                    } else {
                        Ok(Value::Tagged { tag: word, value: Box::new(inner) })
                    }
                }
            } else if str_eq(w, "true") {
                Ok(Value::Bool(true))
            } else if str_eq(w, "false") {
                Ok(Value::Bool(false))
            } else if str_eq(w, "absent") {
                Ok(Value::Absent)
            } else if is_numeric_word(&word_chars) {
                match number_literal_value(&word_chars) {
                    Some(v) => Ok(v),
                    None => Err(named_failure(at, "unsupported number literal", w)),
                }
            } else {
                Ok(Value::Enum(word))
            }
        },
        _ => Err(c.error("expected a value")),
    }
}

/// The source bytes from `start` up to `end`.
fn source_bytes(chars: &Vec<char>, start: usize, end: usize) -> (b: Vec<u8>)
    requires
        start <= end <= chars@.len(),
    ensures
        b@ == encode_utf8(chars@.subrange(start as int, end as int)),
{
    let piece = slice_chars(chars, start, end);
    let text = string_of(piece.as_slice());
    text.as_str().as_bytes_vec()
}

/// Parses `extension "<namespace>" <name> schema <schema> @<version> = <value>;`.
/// A recognized namespace keeps the typed value; any other keeps the
/// parameter's source text, from `extension` through `;`, as bytes.
pub fn parse_extension_parameter(c: &mut Cursor) -> (r: Result<ExtensionParameter, Failure>)
    requires
        old(c).wf(),
    ensures
        final(c).source() == old(c).source(),
        r is Ok ==> final(c).wf() && final(c).remaining() < old(c).remaining(),
        r matches Ok(p) ==> (p.value is Known <==> is_known_namespace(p.namespace@)),
        r matches Ok(p) ==> (p.value matches ExtensionValue::Known(v) ==> value_ordered(v)),
        r matches Err(f) ==> f.at <= old(c).source().len(),
{
    let start = c.at();
    c.expect_word("extension")?;
    let namespace = parse_namespace(c)?;
    let name = c.take_word()?;
    c.expect_word("schema")?;
    let schema = c.take_word()?;
    let version_at = c.at();
    if c.kind() != TokenKind::Word {
        return Err(c.error("expected a word"));
    }
    let version_chars = slice_chars(c.text(), 0, c.text().len());
    c.advance()?;
    if version_chars.len() == 0 || version_chars[0] != '@' {
        return Err(failure(version_at, "schema version requires `@`"));
    }
    let digits = slice_chars(&version_chars, 1, version_chars.len());
    let version = match Version::parse(string_of(digits.as_slice()).as_str()) {
        Ok(v) => v,
        Err(e) => {
            return Err(Failure { at: version_at, message: e.to_string() });
        },
    };
    c.expect(TokenKind::Equals)?;
    let value = parse_value(c)?;
    let end = c.end();
    c.expect(TokenKind::Semicolon)?;
    let value = if known_namespace(&namespace) {
        ExtensionValue::Known(value)
    } else {
        ExtensionValue::Opaque(source_bytes(c.chars(), start, end))
    };
    Ok(ExtensionParameter { namespace, name, schema, version, value })
}

/// Parses `extensions { <parameter>* }`.
fn parse_extensions(c: &mut Cursor) -> (r: Result<Vec<ExtensionParameter>, Failure>)
    requires
        old(c).wf(),
    ensures
        final(c).source() == old(c).source(),
        r is Ok ==> final(c).wf() && final(c).remaining() < old(c).remaining(),
        r matches Err(f) ==> f.at <= old(c).source().len(),
{
    c.expect_word("extensions")?;
    c.expect(TokenKind::LeftBrace)?;
    let mut extensions: Vec<ExtensionParameter> = Vec::new();
    while c.at_word("extension")
        invariant
            c.wf(),
            c.source() == old(c).source(),
            c.remaining() < old(c).remaining(),
        decreases c.remaining(),
    {
        let p = parse_extension_parameter(c)?;
        extensions.push(p);
    }
    c.expect(TokenKind::RightBrace)?;
    Ok(extensions)
}

/// Parses the extensions block that may follow an element, if there is one.
fn optional_extensions(c: &mut Cursor) -> (r: Result<Vec<ExtensionParameter>, Failure>)
    requires
        old(c).wf(),
    ensures
        final(c).source() == old(c).source(),
        r is Ok ==> final(c).wf() && final(c).remaining() <= old(c).remaining(),
        !(old(c).current_kind() == TokenKind::Word && old(c).current_text() == "extensions"@) ==> (r matches Ok(v)
            && v@.len() == 0 && *final(c) == *old(c)),
        old(c).current_kind() == TokenKind::Word && old(c).current_text() == "extensions"@ ==> (r is Ok
            ==> final(c).remaining() < old(c).remaining()),
        r matches Err(f) ==> f.at <= old(c).source().len(),
{
    if c.at_word("extensions") {
        parse_extensions(c)
    } else {
        Ok(Vec::new())
    }
}

/// Parses a block after its keyword: address, name, ports and extensions.
/// The token read right after a port's address is its label when it has one,
/// and is not a string when it has none.
pub open spec fn label_token_matches(label: Option<String>, t: (TokenKind, Seq<char>, int, int)) -> bool {
    match label {
        Some(l) => t.0 == TokenKind::Text && t.1 == l@,
        None => t.0 != TokenKind::Text,
    }
}

/// The port stands in `src` as written: somewhere the word `port` is
/// followed by the port's address as the next token, and the token read
/// right after that address matches the port's label.
pub open spec fn port_as_written(src: Seq<char>, p: Port) -> bool {
    exists|k: int, s0: int, e: int, t: (TokenKind, Seq<char>, int, int)|
        #![trigger src.subrange(k, k + 4), token_fits(src, k + 4, Some((TokenKind::Word, p.address@, s0, e))), token_fits(src, e, Some(t))]
        0 <= k && k + 4 <= src.len() && src.subrange(k, k + 4) == "port"@ && token_fits(
            src,
            k + 4,
            Some((TokenKind::Word, p.address@, s0, e)),
        ) && token_fits(src, e, Some(t)) && label_token_matches(p.label, t)
}

/// Read as the port's label: where only blanks stand between the end of a
/// port's address and a well-formed string, the port's label is that string;
/// where a punctuation character stands there instead, the port has no label.
pub proof fn law_port_label_is_the_string_that_follows(
    src: Seq<char>,
    label: Option<String>,
    e: int,
    q: int,
    t: (TokenKind, Seq<char>, int, int),
)
    requires
        token_fits(src, e, Some(t)),
        label_token_matches(label, t),
        blanks(src, e, q),
        q < src.len(),
    ensures
        src[q] == '"' && string_from(src, q + 1) is Some ==> (label matches Some(l) && l@ == (string_from(
            src,
            q + 1,
        )->0).0),
        crate::lexer::punctuation(src[q]) is Some ==> label is None,
{
    reveal(token_fits);
}

/// Every port of the block stands in `src` as written.
pub open spec fn ports_as_written(src: Seq<char>, b: Block) -> bool {
    forall|q: Seq<char>| #[trigger] b.ports.lookup(q) matches Some(p) ==> port_as_written(src, p)
}

/// The block's name stands in `src` as written: the token read right after
/// its address is the string of its name.
pub open spec fn name_as_written(src: Seq<char>, b: Block) -> bool {
    exists|s0: int, e: int, t: (TokenKind, Seq<char>, int, int)|
        #![trigger src.subrange(s0, e), token_fits(src, e, Some(t))]
        0 <= s0 <= e <= src.len() && src.subrange(s0, e) == b.address@ && token_fits(src, e, Some(t)) && t.0
            == TokenKind::Text && t.1 == b.name@
}

/// The block's name and every one of its ports stand in `src` as written.
pub open spec fn block_as_written(src: Seq<char>, b: Block) -> bool {
    name_as_written(src, b) && ports_as_written(src, b)
}

/// Every block of the core graph stands in `src` as written.
pub open spec fn core_blocks_as_written(src: Seq<char>, core: CoreGraph) -> bool {
    forall|q: Seq<char>| #[trigger] core.blocks.lookup(q) matches Some(b) ==> block_as_written(src, b)
}

fn parse_block(c: &mut Cursor) -> (r: Result<Block, Failure>)
    requires
        old(c).wf(),
    ensures
        final(c).source() == old(c).source(),
        r is Ok ==> final(c).wf() && final(c).remaining() < old(c).remaining(),
        r matches Err(f) ==> f.at <= old(c).source().len(),
        r matches Ok(b) ==> block_as_written(old(c).source(), b),
{
    let ghost src = c.source();
    let ghost start = *c;
    proof {
        if c.current_kind() == TokenKind::Word {
            c.lemma_word_spans();
        }
    }
    let address = parse_address(c)?;
    let ghost t = c.token();
    let name = match c.take_text()? {
        Some(name) => name,
        None => {
            return Err(c.error("block requires a human name"));
        },
    };
    proof {
        let s0 = start.current_start();
        let e = start.current_end();
        assert(src.subrange(s0, e) == address@);
        assert(token_fits(src, e, Some(t)));
    }
    c.expect(TokenKind::LeftBrace)?;
    let mut ports: OrderedMap<Address, Port> = OrderedMap::new();
    while c.at_word("port")
        invariant
            c.wf(),
            c.source() == old(c).source(),
            c.remaining() < old(c).remaining(),
            src == old(c).source(),
            forall|q: Seq<char>| #[trigger] ports.lookup(q) matches Some(p) ==> port_as_written(src, p),
        decreases c.remaining(),
    {
        let ghost keyword = *c;
        proof {
            c.lemma_word_spans();
            reveal_strlit("port");
        }
        c.advance()?;
        let ghost before = *c;
        let port_address = parse_address(c)?;
        let ghost t = c.token();
        let label = c.take_text()?;
        proof {
            let k = keyword.current_start();
            let e = before.current_end();
            assert(keyword.source() == src);
            assert(keyword.current_text() == "port"@);
            assert("port"@.len() == 4);
            assert(src.subrange(k, keyword.current_end()).len() == keyword.current_end() - k);
            assert(keyword.current_end() == k + 4);
            assert(src.subrange(k, k + 4) == "port"@);
            assert(token_fits(src, k + 4, Some(before.token())));
            assert(before.token() == (TokenKind::Word, port_address@, before.current_start(), e));
            assert(token_fits(src, e, Some(t)));
            assert(label_token_matches(label, t));
        }
        let extensions = if c.kind() == TokenKind::Semicolon {
            Vec::new()
        } else {
            parse_extensions(c)?
        };
        let at = c.at();
        c.expect(TokenKind::Semicolon)?;
        let key = port_address.clone();
        let ghost port = Port { address: port_address, label, extensions };
        proof {
            assert(port_as_written(src, port));
        }
        if !ports.insert_new(key, Port { address: port_address, label, extensions }) {
            return Err(failure(at, "duplicate port address"));
        }
    }
    let extensions = optional_extensions(c)?;
    c.expect(TokenKind::RightBrace)?;
    let ghost block = Block { address, name, ports, extensions };
    proof {
        let s0 = start.current_start();
        let e = start.current_end();
        assert(src.subrange(s0, e) == block.address@ && token_fits(src, e, Some(t)));
        assert(name_as_written(src, block));
    }
    Ok(Block { address, name, ports, extensions })
}

/// Parses a connection after its keyword: `<address> <source> -> <destination>`,
/// then `;` or extensions and `;`.
fn parse_connection(c: &mut Cursor) -> (r: Result<Connection, Failure>)
    requires
        old(c).wf(),
    ensures
        final(c).source() == old(c).source(),
        r is Ok ==> final(c).wf() && final(c).remaining() < old(c).remaining(),
        r matches Err(f) ==> f.at <= old(c).source().len(),
{
    let address = parse_address(c)?;
    let source = parse_address(c)?;
    c.expect(TokenKind::Arrow)?;
    let destination = parse_address(c)?;
    let extensions = if c.kind() == TokenKind::Semicolon {
        Vec::new()
    } else {
        parse_extensions(c)?
    };
    c.expect(TokenKind::Semicolon)?;
    Ok(Connection { address, label: None, source, destination, extensions })
}

/// Parses `<address> (, <address>)*`.
fn parse_address_list(c: &mut Cursor) -> (r: Result<Vec<Address>, Failure>)
    requires
        old(c).wf(),
    ensures
        final(c).source() == old(c).source(),
        r is Ok ==> final(c).wf() && final(c).remaining() < old(c).remaining(),
        r matches Err(f) ==> f.at <= old(c).source().len(),
{
    let mut addresses: Vec<Address> = Vec::new();
    let first = parse_address(c)?;
    addresses.push(first);
    while c.kind() == TokenKind::Comma
        invariant
            c.wf(),
            c.source() == old(c).source(),
            c.remaining() < old(c).remaining(),
        decreases c.remaining(),
    {
        c.advance()?;
        let next = parse_address(c)?;
        addresses.push(next);
    }
    Ok(addresses)
}

/// Parses a group after its keyword: address, label, members and extensions.
fn parse_group(c: &mut Cursor) -> (r: Result<Group, Failure>)
    requires
        old(c).wf(),
    ensures
        final(c).source() == old(c).source(),
        r is Ok ==> final(c).wf() && final(c).remaining() < old(c).remaining(),
        r matches Err(f) ==> f.at <= old(c).source().len(),
{
    let address = parse_address(c)?;
    let label = c.take_text()?;
    c.expect(TokenKind::LeftBrace)?;
    let members = if c.kind() != TokenKind::RightBrace && !c.at_word("extensions") {
        let members = parse_address_list(c)?;
        c.expect(TokenKind::Semicolon)?;
        members
    } else {
        Vec::new()
    };
    let extensions = optional_extensions(c)?;
    c.expect(TokenKind::RightBrace)?;
    Ok(Group { address, label, members, extensions })
}

/// Parses `core { ... }`, keyed by address; a repeated address of one kind
/// fails.
fn parse_core(c: &mut Cursor, Ghost(at): Ghost<Option<int>>) -> (r: Result<CoreGraph, Failure>)
    requires
        old(c).wf(),
        at matches Some(p) ==> text_at(old(c).source(), p, "core {\n    }"@) && old(c).token() == (
            TokenKind::Word,
            "core"@,
            p,
            p + 4,
        ) && punct_follows(old(c).source(), p + 12),
    ensures
        final(c).source() == old(c).source(),
        r is Ok ==> final(c).wf() && final(c).remaining() < old(c).remaining(),
        r matches Err(f) ==> f.at <= old(c).source().len(),
        r matches Ok(g) ==> core_blocks_as_written(old(c).source(), g),
        at matches Some(p) ==> (r matches Ok(g) && g.blocks.entries().len() == 0 && g.connections.entries().len() == 0
            && g.groups.entries().len() == 0 && token_fits(old(c).source(), p + 12, Some(final(c).token()))),
{
    let ghost src = c.source();
    let ghost p = match at {
        Some(x) => x,
        None => 0int,
    };
    proof {
        if at is Some {
            reveal_strlit("core {\n    }");
            let lit = "core {\n    }"@;
            assert forall|i: int| 0 <= i < 12 implies src[p + i] == lit[i] by {
                lemma_text_char(src, p, lit, i);
            }
            assert(src[p + 4] == lit[4] && lit[4] == ' ');
            assert(src[p + 5] == lit[5] && lit[5] == '{');
            assert(src[p + 6] == lit[6] && lit[6] == '\n');
            assert(src[p + 7] == lit[7] && lit[7] == ' ');
            assert(src[p + 8] == lit[8] && lit[8] == ' ');
            assert(src[p + 9] == lit[9] && lit[9] == ' ');
            assert(src[p + 10] == lit[10] && lit[10] == ' ');
            assert(src[p + 11] == lit[11] && lit[11] == '}');
            assert(blanks(src, p + 4, p + 5));
            lemma_forces_punct(src, p + 4, p + 5);
            assert(blanks(src, p + 6, p + 11));
            lemma_forces_punct(src, p + 6, p + 11);
            lemma_forces_some(src, p + 12);
        }
    }
    c.expect_word("core")?;
    c.expect(TokenKind::LeftBrace)?;
    let mut core = CoreGraph::new();
    while c.kind() != TokenKind::RightBrace && c.kind() != TokenKind::End
        invariant
            c.wf(),
            c.source() == old(c).source(),
            c.remaining() < old(c).remaining(),
            at matches Some(p) ==> c.token() == (TokenKind::RightBrace, Seq::<char>::empty(), p + 11, p + 12),
            at is Some ==> core.blocks.entries().len() == 0 && core.connections.entries().len() == 0
                && core.groups.entries().len() == 0,
            src == old(c).source(),
            core_blocks_as_written(src, core),
        decreases c.remaining(),
    {
        let at = c.at();
        let keyword = c.take_word()?;
        let k = keyword.as_str();
        if str_eq(k, "block") {
            let block = parse_block(c)?;
            let key = block.address.clone();
            if !core.blocks.insert_new(key, block) {
                return Err(failure(c.at(), "duplicate block address"));
            }
        } else if str_eq(k, "connection") {
            let connection = parse_connection(c)?;
            let key = connection.address.clone();
            if !core.connections.insert_new(key, connection) {
                return Err(failure(c.at(), "duplicate connection address"));
            }
        } else if str_eq(k, "group") {
            let group = parse_group(c)?;
            let key = group.address.clone();
            if !core.groups.insert_new(key, group) {
                return Err(failure(c.at(), "duplicate group address"));
            }
        } else {
            return Err(named_failure(at, "unexpected core keyword", k));
        }
    }
    c.expect(TokenKind::RightBrace)?;
    Ok(core)
}

fn has_input(inputs: &Vec<LayerInput>, input: &LayerInput) -> (b: bool)
    ensures
        b == exists|j: int| 0 <= j < inputs@.len() && input_key(#[trigger] inputs@[j]) == input_key(*input),
{
    let mut i: usize = 0;
    while i < inputs.len()
        invariant
            i <= inputs@.len(),
            forall|j: int| 0 <= j < i ==> input_key(#[trigger] inputs@[j]) != input_key(*input),
        decreases inputs@.len() - i,
    {
        let same = match (&inputs[i], input) {
            (LayerInput::Core, LayerInput::Core) => true,
            (LayerInput::Layer(a), LayerInput::Layer(b)) => str_eq(a.as_str(), b.as_str()),
            _ => false,
        };
        if same {
            return true;
        }
        i = i + 1;
    }
    false
}

/// Parses `inputs { <input> (, <input>)* };`; an input named twice fails.
fn parse_inputs(c: &mut Cursor) -> (r: Result<Vec<LayerInput>, Failure>)
    requires
        old(c).wf(),
    ensures
        final(c).source() == old(c).source(),
        r is Ok ==> final(c).wf() && final(c).remaining() < old(c).remaining(),
        r matches Ok(v) ==> inputs_distinct(v@),
        r matches Err(f) ==> f.at <= old(c).source().len(),
{
    c.expect_word("inputs")?;
    c.expect(TokenKind::LeftBrace)?;
    let mut inputs: Vec<LayerInput> = Vec::new();
    if c.kind() != TokenKind::RightBrace {
        let mut more = true;
        while more
            invariant
                c.wf(),
                c.source() == old(c).source(),
                c.remaining() < old(c).remaining(),
                inputs_distinct(inputs@),
            decreases c.remaining(),
        {
            let at = c.at();
            let input = if c.at_word("core") {
                c.advance()?;
                LayerInput::Core
            } else {
                match c.take_text()? {
                    Some(name) => LayerInput::Layer(name),
                    None => {
                        return Err(c.error("expected `core` or a layer name"));
                    },
                }
            };
            if has_input(&inputs, &input) {
                return Err(failure(at, "duplicate layer input"));
            }
            inputs.push(input);
            if c.kind() == TokenKind::Comma {
                c.advance()?;
            } else {
                more = false;
            }
        }
    }
    c.expect(TokenKind::RightBrace)?;
    c.expect(TokenKind::Semicolon)?;
    Ok(inputs)
}

/// Parses a word `@<version>`.
fn parse_at_version(c: &mut Cursor) -> (r: Result<Version, Failure>)
    requires
        old(c).wf(),
    ensures
        final(c).source() == old(c).source(),
        r is Ok ==> final(c).wf() && final(c).remaining() < old(c).remaining(),
        r matches Err(f) ==> f.at <= old(c).source().len(),
{
    let at = c.at();
    if c.kind() != TokenKind::Word {
        return Err(c.error("expected a word"));
    }
    let word = slice_chars(c.text(), 0, c.text().len());
    c.advance()?;
    if word.len() == 0 || word[0] != '@' {
        return Err(failure(at, "schema version requires `@`"));
    }
    let digits = slice_chars(&word, 1, word.len());
    match Version::parse(string_of(digits.as_slice()).as_str()) {
        Ok(v) => Ok(v),
        Err(e) => Err(Failure { at, message: e.to_string() }),
    }
}

/// Parses `consumes { projection-language <version>; schemas { ... } }`.
fn parse_consumes(c: &mut Cursor) -> (r: Result<(Version, Vec<SchemaUse>), Failure>)
    requires
        old(c).wf(),
    ensures
        final(c).source() == old(c).source(),
        r is Ok ==> final(c).wf() && final(c).remaining() < old(c).remaining(),
        r matches Err(f) ==> f.at <= old(c).source().len(),
{
    c.expect_word("consumes")?;
    c.expect(TokenKind::LeftBrace)?;
    c.expect_word("projection-language")?;
    let language = parse_version(c)?;
    c.expect(TokenKind::Semicolon)?;
    c.expect_word("schemas")?;
    c.expect(TokenKind::LeftBrace)?;
    let mut schemas: Vec<SchemaUse> = Vec::new();
    while c.kind() == TokenKind::Text
        invariant
            c.wf(),
            c.source() == old(c).source(),
            c.remaining() < old(c).remaining(),
        decreases c.remaining(),
    {
        let namespace = parse_namespace(c)?;
        c.expect_word("/")?;
        let name = c.take_word()?;
        let version = parse_at_version(c)?;
        c.expect(TokenKind::Semicolon)?;
        schemas.push(SchemaUse { namespace, name, version });
    }
    c.expect(TokenKind::RightBrace)?;
    c.expect(TokenKind::RightBrace)?;
    Ok((language, schemas))
}

/// Parses `select { ... }`.
fn parse_select(c: &mut Cursor) -> (r: Result<Vec<SelectItem>, Failure>)
    requires
        old(c).wf(),
    ensures
        final(c).source() == old(c).source(),
        r is Ok ==> final(c).wf() && final(c).remaining() < old(c).remaining(),
        r matches Err(f) ==> f.at <= old(c).source().len(),
{
    c.expect_word("select")?;
    c.expect(TokenKind::LeftBrace)?;
    let mut items: Vec<SelectItem> = Vec::new();
    while c.kind() != TokenKind::RightBrace && c.kind() != TokenKind::End
        invariant
            c.wf(),
            c.source() == old(c).source(),
            c.remaining() < old(c).remaining(),
        decreases c.remaining(),
    {
        let at = c.at();
        let keyword = c.take_word()?;
        let k = keyword.as_str();
        if str_eq(k, "use") {
            let addresses = parse_address_list(c)?;
            c.expect(TokenKind::Semicolon)?;
            items.push(SelectItem::Use(addresses));
        } else if str_eq(k, "block") {
            let block = parse_block(c)?;
            items.push(SelectItem::GenerateBlock(block));
        } else if str_eq(k, "connection") {
            let connection = parse_connection(c)?;
            items.push(SelectItem::GenerateConnection(connection));
        } else if str_eq(k, "group") {
            let group = parse_group(c)?;
            items.push(SelectItem::GenerateGroup(group));
        } else {
            return Err(named_failure(at, "unexpected select keyword", k));
        }
    }
    c.expect(TokenKind::RightBrace)?;
    Ok(items)
}

/// Parses `checks { check <name> expect (empty|nonempty) over "<ns>" <parameter>; ... }`.
fn parse_checks(c: &mut Cursor) -> (r: Result<Vec<Check>, Failure>)
    requires
        old(c).wf(),
    ensures
        final(c).source() == old(c).source(),
        r is Ok ==> final(c).wf() && final(c).remaining() < old(c).remaining(),
        r matches Err(f) ==> f.at <= old(c).source().len(),
{
    c.expect_word("checks")?;
    c.expect(TokenKind::LeftBrace)?;
    let mut checks: Vec<Check> = Vec::new();
    while c.at_word("check")
        invariant
            c.wf(),
            c.source() == old(c).source(),
            c.remaining() < old(c).remaining(),
        decreases c.remaining(),
    {
        c.advance()?;
        let name = c.take_word()?;
        c.expect_word("expect")?;
        let at = c.at();
        let cardinality = c.take_word()?;
        let expected = if str_eq(cardinality.as_str(), "empty") {
            ExpectedCardinality::Empty
        } else if str_eq(cardinality.as_str(), "nonempty") {
            ExpectedCardinality::Nonempty
        } else {
            return Err(named_failure(at, "unknown check cardinality", cardinality.as_str()));
        };
        c.expect_word("over")?;
        let namespace = parse_namespace(c)?;
        let parameter = c.take_word()?;
        c.expect(TokenKind::Semicolon)?;
        checks.push(Check { name, expected, namespace, parameter });
    }
    c.expect(TokenKind::RightBrace)?;
    Ok(checks)
}

/// Parses `projection { select {..} [invert {..}] [decorate {..}] [checks {..}] }`,
/// the stages in that order.
fn parse_projection(c: &mut Cursor) -> (r: Result<Projection, Failure>)
    requires
        old(c).wf(),
    ensures
        final(c).source() == old(c).source(),
        r is Ok ==> final(c).wf() && final(c).remaining() < old(c).remaining(),
        r matches Err(f) ==> f.at <= old(c).source().len(),
{
    c.expect_word("projection")?;
    c.expect(TokenKind::LeftBrace)?;
    let select = parse_select(c)?;
    let mut invert: Vec<Address> = Vec::new();
    if c.at_word("invert") {
        c.advance()?;
        c.expect(TokenKind::LeftBrace)?;
        while c.at_word("group")
            invariant
                c.wf(),
                c.source() == old(c).source(),
                c.remaining() < old(c).remaining(),
            decreases c.remaining(),
        {
            c.advance()?;
            let group = parse_address(c)?;
            c.expect(TokenKind::Semicolon)?;
            invert.push(group);
        }
        c.expect(TokenKind::RightBrace)?;
    }
    let mut decorate: Vec<Decoration> = Vec::new();
    if c.at_word("decorate") {
        c.advance()?;
        c.expect(TokenKind::LeftBrace)?;
        while c.at_word("on")
            invariant
                c.wf(),
                c.source() == old(c).source(),
                c.remaining() < old(c).remaining(),
            decreases c.remaining(),
        {
            c.advance()?;
            let target = parse_address(c)?;
            let parameter = parse_extension_parameter(c)?;
            decorate.push(Decoration { target, parameter });
        }
        c.expect(TokenKind::RightBrace)?;
    }
    let checks = if c.at_word("checks") {
        parse_checks(c)?
    } else {
        Vec::new()
    };
    c.expect(TokenKind::RightBrace)?;
    Ok(Projection { select, invert, decorate, checks })
}

/// Parses a layer after its keyword.
fn parse_layer(c: &mut Cursor) -> (r: Result<Layer, Failure>)
    requires
        old(c).wf(),
    ensures
        final(c).source() == old(c).source(),
        r is Ok ==> final(c).wf() && final(c).remaining() < old(c).remaining(),
        r matches Ok(l) ==> inputs_distinct(l.inputs@),
        r matches Err(f) ==> f.at <= old(c).source().len(),
{
    let name = match c.take_text()? {
        Some(name) => name,
        None => {
            return Err(c.error("layer requires a name string"));
        },
    };
    c.expect(TokenKind::LeftBrace)?;
    let inputs = parse_inputs(c)?;
    let (projection_language, schemas) = parse_consumes(c)?;
    let projection = parse_projection(c)?;
    c.expect(TokenKind::RightBrace)?;
    Ok(Layer { name, inputs, projection_language, schemas, projection })
}

/// No text occurs twice.
pub open spec fn texts_distinct(s: Seq<Seq<char>>) -> bool {
    forall|i: int, j: int| 0 <= i < j < s.len() ==> #[trigger] s[i] != #[trigger] s[j]
}

/// The first repeated address, if any.
fn first_duplicate(addresses: &Vec<&Address>) -> (r: Option<usize>)
    ensures
        r is None <==> texts_distinct(addresses@.map_values(|a: &Address| a@)),
        r matches Some(i) ==> i < addresses@.len(),
{
    let ghost views = addresses@.map_values(|a: &Address| a@);
    let mut i: usize = 0;
    while i < addresses.len()
        invariant
            i <= addresses@.len(),
            views == addresses@.map_values(|a: &Address| a@),
            texts_distinct(views.take(i as int)),
        decreases addresses@.len() - i,
    {
        let mut j: usize = 0;
        while j < i
            invariant
                j <= i < addresses@.len(),
                views == addresses@.map_values(|a: &Address| a@),
                forall|k: int| 0 <= k < j ==> views[k] != views[i as int],
            decreases i - j,
        {
            if addresses[j].same(addresses[i]) {
                proof {
                    assert(views[j as int] == views[i as int]);
                }
                return Some(i);
            }
            j = j + 1;
        }
        proof {
            assert forall|a: int, b: int| 0 <= a < b < i + 1 implies #[trigger] views.take(i + 1)[a] != #[trigger] views.take(i + 1)[b] by {
                if b < i {
                    assert(views.take(i as int)[a] != views.take(i as int)[b]);
                }
            }
        }
        i = i + 1;
    }
    proof {
        assert(views.take(i as int) =~= views);
    }
    None
}

/// Parses the body of a description document.
#[verifier::rlimit(100)]
#[verifier::spinoff_prover]
fn parse_description_body(c: &mut Cursor, Ghost(expected): Ghost<Option<Description>>) -> (r: Result<
    Description,
    Failure,
>)
    requires
        old(c).wf(),
        expected matches Some(d) ==> bare_description(d) && old(c).source()
            == bare_description_text(d) && token_fits(old(c).source(), 0, Some(old(c).token())),
    ensures
        final(c).source() == old(c).source(),
        r matches Err(f) ==> f.at <= old(c).source().len(),
        r matches Ok(e) ==> core_blocks_as_written(old(c).source(), e.core),
        expected matches Some(d) ==> (r matches Ok(e) && bare_description(e) && label_text(e.label) == label_text(d.label)
            && e.address@ == d.address@ && e.core_spec.text() == d.core_spec.text()),
{
    let ghost canon = expected is Some;
    let ghost d = expected->Some_0;
    let ghost src = c.source();
    let ghost marks = bare_marks(d);
    let ghost oa = marks.0;
    let ghost ob = marks.1;
    let ghost o2 = marks.2;
    let ghost l = d.label->Some_0;
    let ghost (vx, vy, vz) = (d.core_spec.major_spec(), d.core_spec.minor_spec(), d.core_spec.patch_spec());
    proof {
        if canon {
            lemma_bare_facts(d);
            reveal_strlit("grimoire");
            reveal_strlit("description");
            reveal_strlit("core-spec");
            reveal_strlit("core");
            reveal_strlit("core {\n    }");
            crate::version::lemma_version_text_parses(1, 0, 0);
            crate::version::lemma_version_text_parses(vx, vy, vz);
            crate::documents::lemma_version_word(1, 0, 0);
            reveal_strlit("1.0.0");
            assert(crate::version::version_text(1, 0, 0) =~= "1.0.0"@);
            assert(blanks(src, 0, 0));
            lemma_forces_word(src, 0, 0, "grimoire"@);
            lemma_forces_word(src, 8, 9, "1.0.0"@);
            lemma_forces_word(src, 14, 15, "description"@);
            lemma_forces_word(src, 26, 27, d.address@);
            if d.label is Some {
                crate::reading::lemma_forces_text(src, oa, oa + 1);
            }
            lemma_forces_punct(src, ob, ob + 1);
            lemma_forces_word(src, ob + 2, ob + 7, "core-spec"@);
            lemma_forces_word(src, ob + 16, ob + 17, d.core_spec.text());
        }
    }
    c.expect_word("grimoire")?;
    let _grammar = parse_version(c)?;
    c.expect_word("description")?;
    let address = parse_address(c)?;
    let label = c.take_text()?;
    c.expect(TokenKind::LeftBrace)?;
    c.expect_word("core-spec")?;
    proof {
        if canon {
            assert(blanks(src, o2, o2));
            lemma_forces_punct(src, o2, o2);
            lemma_forces_word(src, o2 + 1, o2 + 6, "core"@);
        }
    }
    let core_spec = parse_version(c)?;
    c.expect(TokenKind::Semicolon)?;
    proof {
        if canon {
            reveal_strlit("extensions");
            reveal_strlit("core");
            assert("core"@ != "extensions"@);
        }
    }
    let extensions = optional_extensions(c)?;
    proof {
        if canon {
            assert(o2 + 6 + 12 == o2 + 18);
            assert(punct_follows(src, o2 + 18)) by {
                assert(blanks(src, o2 + 18, o2 + 19));
            }
        }
    }
    proof {
        if canon {
            lemma_forces_punct(src, o2 + 18, o2 + 19);
            crate::reading::lemma_forces_end(src, o2 + 20);
        }
    }
    let core = parse_core(c, Ghost(if canon { Some(o2 + 6) } else { None }))?;
    let mut layers: Vec<Layer> = Vec::new();
    while c.at_word("layer")
        invariant
            c.wf(),
            c.source() == old(c).source(),
            canon == (expected is Some),
            canon ==> c.token() == (TokenKind::RightBrace, Seq::<char>::empty(), o2 + 19, o2 + 20) && layers@.len() == 0,
        decreases c.remaining(),
    {
        c.advance()?;
        let layer = parse_layer(c)?;
        layers.push(layer);
    }
    c.expect(TokenKind::RightBrace)?;
    expect_end(c)?;
    let ghost e = Description { address, label, core_spec, core, extensions, layers };
    proof {
        if canon {
            assert(e.core_spec.text() == d.core_spec.text());
        }
    }
    Ok(Description { address, label, core_spec, core, extensions, layers })
}

/// A description with nothing but its header: no extensions, an empty core
/// graph and no layers, at an address that reads as one word.
pub open spec fn bare_description(d: Description) -> bool {
    &&& d.extensions@.len() == 0
    &&& d.core.blocks.entries().len() == 0
    &&& d.core.connections.entries().len() == 0
    &&& d.core.groups.entries().len() == 0
    &&& d.layers@.len() == 0
    &&& is_address_text(d.address@)
    &&& plain_word(d.address@)
}

/// The canonical text of a bare description.
pub open spec fn bare_description_text(d: Description) -> Seq<char> {
    "grimoire 1.0.0\ndescription "@ + d.address@ + label_text(d.label) + " {\n    core-spec "@ + d.core_spec.text()
        + ";\n    core {\n    }\n}\n"@
}

/// A bare description serializes to its bare text.
pub proof fn lemma_bare_text(d: Description)
    requires
        bare_description(d),
    ensures
        description_text(d) == Ok::<Seq<char>, Seq<char>>(bare_description_text(d)),
{
    reveal_strlit("grimoire 1.0.0\ndescription ");
    reveal_strlit(" {\n");
    reveal_strlit("core-spec ");
    reveal_strlit(";\n");
    reveal_strlit("core {\n");
    reveal_strlit("}\n");
    reveal_strlit("    ");
    reveal_strlit(" {\n    core-spec ");
    reveal_strlit(";\n    core {\n    }\n}\n");
    assert(d.core.blocks.values() =~= Seq::<Block>::empty());
    assert(d.core.connections.values() =~= Seq::<Connection>::empty());
    assert(d.core.groups.values() =~= Seq::<Group>::empty());
    assert(sorted_layers(d.layers@) =~= Seq::<Layer>::empty());
    assert(indentation(1) =~= "    "@) by {
        assert(indentation(0) =~= Seq::<char>::empty());
    }
    reveal(crate::canonical::extensions_text);
    reveal(crate::canonical::core_text);
    let ind = indentation(1);
    let head = "grimoire 1.0.0\ndescription "@ + d.address@ + label_text(d.label) + " {\n"@ + ind + "core-spec "@
        + d.core_spec.text() + ";\n"@;
    assert(crate::canonical::extensions_text(d.extensions@, 1) == Ok::<Seq<char>, Seq<char>>(Seq::empty()));
    let core_body = ind + "core {\n"@ + ind + "}\n"@;
    assert(crate::canonical::core_text(d.core, 1) == Ok::<Seq<char>, Seq<char>>(
        ind + "core {\n"@ + Seq::empty() + Seq::empty() + Seq::empty() + (ind + "}\n"@),
    ));
    assert(ind + "core {\n"@ + Seq::<char>::empty() + Seq::<char>::empty() + Seq::<char>::empty() + (ind + "}\n"@)
        =~= core_body);
    assert(crate::canonical::joined(sorted_layers(d.layers@), crate::canonical::layer_line(1)) == Ok::<
        Seq<char>,
        Seq<char>,
    >(Seq::empty()));
    assert(description_text(d) == Ok::<Seq<char>, Seq<char>>(head + Seq::empty() + core_body + (Seq::empty()
        + "}\n"@)));
    assert(head + Seq::<char>::empty() + core_body + (Seq::<char>::empty() + "}\n"@) =~= bare_description_text(d));
}

/// Where the pieces of a bare description's text stand.
pub open spec fn bare_marks(d: Description) -> (int, int, int) {
    let oa = 27 + d.address@.len();
    let ob = oa + label_text(d.label).len();
    let o2 = ob + 17 + d.core_spec.text().len();
    (oa as int, ob as int, o2 as int)
}

pub proof fn lemma_bare_layout(d: Description)
    ensures
        ({
            let src = bare_description_text(d);
            let (oa, ob, o2) = bare_marks(d);
            &&& src.len() == o2 + 21
            &&& text_at(src, 0, "grimoire 1.0.0\ndescription "@)
            &&& text_at(src, 27, d.address@)
            &&& text_at(src, oa, label_text(d.label))
            &&& text_at(src, ob, " {\n    core-spec "@)
            &&& text_at(src, ob + 17, d.core_spec.text())
            &&& text_at(src, o2, ";\n    core {\n    }\n}\n"@)
        }),
{
    reveal_strlit("grimoire 1.0.0\ndescription ");
    reveal_strlit(" {\n    core-spec ");
    reveal_strlit(";\n    core {\n    }\n}\n");
    let src = bare_description_text(d);
    let h1 = "grimoire 1.0.0\ndescription "@;
    let a = d.address@;
    let l = label_text(d.label);
    let h2 = " {\n    core-spec "@;
    let v = d.core_spec.text();
    let h3 = ";\n    core {\n    }\n}\n"@;
    assert(src == h1 + a + l + h2 + v + h3);
    assert(src.subrange(0, src.len() as int) =~= src);
    lemma_text_split(src, 0, h1 + a + l + h2 + v, h3);
    lemma_text_split(src, 0, h1 + a + l + h2, v);
    lemma_text_split(src, 0, h1 + a + l, h2);
    lemma_text_split(src, 0, h1 + a, l);
    lemma_text_split(src, 0, h1, a);
}

/// A bare description's label reads back as one string.
/// A label's text reads back as one string.
proof fn lemma_label_reads_back(src: Seq<char>, oa: int, l: String)
    requires
        text_at(src, oa, label_text(Some(l))),
    ensures
        ({
            let ob = oa + label_text(Some(l)).len();
            &&& blanks(src, oa, oa + 1) && src[oa + 1] == '"'
            &&& string_from(src, oa + 2) == Some((l@, ob))
            &&& word_ends(src, oa)
        }),
{
    let ob = oa + label_text(Some(l)).len();
    let lt = label_text(Some(l));
    let q = quoted(l@);
    let esc = crate::serialize::escaped(l@);
    assert(lt == " "@ + q);
    reveal_strlit(" ");
    assert(lt[0] == ' ');
    lemma_text_char(src, oa, lt, 0);
    lemma_text_char(src, oa, lt, 1);
    assert(lt[1] == '"');
    assert(blanks(src, oa, oa + 1));
    let pre = src.subrange(0, oa + 2);
    let rest = src.subrange(ob, src.len() as int);
    assert(lt.len() == 3 + esc.len());
    assert forall|i: int| 0 <= i < src.len() implies src[i] == (pre + esc + seq!['"'] + rest)[i] by {
        if oa + 2 <= i < ob {
            lemma_text_char(src, oa, lt, i - oa);
        }
    }
    assert(src =~= pre + esc + seq!['"'] + rest);
    crate::serialize::lemma_escaped_reads_back(pre, l@, rest);
}

/// What the lexer needs to know of a bare description's text.
#[verifier::rlimit(80)]
pub proof fn lemma_bare_facts(d: Description)
    requires
        bare_description(d),
    ensures
        ({
            let src = bare_description_text(d);
            let (oa, ob, o2) = bare_marks(d);
            let l = d.label->Some_0;
            &&& src.len() == o2 + 21
            &&& text_at(src, 0, "grimoire"@) && word_ends(src, 8) && blanks(src, 8, 9)
            &&& text_at(src, 9, "1.0.0"@) && word_ends(src, 14) && blanks(src, 14, 15)
            &&& text_at(src, 15, "description"@) && word_ends(src, 26) && blanks(src, 26, 27)
            &&& text_at(src, 27, d.address@) && word_ends(src, oa)
            &&& d.label is Some ==> blanks(src, oa, oa + 1) && src[oa + 1] == '"' && string_from(src, oa + 2) == Some(
                (l@, ob),
            )
            &&& d.label is None ==> oa == ob
            &&& blanks(src, ob, ob + 1) && src[ob + 1] == '{' && blanks(src, ob + 2, ob + 7)
            &&& text_at(src, ob + 7, "core-spec"@) && word_ends(src, ob + 16) && blanks(src, ob + 16, ob + 17)
            &&& text_at(src, ob + 17, d.core_spec.text()) && word_ends(src, o2)
            &&& src[o2] == ';' && blanks(src, o2 + 1, o2 + 6)
            &&& text_at(src, o2 + 6, "core {\n    }"@) && text_at(src, o2 + 6, "core"@) && word_ends(src, o2 + 10)
            &&& blanks(src, o2 + 18, o2 + 19) && src[o2 + 19] == '}' && blanks(src, o2 + 20, src.len() as int)
            &&& plain_word("grimoire"@) && plain_word("1.0.0"@) && plain_word("description"@)
            &&& plain_word("core-spec"@) && plain_word("core"@)
        }),
{
    let src = bare_description_text(d);
    let (oa, ob, o2) = bare_marks(d);
    let l = d.label->Some_0;
    lemma_bare_layout(d);
    let h1 = "grimoire 1.0.0\ndescription "@;
    let h2 = " {\n    core-spec "@;
    let h3 = ";\n    core {\n    }\n}\n"@;
    reveal_strlit("grimoire 1.0.0\ndescription ");
    reveal_strlit(" {\n    core-spec ");
    reveal_strlit(";\n    core {\n    }\n}\n");
    reveal_strlit("grimoire");
    reveal_strlit("1.0.0");
    reveal_strlit("description");
    reveal_strlit("core-spec");
    reveal_strlit("core");
    reveal_strlit("core {\n    }");
    assert forall|i: int| 0 <= i < 27 implies src[i] == h1[i] by {
        lemma_text_char(src, 0, h1, i);
    }
    assert forall|i: int| 0 <= i < 17 implies src[ob + i] == h2[i] by {
        lemma_text_char(src, ob, h2, i);
    }
    assert forall|i: int| 0 <= i < 21 implies src[o2 + i] == h3[i] by {
        lemma_text_char(src, o2, h3, i);
    }
    crate::documents::lemma_text_sub(src, 0, h1, 0, 8);
    assert(h1.subrange(0, 8) =~= "grimoire"@);
    crate::documents::lemma_text_sub(src, 0, h1, 9, 14);
    assert(h1.subrange(9, 14) =~= "1.0.0"@);
    crate::documents::lemma_text_sub(src, 0, h1, 15, 26);
    assert(h1.subrange(15, 26) =~= "description"@);
    crate::documents::lemma_text_sub(src, ob, h2, 7, 16);
    assert(h2.subrange(7, 16) =~= "core-spec"@);
    crate::documents::lemma_text_sub(src, o2, h3, 6, 18);
    assert(h3.subrange(6, 18) =~= "core {\n    }"@);
    crate::documents::lemma_text_sub(src, o2, h3, 6, 10);
    assert(h3.subrange(6, 10) =~= "core"@);
    assert(src[8] == h1[8]);
    assert(src[14] == h1[14]);
    assert(src[26] == h1[26]);
    assert(blanks(src, 8, 9));
    assert(blanks(src, 14, 15));
    assert(blanks(src, 26, 27));
    assert(src[ob] == h2[0] && src[ob + 1] == h2[1] && src[ob + 2] == h2[2] && src[ob + 3] == h2[3]);
    assert(src[ob + 4] == h2[4] && src[ob + 5] == h2[5] && src[ob + 6] == h2[6] && src[ob + 16] == h2[16]);
    assert(blanks(src, ob, ob + 1));
    assert(blanks(src, ob + 2, ob + 7));
    assert(blanks(src, ob + 16, ob + 17));
    assert(src[o2] == h3[0] && src[o2 + 1] == h3[1] && src[o2 + 2] == h3[2] && src[o2 + 3] == h3[3]);
    assert(src[o2 + 4] == h3[4] && src[o2 + 5] == h3[5] && src[o2 + 10] == h3[10]);
    assert(src[o2 + 18] == h3[18] && src[o2 + 19] == h3[19] && src[o2 + 20] == h3[20]);
    assert(blanks(src, o2 + 1, o2 + 6));
    assert(blanks(src, o2 + 18, o2 + 19));
    assert(blanks(src, o2 + 20, src.len() as int));
    // the label
    if d.label is Some {
        lemma_label_reads_back(src, oa, l);
    } else {
        assert(src[oa] == h2[0]);
    }
    // word ends
    crate::documents::lemma_version_word(d.core_spec.major_spec(), d.core_spec.minor_spec(), d.core_spec.patch_spec());
    lemma_text_char(src, ob + 17, d.core_spec.text(), 0);
}

/// Parses a description document. Every address the description and its
/// core graph define is defined once. Each core block keeps what the text
/// says of it: its name is the string read right after its address, and for
/// each of its ports, written `port <address>`, the port's label is the
/// string read right after that address, or none when no string follows. The canonical text of a description with nothing but
/// its header reads back as a description with that same text.
pub fn parse_description(source: &str) -> (r: Result<Description, ParseError>)
    ensures
        r matches Ok(d) ==> texts_distinct(seq![d.address@] + core_addresses(d.core)),
        r matches Ok(d) ==> core_blocks_as_written(source@, d.core),
        r matches Err(e) ==> exists|at: int| 0 <= at <= source@.len() && e.offset == crate::documents::byte_offset_spec(source@, at),
        forall|d: Description|
            bare_description(d) && #[trigger] description_text(d) == Ok::<Seq<char>, Seq<char>>(
                source@,
            ) ==> (r matches Ok(e) && description_text(e) == Ok::<Seq<char>, Seq<char>>(source@)),
{
    let ghost canon = exists|d: Description|
        bare_description(d) && #[trigger] description_text(d) == Ok::<Seq<char>, Seq<char>>(source@);
    let ghost d = choose|d: Description|
        bare_description(d) && #[trigger] description_text(d) == Ok::<Seq<char>, Seq<char>>(source@);
    proof {
        if canon {
            lemma_bare_text(d);
            lemma_bare_facts(d);
            reveal_strlit("grimoire");
            assert(blanks(source@, 0, 0));
            lemma_forces_word(source@, 0, 0, "grimoire"@);
        }
    }
    let chars = chars_of(source);
    let mut c = match Cursor::new(chars.clone()) {
        Ok(c) => c,
        Err(f) => {
            return Err(located(&chars, f));
        },
    };
    let description = match parse_description_body(&mut c, Ghost(if canon { Some(d) } else { None })) {
        Ok(d) => d,
        Err(f) => {
            return Err(located(&chars, f));
        },
    };
    proof {
        if canon {
            let e = description;
            assert(e.core.blocks.keys().len() == 0);
            assert(e.core.connections.keys().len() == 0);
            assert(e.core.groups.keys().len() == 0);
            assert(e.core.blocks.values() =~= Seq::<Block>::empty());
            assert(core_addresses(e.core).len() == 0);
            lemma_bare_text(e);
            assert(bare_description_text(e) == bare_description_text(d));
            assert forall|q: Description|
                bare_description(q) && #[trigger] description_text(q) == Ok::<Seq<char>, Seq<char>>(
                    source@,
                ) implies description_text(e) == Ok::<Seq<char>, Seq<char>>(source@) by {}
        }
    }
    let addresses = description.addresses();
    match first_duplicate(&addresses) {
        Some(i) => {
            let mut message = owned("duplicate address `");
            push_str(&mut message, addresses[i].as_str());
            push_str(&mut message, "`");
            proof {
                assert(crate::documents::byte_offset_spec(source@, 0) == 0) by {
                    assert(source@.take(0) =~= Seq::<char>::empty());
                }
            }
            Err(ParseError { offset: 0, message })
        },
        None => Ok(description),
    }
}

/// Parses a standalone layer document: the description it is for, then one
/// layer.
pub fn parse_layer_document(source: &str) -> (r: Result<LayerFile, ParseError>)
    ensures
        r matches Ok(f) ==> inputs_distinct(f.layer.inputs@),
        r matches Err(e) ==> exists|at: int| 0 <= at <= source@.len() && e.offset == crate::documents::byte_offset_spec(source@, at),
{
    let chars = chars_of(source);
    let mut c = match Cursor::new(chars.clone()) {
        Ok(c) => c,
        Err(f) => {
            return Err(located(&chars, f));
        },
    };
    match parse_layer_document_body(&mut c) {
        Ok(d) => Ok(d),
        Err(f) => Err(located(&chars, f)),
    }
}

fn parse_layer_document_body(c: &mut Cursor) -> (r: Result<LayerFile, Failure>)
    requires
        old(c).wf(),
    ensures
        final(c).source() == old(c).source(),
        r matches Ok(f) ==> inputs_distinct(f.layer.inputs@),
        r matches Err(f) ==> f.at <= old(c).source().len(),
{
    c.expect_word("grimoire-layer")?;
    let _grammar = parse_version(c)?;
    c.expect_word("for")?;
    let description = parse_address(c)?;
    c.expect(TokenKind::Semicolon)?;
    c.expect_word("layer")?;
    let layer = parse_layer(c)?;
    expect_end(c)?;
    Ok(LayerFile { description, layer })
}

} // verus!

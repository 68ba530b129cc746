//! Parse errors, shared token helpers, and the schema document parser.
use vstd::prelude::*;

use crate::address::{is_address_text, Address};
use crate::decimal::{decimal_text, push_decimal};
use crate::lexer::string_from;
use crate::lexer::{blanks, failure, is_word_char, punctuation, token_fits, Cursor, Failure, TokenKind};
use crate::reading::{lemma_blanks_join, lemma_punct_token, lemma_text_char, lemma_text_split, lemma_word_token, plain_word, text_at, word_ends};
use crate::serialize::{allowed_names, allowed_names_upto, comma_joined, element_kind_name, expr_text, fields_text, indentation, quoted, schema_document_text};
use crate::text::is_whitespace;
use crate::namespace::{is_namespace_text, Namespace};
use crate::schema::{element_kind_at, element_kind_index, field_shapes, schema_field_names, shape_of, texts, ElementKind, ElementKinds, Schema, SchemaExpr, SchemaExprArm, SchemaExprField};
use crate::text::{chars_of, owned, push_str, str_eq};
use crate::version::{parse_version_spec, Version};

verus! {

/// A document that does not follow its grammar: the byte offset of the
/// offending token and what was wrong.
#[derive(Debug, PartialEq, Eq)]
pub struct ParseError {
    pub offset: usize,
    pub message: String,
}

impl ParseError {
    /// `at byte <offset>: <message>`.
    pub fn to_string(&self) -> (s: String)
        ensures
            s@ == "at byte "@ + decimal_text(self.offset as nat) + ": "@ + self.message@,
    {
        let mut s = owned("at byte ");
        push_decimal(&mut s, self.offset as u64);
        push_str(&mut s, ": ");
        push_str(&mut s, self.message.as_str());
        s
    }
}

/// The number of bytes UTF-8 uses for a character.
pub open spec fn utf8_width(c: char) -> nat {
    if (c as u32) < 0x80 {
        1
    } else if (c as u32) < 0x800 {
        2
    } else if (c as u32) < 0x10000 {
        3
    } else {
        4
    }
}

/// The UTF-8 length of a character sequence.
pub open spec fn byte_length(s: Seq<char>) -> nat
    decreases s.len(),
{
    if s.len() == 0 {
        0
    } else {
        byte_length(s.drop_last()) + utf8_width(s.last())
    }
}

/// The byte offset of character position `at`, capped at `usize::MAX`.
pub open spec fn byte_offset_spec(s: Seq<char>, at: int) -> nat {
    let b = byte_length(s.take(at));
    if b <= usize::MAX {
        b
    } else {
        usize::MAX as nat
    }
}

fn utf8_width_of(c: char) -> (w: usize)
    ensures
        w == utf8_width(c),
{
    let u = c as u32;
    if u < 0x80 {
        1
    } else if u < 0x800 {
        2
    } else if u < 0x10000 {
        3
    } else {
        4
    }
}

/// The byte offset of a character position.
pub fn byte_offset(chars: &Vec<char>, at: usize) -> (b: usize)
    requires
        at <= chars@.len(),
    ensures
        b == byte_offset_spec(chars@, at as int),
{
    let mut total: usize = 0;
    let mut i: usize = 0;
    while i < at
        invariant
            i <= at <= chars@.len(),
            total == byte_offset_spec(chars@, i as int),
        decreases at - i,
    {
        let w = utf8_width_of(chars[i]);
        proof {
            assert(chars@.take(i + 1).drop_last() =~= chars@.take(i as int));
            assert(chars@.take(i + 1).last() == chars@[i as int]);
        }
        if total > usize::MAX - w {
            total = usize::MAX;
        } else {
            total = total + w;
        }
        i = i + 1;
    }
    total
}

/// The error a failure becomes, with its position in bytes.
pub fn located(chars: &Vec<char>, f: Failure) -> (e: ParseError)
    requires
        f.at <= chars@.len(),
    ensures
        e.offset == byte_offset_spec(chars@, f.at as int),
        e.message@ == f.message@,
{
    ParseError { offset: byte_offset(chars, f.at), message: f.message }
}

/// Consumes a word and parses it as a version.
pub fn parse_version(c: &mut Cursor) -> (r: Result<Version, Failure>)
    requires
        old(c).wf(),
    ensures
        final(c).source() == old(c).source(),
        r is Ok ==> final(c).wf() && final(c).remaining() < old(c).remaining(),
        r matches Err(f) ==> f.at <= old(c).source().len(),
        old(c).current_kind() == TokenKind::Word && parse_version_spec(old(c).current_text()) is Some ==> token_fits(
            old(c).source(),
            old(c).current_end(),
            match r {
                Ok(_) => Some(final(c).token()),
                Err(_) => None,
            },
        ),
        r matches Ok(v) ==> parse_version_spec(old(c).current_text()) == Some((v.major_spec(), v.minor_spec(), v.patch_spec())),
{
    let at = c.at();
    let word = c.take_word()?;
    match Version::parse(word.as_str()) {
        Ok(v) => Ok(v),
        Err(e) => Err(Failure { at, message: e.to_string() }),
    }
}

/// Consumes a word and parses it as an address.
pub fn parse_address(c: &mut Cursor) -> (r: Result<Address, Failure>)
    requires
        old(c).wf(),
    ensures
        final(c).source() == old(c).source(),
        r is Ok ==> final(c).wf() && final(c).remaining() < old(c).remaining(),
        r matches Err(f) ==> f.at <= old(c).source().len(),
        old(c).current_kind() == TokenKind::Word && is_address_text(old(c).current_text()) ==> token_fits(
            old(c).source(),
            old(c).current_end(),
            match r {
                Ok(_) => Some(final(c).token()),
                Err(_) => None,
            },
        ),
        r matches Ok(a) ==> a@ == old(c).current_text(),
        r is Ok ==> old(c).current_kind() == TokenKind::Word && is_address_text(old(c).current_text()),
{
    let at = c.at();
    let word = c.take_word()?;
    match Address::parse(word.as_str()) {
        Ok(a) => Ok(a),
        Err(e) => Err(Failure { at, message: e.to_string() }),
    }
}

/// Consumes a string and parses it as a namespace.
pub fn parse_namespace(c: &mut Cursor) -> (r: Result<Namespace, Failure>)
    requires
        old(c).wf(),
    ensures
        final(c).source() == old(c).source(),
        r is Ok ==> final(c).wf() && final(c).remaining() < old(c).remaining(),
        r matches Err(f) ==> f.at <= old(c).source().len(),
        old(c).current_kind() == TokenKind::Text && is_namespace_text(old(c).current_text()) ==> token_fits(
            old(c).source(),
            old(c).current_end(),
            match r {
                Ok(_) => Some(final(c).token()),
                Err(_) => None,
            },
        ),
        r matches Ok(n) ==> n@ == old(c).current_text(),
{
    let at = c.at();
    match c.take_text()? {
        Some(text) => match Namespace::parse(text.as_str()) {
            Ok(n) => Ok(n),
            Err(e) => Err(Failure { at, message: e.to_string() }),
        },
        None => Err(c.error("expected a namespace string")),
    }
}

/// Fails unless the document has ended.
pub fn expect_end(c: &Cursor) -> (r: Result<(), Failure>)
    requires
        c.wf(),
    ensures
        r is Ok <==> c.current_kind() == TokenKind::End,
        r matches Err(f) ==> f.at <= c.source().len() && f.message@ == "trailing input"@,
{
    if c.kind() == TokenKind::End {
        Ok(())
    } else {
        Err(c.error("trailing input"))
    }
}

/// Every product names its fields once and every alternative its tags once,
/// at every depth.
pub open spec fn expr_well_named(e: SchemaExpr) -> bool
    decreases e, 1int,
{
    match e {
        SchemaExpr::Product(fields) => fields_well_named(fields@),
        SchemaExpr::Alternative(arms) => arms_well_named(arms@),
        SchemaExpr::Sequence(item) => expr_well_named(*item),
        SchemaExpr::Presence(inner) => expr_well_named(*inner),
        _ => true,
    }
}

pub open spec fn fields_well_named(fields: Seq<SchemaExprField>) -> bool
    decreases fields, 0int,
{
    if fields.len() == 0 {
        true
    } else {
        &&& fields_well_named(fields.drop_last())
        &&& expr_well_named(*fields.last().schema)
        &&& !schema_field_names(fields.drop_last()).contains(fields.last().name@)
    }
}

/// The tags of an alternative's arms.
pub open spec fn arm_tags(arms: Seq<SchemaExprArm>) -> Seq<Seq<char>> {
    arms.map_values(|a: SchemaExprArm| a.tag@)
}

pub open spec fn arms_well_named(arms: Seq<SchemaExprArm>) -> bool
    decreases arms, 0int,
{
    if arms.len() == 0 {
        true
    } else {
        &&& arms_well_named(arms.drop_last())
        &&& expr_well_named(*arms.last().schema)
        &&& !arm_tags(arms.drop_last()).contains(arms.last().tag@)
    }
}

fn has_field(fields: &Vec<SchemaExprField>, name: &str) -> (b: bool)
    ensures
        b == schema_field_names(fields@).contains(name@),
{
    let mut i: usize = 0;
    while i < fields.len()
        invariant
            i <= fields@.len(),
            forall|j: int| 0 <= j < i ==> fields@[j].name@ != name@,
        decreases fields@.len() - i,
    {
        if str_eq(fields[i].name.as_str(), name) {
            proof {
                assert(schema_field_names(fields@)[i as int] == name@);
            }
            return true;
        }
        i = i + 1;
    }
    proof {
        if schema_field_names(fields@).contains(name@) {
            let j = choose|j: int| 0 <= j < fields@.len() && #[trigger] schema_field_names(fields@)[j] == name@;
            assert(fields@[j].name@ == name@);
        }
    }
    false
}

fn has_tag(arms: &Vec<SchemaExprArm>, tag: &str) -> (b: bool)
    ensures
        b == arm_tags(arms@).contains(tag@),
{
    let mut i: usize = 0;
    while i < arms.len()
        invariant
            i <= arms@.len(),
            forall|j: int| 0 <= j < i ==> arms@[j].tag@ != tag@,
        decreases arms@.len() - i,
    {
        if str_eq(arms[i].tag.as_str(), tag) {
            proof {
                assert(arm_tags(arms@)[i as int] == tag@);
            }
            return true;
        }
        i = i + 1;
    }
    proof {
        if arm_tags(arms@).contains(tag@) {
            let j = choose|j: int| 0 <= j < arms@.len() && #[trigger] arm_tags(arms@)[j] == tag@;
            assert(arms@[j].tag@ == tag@);
        }
    }
    false
}

fn named_failure(at: usize, prefix: &str, name: &str) -> (f: Failure)
    ensures
        f.at == at,
        f.message@ == prefix@ + " `"@ + name@ + "`"@,
{
    let mut message = owned(prefix);
    push_str(&mut message, " `");
    push_str(&mut message, name);
    push_str(&mut message, "`");
    Failure { at, message }
}

/// The keyword that opens the canonical text of an expression.
pub open spec fn expr_head(e: SchemaExpr) -> Seq<char> {
    match e {
        SchemaExpr::FiniteScalar => "finite-scalar"@,
        SchemaExpr::PositiveInteger => "positive-integer"@,
        SchemaExpr::FiniteNumber => "finite-number"@,
        SchemaExpr::Text => "text"@,
        SchemaExpr::Enumeration(_) => "enumeration"@,
        SchemaExpr::Product(_) => "product"@,
        SchemaExpr::Sequence(_) => "sequence"@,
        SchemaExpr::Alternative(_) => "alternative"@,
        SchemaExpr::AddressReference => "address-reference"@,
        SchemaExpr::Presence(_) => "presence"@,
    }
}

/// Every name an expression carries is a plain word, at every depth, and it
/// holds no alternative.
pub open spec fn expr_plain(e: SchemaExpr) -> bool
    decreases e, 1int,
{
    match e {
        SchemaExpr::Enumeration(values) => forall|i: int| 0 <= i < values@.len() ==> plain_word(#[trigger] values@[i]@),
        SchemaExpr::Product(fields) => fields_plain(fields@),
        SchemaExpr::Sequence(item) => expr_plain(*item),
        SchemaExpr::Presence(inner) => expr_plain(*inner),
        SchemaExpr::Alternative(_) => false,
        _ => true,
    }
}

pub open spec fn fields_plain(fields: Seq<SchemaExprField>) -> bool
    decreases fields, 0int,
{
    if fields.len() == 0 {
        true
    } else {
        &&& fields_plain(fields.drop_last())
        &&& plain_word(fields.last().name@)
        &&& expr_plain(*fields.last().schema)
    }
}

/// After blanks, a punctuation character stands at or after `pos`.
pub open spec fn punct_follows(s: Seq<char>, pos: int) -> bool {
    exists|q: int| #[trigger] blanks(s, pos, q) && q < s.len() && punctuation(s[q]) is Some
}

/// The cursor reads the canonical text of `e` at indentation `ind` from
/// position `p`: its current token is the expression's keyword, and a
/// punctuation character follows the expression.
pub open spec fn expr_layout(c: Cursor, e: SchemaExpr, ind: nat, p: int) -> bool {
    &&& text_at(c.source(), p, expr_text(e, ind))
    &&& punct_follows(c.source(), p + expr_text(e, ind).len())
    &&& expr_plain(e)
    &&& expr_well_named(e)
    &&& c.token() == (TokenKind::Word, expr_head(e), p, p + expr_head(e).len())
}

/// A token must be read where a punctuation character follows blanks.
pub proof fn lemma_punct_forces(s: Seq<char>, pos: int, t: Option<(TokenKind, Seq<char>, int, int)>)
    requires
        punct_follows(s, pos),
        token_fits(s, pos, t),
    ensures
        t is Some,
{
    let q = choose|q: int| #[trigger] blanks(s, pos, q) && q < s.len() && punctuation(s[q]) is Some;
    lemma_punct_token(s, pos, q, t);
}

/// The keyword of an expression is a plain word, and the text after it does
/// not continue it.
pub proof fn lemma_expr_head(e: SchemaExpr, ind: nat)
    ensures
        plain_word(expr_head(e)),
        expr_head(e).len() <= expr_text(e, ind).len(),
        expr_text(e, ind).subrange(0, expr_head(e).len() as int) == expr_head(e),
        expr_head(e).len() < expr_text(e, ind).len() ==> !is_word_char(expr_text(e, ind)[expr_head(e).len() as int]),
{
    reveal_strlit("finite-scalar");
    reveal_strlit("positive-integer");
    reveal_strlit("finite-number");
    reveal_strlit("text");
    reveal_strlit("enumeration");
    reveal_strlit("product");
    reveal_strlit("sequence");
    reveal_strlit("alternative");
    reveal_strlit("address-reference");
    reveal_strlit("presence");
    reveal_strlit("enumeration { ");
    reveal_strlit("product {\n");
    reveal_strlit("sequence<");
    reveal_strlit("alternative {\n");
    reveal_strlit("presence<");
    let h = expr_head(e);
    let t = expr_text(e, ind);
    assert(t.subrange(0, h.len() as int) =~= h);
    assert(punctuation('<') is Some);
}

/// The expression's keyword is the token read where its text stands after
/// blanks, whatever follows the expression.
pub proof fn lemma_expr_token(s: Seq<char>, pos: int, p: int, e: SchemaExpr, ind: nat, t: Option<(TokenKind, Seq<char>, int, int)>)
    requires
        blanks(s, pos, p),
        text_at(s, p, expr_text(e, ind)),
        punct_follows(s, p + expr_text(e, ind).len()),
        token_fits(s, pos, t),
    ensures
        t == Some((TokenKind::Word, expr_head(e), p, p + expr_head(e).len())),
{
    lemma_expr_head(e, ind);
    let h = expr_head(e);
    let x = expr_text(e, ind);
    assert(x == h + x.subrange(h.len() as int, x.len() as int));
    lemma_text_split(s, p, h, x.subrange(h.len() as int, x.len() as int));
    if h.len() < x.len() {
        lemma_text_char(s, p, x, h.len() as int);
    } else {
        let q = choose|q: int| #[trigger] blanks(s, p + x.len(), q) && q < s.len() && punctuation(s[q]) is Some;
        if q == p + x.len() {
            assert(!is_word_char(s[q]));
        } else {
            assert(is_whitespace(s[p + x.len()]));
        }
    }
    lemma_word_token(s, pos, p, h, t);
}

/// A list joined by `, ` is its first item, then the rest joined.
pub proof fn lemma_comma_front(x: Seq<Seq<char>>)
    requires
        x.len() >= 1,
    ensures
        x.len() == 1 ==> comma_joined(x) == x[0],
        x.len() > 1 ==> comma_joined(x) == x[0] + ", "@ + comma_joined(x.drop_first()),
    decreases x.len(),
{
    if x.len() > 2 {
        let d = x.drop_last();
        lemma_comma_front(d);
        assert(d.drop_first() =~= x.drop_first().drop_last());
        assert(d[0] == x[0]);
        assert(x.drop_first().last() == x.last());
        let r = comma_joined(x.drop_first().drop_last());
        assert(comma_joined(d) == x[0] + ", "@ + r);
        assert(comma_joined(x.drop_first()) == r + ", "@ + x.last());
        assert(comma_joined(x) == comma_joined(d) + ", "@ + x.last());
        assert(comma_joined(x) =~= x[0] + ", "@ + comma_joined(x.drop_first()));
    } else if x.len() == 2 {
        assert(x.drop_last() =~= seq![x[0]]);
        assert(x.drop_first() =~= seq![x[1]]);
        assert(comma_joined(x.drop_last()) == x[0]);
        assert(comma_joined(x.drop_first()) == x[1]);
        assert(x.last() == x[1]);
    }
}

pub proof fn lemma_fields_plain_at(fs: Seq<SchemaExprField>, j: int)
    requires
        fields_plain(fs),
        0 <= j < fs.len(),
    ensures
        plain_word(fs[j].name@),
        expr_plain(*fs[j].schema),
    decreases fs.len(),
{
    if j < fs.len() - 1 {
        lemma_fields_plain_at(fs.drop_last(), j);
        assert(fs.drop_last()[j] == fs[j]);
    }
}

pub proof fn lemma_fields_named_at(fs: Seq<SchemaExprField>, j: int)
    requires
        fields_well_named(fs),
        0 <= j < fs.len(),
    ensures
        expr_well_named(*fs[j].schema),
        forall|i: int| 0 <= i < j ==> fs[i].name@ != fs[j].name@,
    decreases fs.len(),
{
    if j < fs.len() - 1 {
        lemma_fields_named_at(fs.drop_last(), j);
        assert(fs.drop_last()[j] == fs[j]);
        assert forall|i: int| 0 <= i < j implies fs[i].name@ != fs[j].name@ by {
            assert(fs.drop_last()[i] == fs[i]);
        }
    } else {
        assert forall|i: int| 0 <= i < j implies fs[i].name@ != fs[j].name@ by {
            assert(schema_field_names(fs.drop_last())[i] == fs[i].name@);
        }
    }
}

/// Fields with the same names and shapes, one by one, have the same shapes.
pub proof fn lemma_field_shapes_pointwise(a: Seq<SchemaExprField>, b: Seq<SchemaExprField>)
    requires
        a.len() == b.len(),
        forall|i: int| 0 <= i < a.len() ==> a[i].name@ == b[i].name@ && shape_of(*a[i].schema) == shape_of(*b[i].schema),
    ensures
        field_shapes(a) == field_shapes(b),
    decreases a.len(),
{
    if a.len() > 0 {
        assert forall|i: int| 0 <= i < a.drop_first().len() implies a.drop_first()[i].name@ == b.drop_first()[i].name@ && shape_of(
            *a.drop_first()[i].schema,
        ) == shape_of(*b.drop_first()[i].schema) by {
            assert(a.drop_first()[i] == a[i + 1]);
            assert(b.drop_first()[i] == b[i + 1]);
        }
        lemma_field_shapes_pointwise(a.drop_first(), b.drop_first());
    }
}

pub proof fn lemma_forces_word(s: Seq<char>, pos: int, p: int, w: Seq<char>)
    requires
        blanks(s, pos, p),
        text_at(s, p, w),
        plain_word(w),
        word_ends(s, p + w.len()),
    ensures
        forall|t: Option<(TokenKind, Seq<char>, int, int)>|
            #[trigger] token_fits(s, pos, t) ==> t == Some((TokenKind::Word, w, p, p + w.len())),
{
    assert forall|t: Option<(TokenKind, Seq<char>, int, int)>| #[trigger] token_fits(s, pos, t) implies t == Some(
        (TokenKind::Word, w, p, p + w.len()),
    ) by {
        lemma_word_token(s, pos, p, w, t);
    }
}

pub proof fn lemma_forces_punct(s: Seq<char>, pos: int, p: int)
    requires
        blanks(s, pos, p),
        p < s.len(),
        punctuation(s[p]) is Some,
    ensures
        forall|t: Option<(TokenKind, Seq<char>, int, int)>|
            #[trigger] token_fits(s, pos, t) ==> t == Some((punctuation(s[p])->0, Seq::<char>::empty(), p, p + 1)),
{
    assert forall|t: Option<(TokenKind, Seq<char>, int, int)>| #[trigger] token_fits(s, pos, t) implies t == Some(
        (punctuation(s[p])->0, Seq::<char>::empty(), p, p + 1),
    ) by {
        lemma_punct_token(s, pos, p, t);
    }
}

pub proof fn lemma_forces_expr(s: Seq<char>, pos: int, p: int, e: SchemaExpr, ind: nat)
    requires
        blanks(s, pos, p),
        text_at(s, p, expr_text(e, ind)),
        punct_follows(s, p + expr_text(e, ind).len()),
    ensures
        forall|t: Option<(TokenKind, Seq<char>, int, int)>|
            #[trigger] token_fits(s, pos, t) ==> t == Some((TokenKind::Word, expr_head(e), p, p + expr_head(e).len())),
{
    assert forall|t: Option<(TokenKind, Seq<char>, int, int)>| #[trigger] token_fits(s, pos, t) implies t == Some(
        (TokenKind::Word, expr_head(e), p, p + expr_head(e).len()),
    ) by {
        lemma_expr_token(s, pos, p, e, ind, t);
    }
}

pub proof fn lemma_forces_some(s: Seq<char>, pos: int)
    requires
        punct_follows(s, pos),
    ensures
        forall|t: Option<(TokenKind, Seq<char>, int, int)>| #[trigger] token_fits(s, pos, t) ==> t is Some,
{
    assert forall|t: Option<(TokenKind, Seq<char>, int, int)>| #[trigger] token_fits(s, pos, t) implies t is Some by {
        lemma_punct_forces(s, pos, t);
    }
}

/// From position `a`, the values of an enumeration from the `i`th on stand
/// joined, ending at `stop`, and ` }` follows.
pub open spec fn enumeration_at(s: Seq<char>, a: int, vs: Seq<Seq<char>>, i: int, stop: int) -> bool {
    &&& 0 <= i < vs.len()
    &&& text_at(s, a, comma_joined(vs.skip(i)))
    &&& a + comma_joined(vs.skip(i)).len() == stop
    &&& text_at(s, stop, " }"@)
    &&& forall|k: int| 0 <= k < vs.len() ==> plain_word(#[trigger] vs[k])
}

/// The `i`th value stands first, as a word.
pub proof fn lemma_enumeration_word(s: Seq<char>, a: int, vs: Seq<Seq<char>>, i: int, stop: int)
    requires
        enumeration_at(s, a, vs, i, stop),
    ensures
        text_at(s, a, vs[i]),
        plain_word(vs[i]),
        word_ends(s, a + vs[i].len()),
        i + 1 < vs.len() ==> s[a + vs[i].len()] == ',' && s[a + vs[i].len() + 1] == ' ' && text_at(
            s,
            a + vs[i].len() + 2,
            comma_joined(vs.skip(i + 1)),
        ),
        i + 1 == vs.len() ==> a + vs[i].len() == stop,
{
    reveal_strlit(", ");
    reveal_strlit(" }");
    let rest = vs.skip(i);
    lemma_comma_front(rest);
    assert(rest[0] == vs[i]);
    assert(rest.drop_first() =~= vs.skip(i + 1));
    if i + 1 < vs.len() {
        let tail = ", "@ + comma_joined(vs.skip(i + 1));
        assert(comma_joined(rest) == vs[i] + tail);
        lemma_text_split(s, a, vs[i], tail);
        lemma_text_split(s, a + vs[i].len(), ", "@, comma_joined(vs.skip(i + 1)));
        lemma_text_char(s, a + vs[i].len(), ", "@, 0);
        lemma_text_char(s, a + vs[i].len(), ", "@, 1);
        assert(punctuation(',') is Some);
    } else {
        assert(comma_joined(rest) == vs[i]);
        lemma_text_char(s, stop, " }"@, 0);
        assert(is_whitespace(' '));
    }
}

/// After the `i`th value, the next token is a comma, or after the last the
/// closing brace.
pub proof fn lemma_enumeration_step(s: Seq<char>, a: int, vs: Seq<Seq<char>>, i: int, stop: int)
    requires
        enumeration_at(s, a, vs, i, stop),
    ensures
        i + 1 < vs.len() ==> forall|t: Option<(TokenKind, Seq<char>, int, int)>|
            #[trigger] token_fits(s, a + vs[i].len(), t) ==> t == Some(
                (TokenKind::Comma, Seq::<char>::empty(), a + vs[i].len(), a + vs[i].len() + 1),
            ),
        i + 1 == vs.len() ==> forall|t: Option<(TokenKind, Seq<char>, int, int)>|
            #[trigger] token_fits(s, a + vs[i].len(), t) ==> t == Some(
                (TokenKind::RightBrace, Seq::<char>::empty(), stop + 1, stop + 2),
            ),
{
    reveal_strlit(" }");
    lemma_enumeration_word(s, a, vs, i, stop);
    if i + 1 < vs.len() {
        lemma_forces_punct(s, a + vs[i].len(), a + vs[i].len());
    } else {
        lemma_text_char(s, stop, " }"@, 0);
        lemma_text_char(s, stop, " }"@, 1);
        assert(blanks(s, stop, stop + 1));
        lemma_forces_punct(s, stop, stop + 1);
    }
}

/// After a comma, the next value.
pub proof fn lemma_enumeration_next(s: Seq<char>, a: int, vs: Seq<Seq<char>>, i: int, stop: int)
    requires
        enumeration_at(s, a, vs, i, stop),
        i + 1 < vs.len(),
    ensures
        enumeration_at(s, a + vs[i].len() + 2, vs, i + 1, stop),
        forall|t: Option<(TokenKind, Seq<char>, int, int)>|
            #[trigger] token_fits(s, a + vs[i].len() + 1, t) ==> t == Some(
                (TokenKind::Word, vs[i + 1], a + vs[i].len() + 2, a + vs[i].len() + 2 + vs[i + 1].len()),
            ),
{
    reveal_strlit(", ");
    lemma_enumeration_word(s, a, vs, i, stop);
    let rest = vs.skip(i);
    lemma_comma_front(rest);
    assert(rest.drop_first() =~= vs.skip(i + 1));
    let a2 = a + vs[i].len() + 2;
    assert(a2 + comma_joined(vs.skip(i + 1)).len() == stop);
    lemma_enumeration_word(s, a2, vs, i + 1, stop);
    assert(blanks(s, a + vs[i].len() + 1, a2));
    lemma_forces_word(s, a + vs[i].len() + 1, a2, vs[i + 1]);
}

/// From position `b`, the fields of a product from the `j`th on stand, ending
/// at `stop`, and the closing indentation and brace follow.
pub open spec fn product_at(s: Seq<char>, b: int, fs: Seq<SchemaExprField>, ind: nat, j: int, stop: int) -> bool {
    &&& 0 <= j < fs.len()
    &&& text_at(s, b, fields_text(fs, ind, j))
    &&& b + fields_text(fs, ind, j).len() == stop
    &&& text_at(s, stop, indentation(ind) + "}"@)
    &&& fields_plain(fs)
    &&& fields_well_named(fs)
}

/// The layout of the `j`th field line.
pub proof fn lemma_product_parts(s: Seq<char>, b: int, fs: Seq<SchemaExprField>, ind: nat, j: int, stop: int)
    requires
        product_at(s, b, fs, ind, j, stop),
    ensures
        ({
            let i1 = indentation(ind + 1);
            let name = fs[j].name@;
            let ep = b + i1.len() + name.len() + 2;
            let et = expr_text(*fs[j].schema, ind + 1);
            let ee = ep + et.len();
            &&& blanks(s, b, b + i1.len())
            &&& text_at(s, b + i1.len(), name)
            &&& plain_word(name)
            &&& s[b + i1.len() + name.len()] == ':'
            &&& s[b + i1.len() + name.len() + 1] == ' '
            &&& text_at(s, ep, et)
            &&& expr_plain(*fs[j].schema)
            &&& expr_well_named(*fs[j].schema)
            &&& (j + 1 < fs.len() ==> s[ee] == ',' && s[ee + 1] == '\n' && product_at(s, ee + 2, fs, ind, j + 1, stop))
            &&& (j + 1 == fs.len() ==> s[ee] == '\n' && ee + 1 == stop)
        }),
{
    reveal_strlit(": ");
    reveal_strlit(",");
    reveal_strlit("\n");
    let i1 = indentation(ind + 1);
    let name = fs[j].name@;
    let et = expr_text(*fs[j].schema, ind + 1);
    let sep = if j + 1 < fs.len() { ","@ } else { Seq::<char>::empty() };
    let next = fields_text(fs, ind, j + 1);
    assert(fields_text(fs, ind, j) == i1 + name + ": "@ + et + sep + "\n"@ + next);
    lemma_text_split(s, b, i1 + name + ": "@ + et + sep + "\n"@, next);
    lemma_text_split(s, b, i1 + name + ": "@ + et + sep, "\n"@);
    lemma_text_split(s, b, i1 + name + ": "@ + et, sep);
    lemma_text_split(s, b, i1 + name + ": "@, et);
    lemma_text_split(s, b, i1 + name, ": "@);
    lemma_text_split(s, b, i1, name);
    crate::reading::lemma_indentation_blank(ind + 1);
    crate::reading::lemma_blank_text(s, b, i1);
    lemma_fields_plain_at(fs, j);
    lemma_fields_named_at(fs, j);
    let ep = b + i1.len() + name.len() + 2;
    let ee = ep + et.len();
    lemma_text_char(s, b + i1.len() + name.len(), ": "@, 0);
    lemma_text_char(s, b + i1.len() + name.len(), ": "@, 1);
    if j + 1 < fs.len() {
        lemma_text_char(s, ee, ","@, 0);
        lemma_text_char(s, ee + 1, "\n"@, 0);
    } else {
        lemma_text_char(s, ee, "\n"@, 0);
        assert(next.len() == 0);
    }
}

/// The first field's name is the token after the opening brace; with no
/// fields, the closing brace is.
pub proof fn lemma_product_first(s: Seq<char>, pos: int, fs: Seq<SchemaExprField>, ind: nat)
    requires
        blanks(s, pos, pos + 1),
        text_at(s, pos + 1, fields_text(fs, ind, 0) + (indentation(ind) + "}"@)),
        fields_plain(fs),
        fields_well_named(fs),
    ensures
        ({
            let stop = pos + 1 + fields_text(fs, ind, 0).len();
            &&& text_at(s, stop, indentation(ind) + "}"@)
            &&& (fs.len() > 0 ==> product_at(s, pos + 1, fs, ind, 0, stop) && forall|t: Option<(TokenKind, Seq<char>, int, int)>|
                #[trigger] token_fits(s, pos, t) ==> t == Some(
                    (
                        TokenKind::Word,
                        fs[0].name@,
                        pos + 1 + indentation(ind + 1).len(),
                        pos + 1 + indentation(ind + 1).len() + fs[0].name@.len(),
                    ),
                ))
            &&& (fs.len() == 0 ==> forall|t: Option<(TokenKind, Seq<char>, int, int)>|
                #[trigger] token_fits(s, pos, t) ==> t == Some(
                    (TokenKind::RightBrace, Seq::<char>::empty(), stop + indentation(ind).len(), stop + indentation(ind).len() + 1),
                ))
        }),
{
    reveal_strlit("}");
    let ft = fields_text(fs, ind, 0);
    let stop = pos + 1 + ft.len();
    lemma_text_split(s, pos + 1, ft, indentation(ind) + "}"@);
    lemma_text_split(s, stop, indentation(ind), "}"@);
    crate::reading::lemma_indentation_blank(ind);
    crate::reading::lemma_blank_text(s, stop, indentation(ind));
    if fs.len() > 0 {
        assert(product_at(s, pos + 1, fs, ind, 0, stop));
        lemma_product_parts(s, pos + 1, fs, ind, 0, stop);
        let b1 = pos + 1 + indentation(ind + 1).len();
        assert(punctuation(':') is Some);
        lemma_forces_word(s, pos, b1, fs[0].name@);
    } else {
        assert(ft.len() == 0);
        lemma_text_char(s, stop + indentation(ind).len(), "}"@, 0);
        lemma_forces_punct(s, pos, stop + indentation(ind).len());
    }
}

/// After the `j`th name comes a colon.
pub proof fn lemma_product_name(s: Seq<char>, b: int, fs: Seq<SchemaExprField>, ind: nat, j: int, stop: int)
    requires
        product_at(s, b, fs, ind, j, stop),
    ensures
        forall|t: Option<(TokenKind, Seq<char>, int, int)>|
            #[trigger] token_fits(s, b + indentation(ind + 1).len() + fs[j].name@.len(), t) ==> t == Some(
                (
                    TokenKind::Colon,
                    Seq::<char>::empty(),
                    b + indentation(ind + 1).len() + fs[j].name@.len(),
                    b + indentation(ind + 1).len() + fs[j].name@.len() + 1,
                ),
            ),
{
    lemma_product_parts(s, b, fs, ind, j, stop);
    lemma_forces_punct(s, b + indentation(ind + 1).len() + fs[j].name@.len(), b + indentation(ind + 1).len() + fs[j].name@.len());
}

/// After the colon, the field's expression, laid out for reading.
pub proof fn lemma_product_colon(s: Seq<char>, b: int, fs: Seq<SchemaExprField>, ind: nat, j: int, stop: int)
    requires
        product_at(s, b, fs, ind, j, stop),
    ensures
        ({
            let ep = b + indentation(ind + 1).len() + fs[j].name@.len() + 2;
            let et = expr_text(*fs[j].schema, ind + 1);
            &&& text_at(s, ep, et)
            &&& punct_follows(s, ep + et.len())
            &&& expr_plain(*fs[j].schema)
            &&& expr_well_named(*fs[j].schema)
            &&& forall|t: Option<(TokenKind, Seq<char>, int, int)>|
                #[trigger] token_fits(s, b + indentation(ind + 1).len() + fs[j].name@.len() + 1, t) ==> t == Some(
                    (TokenKind::Word, expr_head(*fs[j].schema), ep, ep + expr_head(*fs[j].schema).len()),
                )
        }),
{
    reveal_strlit("}");
    lemma_product_parts(s, b, fs, ind, j, stop);
    let ep = b + indentation(ind + 1).len() + fs[j].name@.len() + 2;
    let et = expr_text(*fs[j].schema, ind + 1);
    let ee = ep + et.len();
    if j + 1 < fs.len() {
        assert(blanks(s, ee, ee));
        assert(punctuation(',') is Some);
    } else {
        lemma_text_split(s, stop, indentation(ind), "}"@);
        crate::reading::lemma_indentation_blank(ind);
        crate::reading::lemma_blank_text(s, stop, indentation(ind));
        lemma_text_char(s, stop + indentation(ind).len(), "}"@, 0);
        assert(is_whitespace('\n'));
        assert(blanks(s, ee, stop + indentation(ind).len()));
        assert(punctuation('}') is Some);
    }
    assert(punct_follows(s, ee));
    assert(blanks(s, ep - 1, ep));
    lemma_forces_expr(s, ep - 1, ep, *fs[j].schema, ind + 1);
}

/// After the `j`th expression: a comma and the next field, or the closing
/// brace.
pub proof fn lemma_product_after(
    s: Seq<char>,
    b: int,
    fs: Seq<SchemaExprField>,
    ind: nat,
    j: int,
    stop: int,
    tok: (TokenKind, Seq<char>, int, int),
)
    requires
        product_at(s, b, fs, ind, j, stop),
        token_fits(
            s,
            b + indentation(ind + 1).len() + fs[j].name@.len() + 2 + expr_text(*fs[j].schema, ind + 1).len(),
            Some(tok),
        ),
    ensures
        ({
            let ee = b + indentation(ind + 1).len() + fs[j].name@.len() + 2 + expr_text(*fs[j].schema, ind + 1).len();
            &&& (j + 1 < fs.len() ==> tok == (TokenKind::Comma, Seq::<char>::empty(), ee, ee + 1) && product_at(
                s,
                ee + 2,
                fs,
                ind,
                j + 1,
                stop,
            ) && forall|t: Option<(TokenKind, Seq<char>, int, int)>|
                #[trigger] token_fits(s, ee + 1, t) ==> t == Some(
                    (
                        TokenKind::Word,
                        fs[j + 1].name@,
                        ee + 2 + indentation(ind + 1).len(),
                        ee + 2 + indentation(ind + 1).len() + fs[j + 1].name@.len(),
                    ),
                ))
            &&& (j + 1 == fs.len() ==> tok == (
                TokenKind::RightBrace,
                Seq::<char>::empty(),
                stop + indentation(ind).len(),
                stop + indentation(ind).len() + 1,
            ))
        }),
{
    reveal_strlit("}");
    lemma_product_parts(s, b, fs, ind, j, stop);
    let ee = b + indentation(ind + 1).len() + fs[j].name@.len() + 2 + expr_text(*fs[j].schema, ind + 1).len();
    if j + 1 < fs.len() {
        lemma_punct_token(s, ee, ee, Some(tok));
        lemma_product_parts(s, ee + 2, fs, ind, j + 1, stop);
        assert(blanks(s, ee + 1, ee + 2));
        lemma_blanks_join(s, ee + 1, ee + 2, ee + 2 + indentation(ind + 1).len());
        assert(punctuation(':') is Some);
        lemma_forces_word(s, ee + 1, ee + 2 + indentation(ind + 1).len(), fs[j + 1].name@);
    } else {
        lemma_text_split(s, stop, indentation(ind), "}"@);
        crate::reading::lemma_indentation_blank(ind);
        crate::reading::lemma_blank_text(s, stop, indentation(ind));
        lemma_text_char(s, stop + indentation(ind).len(), "}"@, 0);
        assert(blanks(s, ee, ee + 1));
        lemma_blanks_join(s, ee, stop, stop + indentation(ind).len());
        lemma_punct_token(s, ee, stop + indentation(ind).len(), Some(tok));
    }
}

/// An expression's keyword tells its kind.
pub proof fn lemma_head_tells(e: SchemaExpr)
    ensures
        expr_head(e) == "finite-scalar"@ ==> e is FiniteScalar,
        expr_head(e) == "positive-integer"@ ==> e is PositiveInteger,
        expr_head(e) == "finite-number"@ ==> e is FiniteNumber,
        expr_head(e) == "text"@ ==> e is Text,
        expr_head(e) == "address-reference"@ ==> e is AddressReference,
        expr_head(e) == "sequence"@ ==> e is Sequence,
        expr_head(e) == "presence"@ ==> e is Presence,
        expr_head(e) == "enumeration"@ ==> e is Enumeration,
        expr_head(e) == "product"@ ==> e is Product,
        expr_head(e) == "alternative"@ ==> e is Alternative,
{
    reveal_strlit("finite-scalar");
    reveal_strlit("positive-integer");
    reveal_strlit("finite-number");
    reveal_strlit("text");
    reveal_strlit("enumeration");
    reveal_strlit("product");
    reveal_strlit("sequence");
    reveal_strlit("alternative");
    reveal_strlit("address-reference");
    reveal_strlit("presence");
    assert("finite-scalar"@.len() == 13);
    assert("positive-integer"@.len() == 16);
    assert("finite-number"@.len() == 13);
    assert("text"@.len() == 4);
    assert("address-reference"@.len() == 17);
    assert("sequence"@.len() == 8);
    assert("presence"@.len() == 8);
    assert("enumeration"@.len() == 11);
    assert("product"@.len() == 7);
    assert("alternative"@.len() == 11);
    assert("finite-scalar"@[7] != "finite-number"@[7]);
    assert("sequence"@[0] != "presence"@[0]);
    assert("enumeration"@[0] != "alternative"@[0]);
}

/// Parses one schema expression. Where the cursor reads the canonical text
/// of an expression, the result has that expression's shape and the cursor
/// moves to the token after it.
#[verifier::rlimit(100)]
#[verifier::spinoff_prover]
pub fn parse_schema_expr(c: &mut Cursor, Ghost(expected): Ghost<Option<(SchemaExpr, nat, int)>>) -> (r: Result<SchemaExpr, Failure>)
    requires
        old(c).wf(),
        expected matches Some((e, ind, p)) ==> expr_layout(*old(c), e, ind, p),
    ensures
        final(c).source() == old(c).source(),
        r is Ok ==> final(c).wf() && final(c).remaining() < old(c).remaining(),
        r matches Ok(e) ==> expr_well_named(e),
        r matches Err(f) ==> f.at <= old(c).source().len(),
        expected matches Some((e, ind, p)) ==> (r matches Ok(x) && shape_of(x) == shape_of(e) && token_fits(
            old(c).source(),
            p + expr_text(e, ind).len(),
            Some(final(c).token()),
        )),
    decreases old(c).remaining(),
{
    let ghost src = c.source();
    let ghost canon = expected is Some;
    let ghost e = match expected {
        Some(t) => t.0,
        None => SchemaExpr::Text,
    };
    let ghost ind = match expected {
        Some(t) => t.1,
        None => 0nat,
    };
    let ghost p = match expected {
        Some(t) => t.2,
        None => 0int,
    };
    let ghost x = expr_text(e, ind);
    let ghost end = p + x.len();
    let ghost h = expr_head(e);
    proof {
        reveal_strlit("finite-scalar");
        reveal_strlit("positive-integer");
        reveal_strlit("finite-number");
        reveal_strlit("text");
        reveal_strlit("enumeration");
        reveal_strlit("product");
        reveal_strlit("sequence");
        reveal_strlit("alternative");
        reveal_strlit("address-reference");
        reveal_strlit("presence");
        reveal_strlit("enumeration { ");
        reveal_strlit(" }");
        reveal_strlit("product {\n");
        reveal_strlit("}");
        reveal_strlit("sequence<");
        reveal_strlit("presence<");
        reveal_strlit(">");
        reveal_strlit(", ");
        reveal_strlit(": ");
        reveal_strlit(",");
        reveal_strlit("\n");
        if canon {
            lemma_expr_head(e, ind);
            lemma_head_tells(e);
            if h.len() == x.len() {
                lemma_forces_some(src, end);
            } else if h == "sequence"@ || h == "presence"@ {
                lemma_text_char(src, p, x, 8);
                lemma_forces_punct(src, p + 8, p + 8);
            } else if h == "enumeration"@ {
                lemma_text_char(src, p, x, 11);
                lemma_text_char(src, p, x, 12);
                lemma_forces_punct(src, p + 11, p + 12);
            } else {
                assert(h == "product"@);
                lemma_text_char(src, p, x, 7);
                lemma_text_char(src, p, x, 8);
                lemma_forces_punct(src, p + 7, p + 8);
            }
        }
    }
    let at = c.at();
    let word = c.take_word()?;
    let w = word.as_str();
    if str_eq(w, "finite-scalar") {
        Ok(SchemaExpr::FiniteScalar)
    } else if str_eq(w, "positive-integer") {
        Ok(SchemaExpr::PositiveInteger)
    } else if str_eq(w, "finite-number") {
        Ok(SchemaExpr::FiniteNumber)
    } else if str_eq(w, "text") {
        Ok(SchemaExpr::Text)
    } else if str_eq(w, "address-reference") {
        Ok(SchemaExpr::AddressReference)
    } else if str_eq(w, "sequence") || str_eq(w, "presence") {
        let ghost inner = match e {
            SchemaExpr::Sequence(i) => *i,
            SchemaExpr::Presence(i) => *i,
            _ => e,
        };
        let ghost it = expr_text(inner, ind);
        proof {
            if canon {
                let lead = if h == "sequence"@ { "sequence<"@ } else { "presence<"@ };
                assert(word@ == h);
                match e {
                    SchemaExpr::Sequence(i) => {
                        assert(h == "sequence"@);
                        assert(x == lead + it + ">"@);
                    },
                    SchemaExpr::Presence(i) => {
                        assert(h[0] == 'p');
                        assert("sequence"@[0] == 's');
                        assert(h != "sequence"@);
                        assert(x == lead + it + ">"@);
                    },
                    _ => {
                        assert(false);
                    },
                }
                lemma_text_split(src, p, lead + it, ">"@);
                lemma_text_split(src, p, lead, it);
                lemma_text_char(src, p + 9 + it.len(), ">"@, 0);
                assert(blanks(src, p + 9 + it.len(), p + 9 + it.len()));
                assert(punct_follows(src, p + 9 + it.len()));
                lemma_forces_expr(src, p + 9, p + 9, inner, ind);
            }
        }
        c.expect(TokenKind::LeftAngle)?;
        let inner_x = parse_schema_expr(
            c,
            Ghost(
                if canon {
                    Some((inner, ind, p + 9))
                } else {
                    None
                },
            ),
        )?;
        proof {
            if canon {
                lemma_punct_token(src, p + 9 + it.len(), p + 9 + it.len(), Some(c.token()));
                lemma_forces_some(src, end);
            }
        }
        c.expect(TokenKind::RightAngle)?;
        if str_eq(w, "sequence") {
            let e2 = SchemaExpr::Sequence(Box::new(inner_x));
            assert(expr_well_named(e2));
            Ok(e2)
        } else {
            let e2 = SchemaExpr::Presence(Box::new(inner_x));
            assert(expr_well_named(e2));
            Ok(e2)
        }
    } else if str_eq(w, "enumeration") {
        let ghost vals = match e {
            SchemaExpr::Enumeration(v) => v@,
            _ => Seq::empty(),
        };
        let ghost vs = texts(vals);
        let ghost joined = comma_joined(vs);
        proof {
            if canon {
                assert(x == "enumeration { "@ + joined + " }"@);
                lemma_text_split(src, p, "enumeration { "@ + joined, " }"@);
                lemma_text_split(src, p, "enumeration { "@, joined);
                lemma_text_char(src, p, x, 13);
                lemma_text_char(src, p + 14 + joined.len(), " }"@, 0);
                lemma_text_char(src, p + 14 + joined.len(), " }"@, 1);
                assert(word@ == h);
                match e {
                    SchemaExpr::Enumeration(v) => {},
                    _ => {
                        assert(false);
                    },
                }
                assert(vs.skip(0) =~= vs);
                assert forall|k: int| 0 <= k < vs.len() implies plain_word(#[trigger] vs[k]) by {
                    assert(vs[k] == vals[k]@);
                }
                if vs.len() == 0 {
                    assert(blanks(src, p + 13, p + 15));
                    lemma_forces_punct(src, p + 13, p + 15);
                } else {
                    lemma_comma_front(vs);
                    lemma_enumeration_word(src, p + 14, vs, 0, p + 14 + joined.len());
                    assert(blanks(src, p + 13, p + 14));
                    lemma_forces_word(src, p + 13, p + 14, vs[0]);
                }
            }
        }
        c.expect(TokenKind::LeftBrace)?;
        let mut values: Vec<String> = Vec::new();
        let ghost mut a: int = p + 14;
        if c.kind() != TokenKind::RightBrace {
            let mut more = true;
            while more
                invariant
                    c.wf(),
                    c.source() == old(c).source(),
                    c.remaining() < old(c).remaining(),
                    src == old(c).source(),
                    canon ==> texts(values@) == vs.take(values@.len() as int) && values@.len() <= vs.len(),
                    canon && more ==> values@.len() < vs.len() && enumeration_at(src, a, vs, values@.len() as int, p + 14 + joined.len())
                        && c.token() == (TokenKind::Word, vs[values@.len() as int], a, a + vs[values@.len() as int].len()),
                    canon && !more ==> values@.len() == vs.len() && c.token() == (
                        TokenKind::RightBrace,
                        Seq::<char>::empty(),
                        p + 15 + joined.len(),
                        p + 16 + joined.len(),
                    ),
                    canon ==> x == "enumeration { "@ + joined + " }"@ && end == p + 16 + joined.len(),
                    canon == (expected is Some),
                    canon ==> expected == Some((e, ind, p)) && x == expr_text(e, ind) && end == p + x.len(),
                    canon ==> text_at(src, p + 14 + joined.len(), " }"@),
                decreases c.remaining(),
            {
                let ghost i = values@.len() as int;
                proof {
                    if canon {
                        lemma_enumeration_step(src, a, vs, i, p + 14 + joined.len());
                    }
                }
                let value = c.take_word()?;
                let ghost before = values@;
                values.push(value);
                proof {
                    if canon {
                        assert(texts(values@) =~= vs.take(i + 1));
                    }
                }
                if c.kind() == TokenKind::Comma {
                    proof {
                        if canon {
                            lemma_enumeration_next(src, a, vs, i, p + 14 + joined.len());
                        }
                    }
                    c.advance()?;
                    proof {
                        if canon {
                            a = a + vs[i].len() + 2;
                        }
                    }
                } else {
                    more = false;
                }
            }
        }
        proof {
            if canon {
                if vs.len() == 0 {
                    assert(texts(values@) =~= vs);
                }
                assert(texts(values@) =~= vs);
                lemma_forces_some(src, end);
            }
        }
        c.expect(TokenKind::RightBrace)?;
        Ok(SchemaExpr::Enumeration(values))
    } else if str_eq(w, "product") {
        let ghost fs = match e {
            SchemaExpr::Product(f) => f@,
            _ => Seq::empty(),
        };
        let ghost ft = fields_text(fs, ind, 0);
        let ghost closing = indentation(ind) + "}"@;
        proof {
            if canon {
                assert(word@ == h);
                match e {
                    SchemaExpr::Product(f) => {},
                    _ => {
                        assert(false);
                    },
                }
                assert(x == "product {\n"@ + ft + indentation(ind) + "}"@);
                assert(x == "product {\n"@ + (ft + closing));
                lemma_text_split(src, p, "product {\n"@, ft + closing);
                lemma_text_char(src, p, x, 9);
                assert(blanks(src, p + 9, p + 10));
                lemma_product_first(src, p + 9, fs, ind);
            }
        }
        c.expect(TokenKind::LeftBrace)?;
        let mut fields: Vec<SchemaExprField> = Vec::new();
        let ghost mut b: int = p + 10;
        if c.kind() != TokenKind::RightBrace {
            let mut more = true;
            while more
                invariant
                    c.wf(),
                    c.source() == old(c).source(),
                    c.remaining() < old(c).remaining(),
                    fields_well_named(fields@),
                    src == old(c).source(),
                    canon ==> fields@.len() <= fs.len() && forall|k: int|
                        0 <= k < fields@.len() ==> fields@[k].name@ == #[trigger] fs[k].name@ && shape_of(*fields@[k].schema) == shape_of(
                            *fs[k].schema,
                        ),
                    canon && more ==> fields@.len() < fs.len() && product_at(src, b, fs, ind, fields@.len() as int, p + 10 + ft.len()) && c.token() == (
                        TokenKind::Word,
                        fs[fields@.len() as int].name@,
                        b + indentation(ind + 1).len(),
                        b + indentation(ind + 1).len() + fs[fields@.len() as int].name@.len(),
                    ),
                    canon && !more ==> fields@.len() == fs.len() && c.token() == (
                        TokenKind::RightBrace,
                        Seq::<char>::empty(),
                        end - 1,
                        end,
                    ),
                    canon == (expected is Some),
                    canon ==> expected == Some((e, ind, p)) && x == expr_text(e, ind) && end == p + x.len(),
                    canon ==> closing.len() == indentation(ind).len() + 1,
                    canon ==> fields_plain(fs) && fields_well_named(fs) && end == p + 10 + ft.len() + closing.len()
                        && text_at(src, p + 10 + ft.len(), closing) && closing == indentation(ind) + "}"@,
                decreases c.remaining(),
            {
                let ghost j = fields@.len() as int;
                proof {
                    if canon {
                        lemma_product_name(src, b, fs, ind, j, p + 10 + ft.len());
                        lemma_fields_named_at(fs, j);
                        assert forall|k: int| 0 <= k < j implies schema_field_names(fields@)[k] != fs[j].name@ by {
                            assert(schema_field_names(fields@)[k] == fields@[k].name@);
                            assert(fields@[k].name@ == fs[k].name@);
                        }
                    }
                }
                let name_at = c.at();
                let name = c.take_word()?;
                if has_field(&fields, name.as_str()) {
                    return Err(named_failure(name_at, "duplicate product field", name.as_str()));
                }
                proof {
                    if canon {
                        lemma_product_colon(src, b, fs, ind, j, p + 10 + ft.len());
                    }
                }
                c.expect(TokenKind::Colon)?;
                let ghost ep = b + indentation(ind + 1).len() + fs[j].name@.len() + 2;
                let schema = parse_schema_expr(
                    c,
                    Ghost(
                        if canon {
                            Some((*fs[j].schema, ind + 1, ep))
                        } else {
                            None
                        },
                    ),
                )?;
                let ghost before = fields@;
                fields.push(SchemaExprField { name, schema: Box::new(schema) });
                proof {
                    assert(fields@.drop_last() =~= before);
                    if canon {
                        lemma_product_after(src, b, fs, ind, j, p + 10 + ft.len(), c.token());
                    }
                }
                if c.kind() == TokenKind::Comma {
                    c.advance()?;
                    proof {
                        if canon {
                            b = ep + expr_text(*fs[j].schema, ind + 1).len() + 2;
                        }
                    }
                } else {
                    more = false;
                }
            }
        }
        proof {
            if canon {
                if fs.len() > 0 {
                    assert(fields@.len() == fs.len());
                } else {
                    assert(fields@.len() == 0);
                }
                assert forall|i: int| 0 <= i < fields@.len() implies fields@[i].name@ == fs[i].name@ && shape_of(*fields@[i].schema) == shape_of(
                    *fs[i].schema,
                ) by {
                    assert(fields@[i].name@ == fs[i].name@);
                }
                lemma_field_shapes_pointwise(fields@, fs);
                lemma_forces_some(src, end);
            }
        }
        c.expect(TokenKind::RightBrace)?;
        assert(fields_well_named(fields@));
        let e2 = SchemaExpr::Product(fields);
        assert(expr_well_named(e2));
        Ok(e2)
    } else if str_eq(w, "alternative") {
        proof {
            if canon {
                assert(word@ == h);
                match e {
                    SchemaExpr::Alternative(arms) => {},
                    _ => {
                        assert(false);
                    },
                }
            }
        }
        c.expect(TokenKind::LeftBrace)?;
        let mut arms: Vec<SchemaExprArm> = Vec::new();
        if c.kind() != TokenKind::RightBrace {
            let mut more = true;
            while more
                invariant
                    c.wf(),
                    c.source() == old(c).source(),
                    c.remaining() < old(c).remaining(),
                    arms_well_named(arms@),
                    !canon,
                    canon == (expected is Some),
                decreases c.remaining(),
            {
                let tag_at = c.at();
                let tag = c.take_word()?;
                if has_tag(&arms, tag.as_str()) {
                    return Err(named_failure(tag_at, "duplicate alternative tag", tag.as_str()));
                }
                c.expect(TokenKind::Colon)?;
                let schema = parse_schema_expr(c, Ghost(None))?;
                let ghost before = arms@;
                arms.push(SchemaExprArm { tag, schema: Box::new(schema) });
                proof {
                    assert(arms@.drop_last() =~= before);
                }
                if c.kind() == TokenKind::Comma {
                    c.advance()?;
                } else {
                    more = false;
                }
            }
        }
        c.expect(TokenKind::RightBrace)?;
        assert(arms_well_named(arms@));
        let e2 = SchemaExpr::Alternative(arms);
        assert(expr_well_named(e2));
        Ok(e2)
    } else {
        Err(named_failure(at, "unknown schema expression", w))
    }
}

/// The element kind a word names.
pub fn element_kind_named(w: &str) -> (r: Option<ElementKind>)
    ensures
        r matches Some(k) ==> crate::serialize::element_kind_name(k) == w@,
        r is None ==> forall|k: ElementKind| crate::serialize::element_kind_name(k) != w@,
{
    proof {
        reveal_strlit("description");
        reveal_strlit("block");
        reveal_strlit("port");
        reveal_strlit("connection");
        reveal_strlit("group");
    }
    if str_eq(w, "description") {
        Some(ElementKind::Description)
    } else if str_eq(w, "block") {
        Some(ElementKind::Block)
    } else if str_eq(w, "port") {
        Some(ElementKind::Port)
    } else if str_eq(w, "connection") {
        Some(ElementKind::Connection)
    } else if str_eq(w, "group") {
        Some(ElementKind::Group)
    } else {
        None
    }
}

/// A schema whose canonical document reads back: its namespace is one, its
/// name and every name in its value are plain words, every product names
/// its fields once, and its value holds no alternative.
pub open spec fn schema_reads_back(t: Schema) -> bool {
    &&& is_namespace_text(t.namespace@)
    &&& plain_word(t.name@)
    &&& expr_plain(t.value)
    &&& expr_well_named(t.value)
}

/// Two schemas with the same namespace, name, version, allowed kinds and
/// value shape.
pub open spec fn schema_matches(s: Schema, t: Schema) -> bool {
    &&& s.namespace@ == t.namespace@
    &&& s.name@ == t.name@
    &&& s.version.major_spec() == t.version.major_spec()
    &&& s.version.minor_spec() == t.version.minor_spec()
    &&& s.version.patch_spec() == t.version.patch_spec()
    &&& forall|k: ElementKind| #[trigger] s.allowed_elements.has(k) <==> t.allowed_elements.has(k)
    &&& shape_of(s.value) == shape_of(t.value)
}

/// The names of the allowed kinds among the first `i` are plain words, each
/// the name of an allowed kind, and they name every allowed kind among them.
pub proof fn lemma_allowed_names(kinds: ElementKinds, i: int)
    requires
        0 <= i <= 5,
    ensures
        forall|j: int|
            0 <= j < allowed_names_upto(kinds, i).len() ==> plain_word(#[trigger] allowed_names_upto(kinds, i)[j]),
        forall|j: int|
            0 <= j < allowed_names_upto(kinds, i).len() ==> exists|k: ElementKind|
                element_kind_name(k) == #[trigger] allowed_names_upto(kinds, i)[j],
        forall|k: ElementKind|
            #[trigger] allowed_names_upto(kinds, i).contains(element_kind_name(k)) <==> kinds.has(k) && element_kind_index(k) < i,
    decreases i,
{
    reveal_strlit("description");
    reveal_strlit("block");
    reveal_strlit("port");
    reveal_strlit("connection");
    reveal_strlit("group");
    lemma_kind_names();
    if i == 0 {
        assert(allowed_names_upto(kinds, 0).len() == 0);
    }
    if i > 0 {
        lemma_allowed_names(kinds, i - 1);
        let prev = allowed_names_upto(kinds, i - 1);
        let kk = element_kind_at(i - 1);
        assert(element_kind_index(kk) == i - 1);
        let now = allowed_names_upto(kinds, i);
        if kinds.has(kk) {
            assert(now == prev.push(element_kind_name(kk)));
            assert forall|j: int| 0 <= j < now.len() implies exists|k: ElementKind| element_kind_name(k) == #[trigger] now[j] by {
                if j < prev.len() {
                    assert(now[j] == prev[j]);
                    let k0 = choose|k: ElementKind| element_kind_name(k) == prev[j];
                    assert(element_kind_name(k0) == now[j]);
                } else {
                    assert(now[j] == element_kind_name(kk));
                }
            }
            assert forall|k: ElementKind| #[trigger] now.contains(element_kind_name(k)) <==> kinds.has(k) && element_kind_index(k) < i by {
                if now.contains(element_kind_name(k)) {
                    let j = choose|j: int| 0 <= j < now.len() && now[j] == element_kind_name(k);
                    if j < prev.len() {
                        assert(prev[j] == element_kind_name(k));
                        assert(prev.contains(element_kind_name(k)));
                    } else {
                        assert(k == kk);
                    }
                }
                if kinds.has(k) && element_kind_index(k) < i {
                    if element_kind_index(k) < i - 1 {
                        assert(prev.contains(element_kind_name(k)));
                        let j = choose|j: int| 0 <= j < prev.len() && prev[j] == element_kind_name(k);
                        assert(now[j] == prev[j]);
                    } else {
                        assert(k == kk);
                        assert(now[prev.len() as int] == element_kind_name(k));
                    }
                }
            }
        } else {
            assert(now == prev);
            assert forall|j: int| 0 <= j < now.len() implies exists|k: ElementKind| element_kind_name(k) == #[trigger] now[j] by {
                assert(now[j] == prev[j]);
                let k0 = choose|k: ElementKind| element_kind_name(k) == prev[j];
                assert(element_kind_name(k0) == now[j]);
            }
            assert forall|k: ElementKind| #[trigger] now.contains(element_kind_name(k)) <==> kinds.has(k) && element_kind_index(k) < i by {
                if element_kind_index(k) == i - 1 {
                    assert(k == kk);
                }
            }
        }
    }
}

/// Kind names are plain words, one for each kind.
pub proof fn lemma_kind_names()
    ensures
        forall|k: ElementKind| plain_word(#[trigger] element_kind_name(k)),
        forall|k1: ElementKind, k2: ElementKind| #[trigger] element_kind_name(k1) == #[trigger] element_kind_name(k2) ==> k1 == k2,
{
    reveal_strlit("description");
    reveal_strlit("block");
    reveal_strlit("port");
    reveal_strlit("connection");
    reveal_strlit("group");
    assert("description"@.len() == 11);
    assert("block"@.len() == 5);
    assert("port"@.len() == 4);
    assert("connection"@.len() == 10);
    assert("group"@.len() == 5);
    assert("block"@[0] != "group"@[0]);
}

/// The canonical text of a version is a plain word.
pub proof fn lemma_version_word(x: u64, y: u64, z: u64)
    ensures
        plain_word(crate::version::version_text(x, y, z)),
{
    crate::version::lemma_version_text_parses(x, y, z);
    let a = decimal_text(x as nat);
    let b = decimal_text(y as nat);
    let c = decimal_text(z as nat);
    let v = crate::version::version_text(x, y, z);
    assert(v == a + seq!['.'] + b + seq!['.'] + c);
    assert forall|i: int| 0 <= i < v.len() implies is_word_char(#[trigger] v[i]) by {
        if i < a.len() {
            assert(v[i] == a[i]);
            assert(crate::text::is_digit(a[i]));
        } else if i == a.len() {
            assert(v[i] == '.');
        } else if i < a.len() + 1 + b.len() {
            assert(v[i] == b[i - a.len() - 1]);
            assert(crate::text::is_digit(b[i - a.len() - 1]));
        } else if i == a.len() + 1 + b.len() {
            assert(v[i] == '.');
        } else {
            assert(v[i] == c[i - a.len() - 2 - b.len()]);
            assert(crate::text::is_digit(c[i - a.len() - 2 - b.len()]));
        }
    }
    assert(v.last() == c.last());
    assert(crate::text::is_digit(c[c.len() - 1]));
}

pub proof fn lemma_text_sub(s: Seq<char>, p: int, t: Seq<char>, a: int, b: int)
    requires
        text_at(s, p, t),
        0 <= a <= b <= t.len(),
    ensures
        text_at(s, p + a, t.subrange(a, b)),
{
    assert forall|i: int| 0 <= i < b - a implies s.subrange(p + a, p + b)[i] == t.subrange(a, b)[i] by {
        lemma_text_char(s, p, t, a + i);
    }
    assert(s.subrange(p + a, p + b) =~= t.subrange(a, b));
}

/// The header of a canonical schema document, piece by piece.
pub proof fn lemma_header_facts(src: Seq<char>)
    requires
        text_at(src, 0, "grimoire-schema 1.0.0\nschema {\n    namespace "@),
    ensures
        text_at(src, 0, "grimoire-schema"@),
        blanks(src, 15, 16),
        text_at(src, 16, "1.0.0"@),
        blanks(src, 21, 22),
        text_at(src, 22, "schema"@),
        blanks(src, 28, 29),
        src[29] == '{',
        blanks(src, 30, 35),
        text_at(src, 35, "namespace"@),
        blanks(src, 44, 45),
        word_ends(src, 15) && word_ends(src, 21) && word_ends(src, 28) && word_ends(src, 44),
        plain_word("grimoire-schema"@) && plain_word("1.0.0"@) && plain_word("schema"@) && plain_word("namespace"@),
{
    let a = "grimoire-schema 1.0.0\nschema {\n    namespace "@;
    reveal_strlit("grimoire-schema 1.0.0\nschema {\n    namespace ");
    reveal_strlit("grimoire-schema");
    reveal_strlit("1.0.0");
    reveal_strlit("schema");
    reveal_strlit("namespace");
    assert forall|i: int| 0 <= i < 45 implies src[i] == a[i] by {
        lemma_text_char(src, 0, a, i);
    }
    lemma_text_sub(src, 0, a, 0, 15);
    assert(a.subrange(0, 15) =~= "grimoire-schema"@);
    lemma_text_sub(src, 0, a, 16, 21);
    assert(a.subrange(16, 21) =~= "1.0.0"@);
    lemma_text_sub(src, 0, a, 22, 28);
    assert(a.subrange(22, 28) =~= "schema"@);
    lemma_text_sub(src, 0, a, 35, 44);
    assert(a.subrange(35, 44) =~= "namespace"@);
}

/// `;` and a line, then a keyword and a space.
pub proof fn lemma_line_facts(src: Seq<char>, o: int, lit: Seq<char>, w: Seq<char>)
    requires
        text_at(src, o, lit),
        lit == seq![';', '\n', ' ', ' ', ' ', ' '] + w + seq![' '],
        plain_word(w),
    ensures
        src[o] == ';',
        blanks(src, o + 1, o + 6),
        text_at(src, o + 6, w),
        word_ends(src, o + 6 + w.len()),
        blanks(src, o + 6 + w.len(), o + 7 + w.len()),
{
    assert forall|i: int| 0 <= i < lit.len() implies src[o + i] == lit[i] by {
        lemma_text_char(src, o, lit, i);
    }
    assert(lit[0] == ';');
    assert(lit[1] == '\n');
    assert(lit[2] == ' ' && lit[3] == ' ' && lit[4] == ' ' && lit[5] == ' ');
    assert(src[o] == lit[0]);
    assert(src[o + 1] == lit[1] && src[o + 2] == lit[2] && src[o + 3] == lit[3] && src[o + 4] == lit[4] && src[o + 5] == lit[5]);
    lemma_text_sub(src, o, lit, 6, 6 + w.len() as int);
    assert(lit.subrange(6, 6 + w.len() as int) =~= w);
    assert(src[o + 6 + w.len()] == lit[6 + w.len() as int]);
}

/// Where `;` ends the version line of a schema's canonical document.
pub open spec fn version_end(t: Schema) -> int {
    (45 + quoted(t.namespace@).len() + 11 + t.name@.len() + 14 + t.version.text().len()) as int
}

/// Where the pieces of a canonical schema document stand.
pub proof fn lemma_schema_layout(t: Schema)
    ensures
        ({
            let src = schema_document_text(t);
            let q = quoted(t.namespace@);
            let o3: int = 45 + q.len() as int;
            let on: int = o3 + 11;
            let o5: int = on + t.name@.len();
            let ov: int = o5 + 14;
            let o7: int = ov + t.version.text().len();
            let oj: int = o7 + 15;
            let j = comma_joined(allowed_names(t));
            let o9: int = oj + j.len();
            let ox: int = o9 + 14;
            let o11: int = ox + expr_text(t.value, 1).len();
            &&& src.len() == o11 + 4
            &&& text_at(src, 0, "grimoire-schema 1.0.0\nschema {\n    namespace "@)
            &&& text_at(src, 45, q)
            &&& text_at(src, o3, ";\n    name "@)
            &&& text_at(src, on, t.name@)
            &&& text_at(src, o5, ";\n    version "@)
            &&& text_at(src, ov, t.version.text())
            &&& text_at(src, o7, ";\n    allows { "@)
            &&& text_at(src, oj, j)
            &&& text_at(src, o9, " };\n    value "@)
            &&& text_at(src, ox, expr_text(t.value, 1))
            &&& text_at(src, o11, ";\n}\n"@)
        }),
{
    reveal_strlit("grimoire-schema 1.0.0\nschema {\n");
    reveal_strlit("    namespace ");
    reveal_strlit(";\n");
    reveal_strlit("    name ");
    reveal_strlit("    version ");
    reveal_strlit("    allows { ");
    reveal_strlit(" };\n");
    reveal_strlit("    value ");
    reveal_strlit(";\n}");
    reveal_strlit("\n");
    reveal_strlit("grimoire-schema 1.0.0\nschema {\n    namespace ");
    reveal_strlit(";\n    name ");
    reveal_strlit(";\n    version ");
    reveal_strlit(";\n    allows { ");
    reveal_strlit(" };\n    value ");
    reveal_strlit(";\n}\n");
    reveal(schema_document_text);
    let src = schema_document_text(t);
    let q = quoted(t.namespace@);
    let n = t.name@;
    let v = t.version.text();
    let j = comma_joined(allowed_names(t));
    let x = expr_text(t.value, 1);
    let a1 = "grimoire-schema 1.0.0\nschema {\n    namespace "@;
    let a2 = ";\n    name "@;
    let a3 = ";\n    version "@;
    let a4 = ";\n    allows { "@;
    let a5 = " };\n    value "@;
    let a6 = ";\n}\n"@;
    assert(src =~= a1 + q + a2 + n + a3 + v + a4 + j + a5 + x + a6);
    assert(src.subrange(0, src.len() as int) =~= src);
    assert(text_at(src, 0, src));
    lemma_text_split(src, 0, a1 + q + a2 + n + a3 + v + a4 + j + a5 + x, a6);
    lemma_text_split(src, 0, a1 + q + a2 + n + a3 + v + a4 + j + a5, x);
    lemma_text_split(src, 0, a1 + q + a2 + n + a3 + v + a4 + j, a5);
    lemma_text_split(src, 0, a1 + q + a2 + n + a3 + v + a4, j);
    lemma_text_split(src, 0, a1 + q + a2 + n + a3 + v, a4);
    lemma_text_split(src, 0, a1 + q + a2 + n + a3, v);
    lemma_text_split(src, 0, a1 + q + a2 + n, a3);
    lemma_text_split(src, 0, a1 + q + a2, n);
    lemma_text_split(src, 0, a1 + q, a2);
    lemma_text_split(src, 0, a1, q);
}

/// Reads the head of a schema document: its grammar version, namespace,
/// name and version. Where the cursor reads a canonical document, they are
/// the schema's, and the cursor moves to `allows`.
#[verifier::rlimit(100)]
#[verifier::spinoff_prover]
fn parse_schema_head(c: &mut Cursor, Ghost(expected): Ghost<Option<Schema>>) -> (r: Result<(Namespace, String, Version), Failure>)
    requires
        old(c).wf(),
        expected matches Some(t) ==> old(c).source() == schema_document_text(t) && schema_reads_back(t) && token_fits(
            old(c).source(),
            0,
            Some(old(c).token()),
        ),
    ensures
        final(c).source() == old(c).source(),
        r is Ok ==> final(c).wf(),
        r matches Err(f) ==> f.at <= old(c).source().len(),
        expected matches Some(t) ==> (r matches Ok((n, nm, v)) && n@ == t.namespace@ && nm@ == t.name@
            && v.major_spec() == t.version.major_spec() && v.minor_spec() == t.version.minor_spec() && v.patch_spec()
            == t.version.patch_spec() && final(c).token() == (
            TokenKind::Word,
            "allows"@,
            version_end(t) + 6,
            version_end(t) + 12,
        )),
{
    let ghost canon = expected is Some;
    let ghost t = choose|t: Schema| expected == Some(t);
    let ghost src = c.source();
    let ghost q = quoted(t.namespace@);
    let ghost o3: int = 45 + q.len() as int;
    let ghost on: int = o3 + 11;
    let ghost o5: int = on + t.name@.len();
    let ghost ov: int = o5 + 14;
    let ghost o7: int = version_end(t);
    let ghost oj: int = o7 + 15;
    let ghost names = allowed_names(t);
    let ghost joined = comma_joined(names);
    let ghost o9: int = oj + joined.len();
    let ghost ox: int = o9 + 14;
    let ghost o11: int = ox + expr_text(t.value, 1).len();
    let ghost a1 = "grimoire-schema 1.0.0\nschema {\n    namespace "@;
    let ghost a2 = ";\n    name "@;
    let ghost a3 = ";\n    version "@;
    let ghost a4 = ";\n    allows { "@;
    let ghost a5 = " };\n    value "@;
    let ghost a6 = ";\n}\n"@;
    proof {
        reveal_strlit("grimoire-schema 1.0.0\nschema {\n    namespace ");
        reveal_strlit(";\n    name ");
        reveal_strlit(";\n    version ");
        reveal_strlit(";\n    allows { ");
        reveal_strlit(" };\n    value ");
        reveal_strlit(";\n}\n");
        reveal_strlit("grimoire-schema");
        reveal_strlit("1.0.0");
        reveal_strlit("schema");
        reveal_strlit("namespace");
        reveal_strlit("name");
        reveal_strlit("version");
        reveal_strlit("allows");
        reveal_strlit("value");
        reveal_strlit(" }");
        if canon {
            lemma_schema_layout(t);
            lemma_header_facts(src);
            reveal_strlit("name");
            reveal_strlit("version");
            reveal_strlit("allows");
            reveal_strlit("value");
            assert(a2 =~= seq![';', '\n', ' ', ' ', ' ', ' '] + "name"@ + seq![' ']);
            lemma_line_facts(src, o3, a2, "name"@);
            assert(a3 =~= seq![';', '\n', ' ', ' ', ' ', ' '] + "version"@ + seq![' ']);
            lemma_line_facts(src, o5, a3, "version"@);
            assert(a4 =~= seq![';', '\n', ' ', ' ', ' ', ' '] + "allows"@ + seq![' '] + seq!['{', ' ']);
            lemma_text_split(src, o7, seq![';', '\n', ' ', ' ', ' ', ' '] + "allows"@ + seq![' '], seq!['{', ' ']);
            lemma_line_facts(src, o7, seq![';', '\n', ' ', ' ', ' ', ' '] + "allows"@ + seq![' '], "allows"@);
            lemma_text_char(src, o7 + 13, seq!['{', ' '], 0);
            lemma_text_char(src, o7 + 13, seq!['{', ' '], 1);
            lemma_version_word(t.version.major_spec(), t.version.minor_spec(), t.version.patch_spec());
            lemma_version_word(1, 0, 0);
            crate::version::lemma_version_text_parses(1, 0, 0);
            crate::version::lemma_version_text_parses(t.version.major_spec(), t.version.minor_spec(), t.version.patch_spec());
            assert(crate::version::version_text(1, 0, 0) =~= "1.0.0"@);
            assert(blanks(src, 0, 0));
            lemma_forces_word(src, 0, 0, "grimoire-schema"@);
            assert(blanks(src, 15, 16));
            lemma_forces_word(src, 15, 16, "1.0.0"@);
        }
    }
    c.expect_word("grimoire-schema")?;
    proof {
        if canon {
            assert(blanks(src, 21, 22));
            lemma_forces_word(src, 21, 22, "schema"@);
        }
    }
    let _grammar = parse_version(c)?;
    proof {
        if canon {
            assert(blanks(src, 28, 29));
            lemma_forces_punct(src, 28, 29);
        }
    }
    c.expect_word("schema")?;
    proof {
        if canon {
            assert(blanks(src, 30, 35));
            lemma_forces_word(src, 30, 35, "namespace"@);
        }
    }
    c.expect(TokenKind::LeftBrace)?;
    proof {
        if canon {
            let ns = t.namespace@;
            let esc = crate::serialize::escaped(ns);
            let pre = src.subrange(0, 46);
            let rest = src.subrange(o3, src.len() as int);
            assert(q == seq!['"'] + esc + seq!['"']);
            assert forall|i: int| 0 <= i < src.len() implies src[i] == (pre + esc + seq!['"'] + rest)[i] by {
                if 45 <= i < o3 {
                    lemma_text_char(src, 45, q, i - 45);
                }
            }
            assert(src =~= pre + esc + seq!['"'] + rest);
            crate::serialize::lemma_escaped_reads_back(pre, ns, rest);
            lemma_text_char(src, 45, q, 0);
            assert(string_from(src, 46) == Some((ns, o3)));
            crate::reading::lemma_forces_text(src, 44, 45);
            assert(blanks(src, 44, 45));
        }
    }
    c.expect_word("namespace")?;
    proof {
        if canon {
            lemma_forces_punct(src, o3, o3);
        }
    }
    let namespace = parse_namespace(c)?;
    proof {
        if canon {
            assert(blanks(src, o3 + 1, o3 + 6));
            lemma_forces_word(src, o3 + 1, o3 + 6, "name"@);
        }
    }
    c.expect(TokenKind::Semicolon)?;
    proof {
        if canon {
            assert(blanks(src, o3 + 10, on));
            lemma_forces_word(src, o3 + 10, on, t.name@);
        }
    }
    c.expect_word("name")?;
    proof {
        if canon {
            lemma_forces_punct(src, o5, o5);
        }
    }
    let name = c.take_word()?;
    proof {
        if canon {
            assert(blanks(src, o5 + 1, o5 + 6));
            lemma_forces_word(src, o5 + 1, o5 + 6, "version"@);
        }
    }
    c.expect(TokenKind::Semicolon)?;
    proof {
        if canon {
            assert(blanks(src, o5 + 13, ov));
            lemma_forces_word(src, o5 + 13, ov, t.version.text());
        }
    }
    c.expect_word("version")?;
    proof {
        if canon {
            lemma_forces_punct(src, o7, o7);
        }
    }
    let version = parse_version(c)?;
    proof {
        if canon {
            assert(blanks(src, o7 + 1, o7 + 6));
            lemma_forces_word(src, o7 + 1, o7 + 6, "allows"@);
        }
    }
    c.expect(TokenKind::Semicolon)?;
    proof {
        if canon {
            assert(blanks(src, o7 + 12, o7 + 13));
            lemma_forces_punct(src, o7 + 12, o7 + 13);
        }
    }
    proof {
        if canon {
            crate::version::lemma_version_text_parses(t.version.major_spec(), t.version.minor_spec(), t.version.patch_spec());
        }
    }
    Ok((namespace, name, version))
}

/// Reads the body of a schema document. Where the cursor reads the
/// canonical document of a schema, the result matches it.
#[verifier::rlimit(100)]
#[verifier::spinoff_prover]
fn parse_schema_body(c: &mut Cursor, Ghost(expected): Ghost<Option<Schema>>) -> (r: Result<Schema, Failure>)
    requires
        old(c).wf(),
        expected matches Some(t) ==> old(c).source() == schema_document_text(t) && schema_reads_back(t) && token_fits(
            old(c).source(),
            0,
            Some(old(c).token()),
        ),
    ensures
        final(c).source() == old(c).source(),
        r is Ok ==> final(c).wf(),
        r matches Ok(s) ==> expr_well_named(s.value),
        r matches Err(f) ==> f.at <= old(c).source().len(),
        expected matches Some(t) ==> (r matches Ok(s) && schema_matches(s, t)),
{
    let ghost canon = expected is Some;
    let ghost t = choose|t: Schema| expected == Some(t);
    let ghost src = c.source();
    let ghost q = quoted(t.namespace@);
    let ghost o3: int = 45 + q.len() as int;
    let ghost on: int = o3 + 11;
    let ghost o5: int = on + t.name@.len();
    let ghost ov: int = o5 + 14;
    let ghost o7: int = version_end(t);
    let ghost oj: int = o7 + 15;
    let ghost names = allowed_names(t);
    let ghost joined = comma_joined(names);
    let ghost o9: int = oj + joined.len();
    let ghost ox: int = o9 + 14;
    let ghost o11: int = ox + expr_text(t.value, 1).len();
    let ghost a1 = "grimoire-schema 1.0.0\nschema {\n    namespace "@;
    let ghost a2 = ";\n    name "@;
    let ghost a3 = ";\n    version "@;
    let ghost a4 = ";\n    allows { "@;
    let ghost a5 = " };\n    value "@;
    let ghost a6 = ";\n}\n"@;
    proof {
        reveal_strlit(";\n    allows { ");
        reveal_strlit(" };\n    value ");
        reveal_strlit(";\n}\n");
        reveal_strlit("allows");
        reveal_strlit("value");
        reveal_strlit(" }");
        if canon {
            lemma_schema_layout(t);
            assert(a4 =~= seq![';', '\n', ' ', ' ', ' ', ' '] + "allows"@ + seq![' '] + seq!['{', ' ']);
            lemma_text_split(src, o7, seq![';', '\n', ' ', ' ', ' ', ' '] + "allows"@ + seq![' '], seq!['{', ' ']);
            lemma_line_facts(src, o7, seq![';', '\n', ' ', ' ', ' ', ' '] + "allows"@ + seq![' '], "allows"@);
            lemma_text_char(src, o7 + 13, seq!['{', ' '], 0);
            lemma_text_char(src, o7 + 13, seq!['{', ' '], 1);
            let l5 = seq![';', '\n', ' ', ' ', ' ', ' '] + "value"@ + seq![' '];
            lemma_text_sub(src, o9, a5, 2, 14);
            assert(a5.subrange(2, 14) =~= l5);
            lemma_line_facts(src, o9 + 2, l5, "value"@);
            lemma_text_char(src, o9, a5, 0);
            lemma_text_char(src, o9, a5, 1);
            assert(text_at(src, o9, " }"@)) by {
                assert(src.subrange(o9, o9 + 2) =~= " }"@);
            }
            lemma_text_char(src, o11, a6, 0);
            lemma_text_char(src, o11, a6, 1);
            lemma_text_char(src, o11, a6, 2);
            lemma_text_char(src, o11, a6, 3);
            assert(a6[0] == ';' && a6[1] == '\n' && a6[2] == '}' && a6[3] == '\n');
            assert(src[o11] == ';' && src[o11 + 1] == '\n' && src[o11 + 2] == '}' && src[o11 + 3] == '\n');
            lemma_kind_names();
            lemma_allowed_names(t.allowed_elements, 5);
        }
    }
    let (namespace, name, version) = parse_schema_head(c, Ghost(expected))?;
    proof {
        if canon {
            assert(blanks(src, o7 + 12, o7 + 13));
            lemma_forces_punct(src, o7 + 12, o7 + 13);
        }
    }
    c.expect_word("allows")?;
    proof {
        if canon {
            if names.len() == 0 {
                assert(blanks(src, o7 + 14, o9 + 1));
                lemma_forces_punct(src, o7 + 14, o9 + 1);
            } else {
                assert(names.skip(0) =~= names);
                assert(enumeration_at(src, oj, names, 0, o9));
                lemma_enumeration_word(src, oj, names, 0, o9);
                assert(blanks(src, o7 + 14, oj));
                lemma_forces_word(src, o7 + 14, oj, names[0]);
            }
        }
    }
    c.expect(TokenKind::LeftBrace)?;
    let mut allowed = ElementKinds::new();
    let ghost mut a: int = oj;
    let ghost mut count: int = 0;
    if c.kind() != TokenKind::RightBrace {
        let ghost entry = c.remaining();
        let mut more = true;
        while more
            invariant
                c.wf(),
                c.source() == old(c).source(),
                c.remaining() <= entry,
                src == old(c).source(),
                canon == (expected is Some),
                canon ==> 0 <= count <= names.len() && forall|k: ElementKind|
                    #[trigger] allowed.has(k) <==> names.take(count).contains(element_kind_name(k)),
                canon && more ==> count < names.len() && enumeration_at(src, a, names, count, o9) && c.token() == (
                    TokenKind::Word,
                    names[count],
                    a,
                    a + names[count].len(),
                ),
                canon && !more ==> count == names.len() && c.token() == (TokenKind::RightBrace, Seq::<char>::empty(), o9 + 1, o9 + 2),
                canon ==> forall|j: int|
                    0 <= j < names.len() ==> exists|k: ElementKind| element_kind_name(k) == #[trigger] names[j],
                canon ==> forall|k1: ElementKind, k2: ElementKind|
                    #[trigger] element_kind_name(k1) == #[trigger] element_kind_name(k2) ==> k1 == k2,
            decreases c.remaining(),
        {
            proof {
                if canon {
                    lemma_enumeration_step(src, a, names, count, o9);
                }
            }
            let at = c.at();
            let word = c.take_word()?;
            let ghost before = allowed;
            match element_kind_named(word.as_str()) {
                Some(kind) => {
                    allowed.insert(kind);
                    proof {
                        if canon {
                            let t0 = names.take(count);
                            let t1 = names.take(count + 1);
                            assert(t1 =~= t0.push(names[count]));
                            assert forall|k: ElementKind| #[trigger] allowed.has(k) <==> t1.contains(element_kind_name(k)) by {
                                if t0.contains(element_kind_name(k)) {
                                    let j = choose|j: int| 0 <= j < t0.len() && t0[j] == element_kind_name(k);
                                    assert(t1[j] == element_kind_name(k));
                                }
                                if t1.contains(element_kind_name(k)) {
                                    let j = choose|j: int| 0 <= j < t1.len() && t1[j] == element_kind_name(k);
                                    if j < t0.len() {
                                        assert(t0[j] == element_kind_name(k));
                                    }
                                }
                                if k == kind {
                                    assert(t1[count] == element_kind_name(k));
                                }
                            }
                        }
                    }
                },
                None => {
                    proof {
                        if canon {
                            let k = choose|k: ElementKind| element_kind_name(k) == names[count];
                        }
                    }
                    return Err(named_failure(at, "unknown element kind", word.as_str()));
                },
            }
            if c.kind() == TokenKind::Comma {
                proof {
                    if canon {
                        lemma_enumeration_next(src, a, names, count, o9);
                    }
                }
                c.advance()?;
                proof {
                    if canon {
                        a = a + names[count].len() + 2;
                        count = count + 1;
                    }
                }
            } else {
                more = false;
                proof {
                    if canon {
                        count = count + 1;
                    }
                }
            }
        }
    }
    proof {
        if canon {
            if names.len() == 0 {
                assert(count == 0);
            }
            assert(names.take(count) =~= names);
            assert(blanks(src, o9 + 2, o9 + 2));
            lemma_forces_punct(src, o9 + 2, o9 + 2);
        }
    }
    c.expect(TokenKind::RightBrace)?;
    proof {
        if canon {
            assert(blanks(src, o9 + 3, o9 + 8));
            lemma_forces_word(src, o9 + 3, o9 + 8, "value"@);
        }
    }
    c.expect(TokenKind::Semicolon)?;
    proof {
        if canon {
            assert(blanks(src, o11, o11));
            assert(punct_follows(src, o11));
            assert(blanks(src, o9 + 13, ox));
            lemma_forces_expr(src, o9 + 13, ox, t.value, 1);
        }
    }
    c.expect_word("value")?;
    let value = parse_schema_expr(
        c,
        Ghost(
            if canon {
                Some((t.value, 1nat, ox))
            } else {
                None
            },
        ),
    )?;
    proof {
        if canon {
            lemma_punct_token(src, o11, o11, Some(c.token()));
            assert(blanks(src, o11 + 1, o11 + 2));
            lemma_forces_punct(src, o11 + 1, o11 + 2);
        }
    }
    c.expect(TokenKind::Semicolon)?;
    proof {
        if canon {
            assert(blanks(src, o11 + 3, src.len() as int));
            crate::reading::lemma_forces_end(src, o11 + 3);
        }
    }
    c.expect(TokenKind::RightBrace)?;
    expect_end(c)?;
    let s = Schema { namespace, name, version, allowed_elements: allowed, value };
    proof {
        if canon {
            assert(names.take(count) =~= names);
            assert(names == allowed_names_upto(t.allowed_elements, 5));
            assert forall|k: ElementKind| #[trigger] s.allowed_elements.has(k) <==> t.allowed_elements.has(k) by {
                assert(element_kind_index(k) < 5);
                assert(allowed.has(k) <==> names.take(count).contains(element_kind_name(k)));
                assert(allowed_names_upto(t.allowed_elements, 5).contains(element_kind_name(k)) <==> t.allowed_elements.has(k)
                    && element_kind_index(k) < 5);
            }
        }
    }
    Ok(s)
}

/// The shape of each field, one by one.
pub proof fn lemma_field_shapes_at(fs: Seq<SchemaExprField>, i: int)
    requires
        0 <= i < fs.len(),
    ensures
        field_shapes(fs).len() == fs.len(),
        field_shapes(fs)[i] == (fs[i].name@, shape_of(*fs[i].schema)),
    decreases fs.len(),
{
    if i > 0 {
        lemma_field_shapes_at(fs.drop_first(), i - 1);
        assert(fs.drop_first()[i - 1] == fs[i]);
    } else if fs.len() > 1 {
        lemma_field_shapes_at(fs.drop_first(), 0);
    }
    if fs.len() == 1 {
        assert(fs.drop_first().len() == 0);
    }
}

/// Expressions of the same shape have the same canonical text.
pub proof fn lemma_expr_text_shape(a: SchemaExpr, b: SchemaExpr, ind: nat)
    requires
        shape_of(a) == shape_of(b),
        expr_plain(b),
    ensures
        expr_text(a, ind) == expr_text(b, ind),
    decreases b, 1int,
{
    match b {
        SchemaExpr::Product(fb) => {
            let fa = a->Product_0;
            lemma_fields_text_shape(fa@, fb@, ind, 0);
        },
        SchemaExpr::Sequence(x) => {
            lemma_expr_text_shape(*a->Sequence_0, *x, ind);
        },
        SchemaExpr::Presence(x) => {
            lemma_expr_text_shape(*a->Presence_0, *x, ind);
        },
        _ => {},
    }
}

pub proof fn lemma_fields_text_shape(fa: Seq<SchemaExprField>, fb: Seq<SchemaExprField>, ind: nat, start: int)
    requires
        field_shapes(fa) == field_shapes(fb),
        fields_plain(fb),
        0 <= start,
    ensures
        fields_text(fa, ind, start) == fields_text(fb, ind, start),
    decreases fb, 0int, fb.len() - start,
{
    if fb.len() > 0 {
        lemma_field_shapes_at(fb, 0);
    }
    if fa.len() > 0 {
        lemma_field_shapes_at(fa, 0);
    }
    if start < fb.len() {
        lemma_field_shapes_at(fa, start);
        lemma_field_shapes_at(fb, start);
        lemma_fields_plain_at(fb, start);
        lemma_expr_text_shape(*fa[start].schema, *fb[start].schema, ind + 1);
        lemma_fields_text_shape(fa, fb, ind, start + 1);
    }
}

/// The allowed kinds' names depend only on which kinds are allowed.
pub proof fn lemma_allowed_names_same(a: ElementKinds, b: ElementKinds, i: int)
    requires
        forall|k: ElementKind| #[trigger] a.has(k) <==> b.has(k),
    ensures
        allowed_names_upto(a, i) == allowed_names_upto(b, i),
    decreases i,
{
    if i > 0 {
        lemma_allowed_names_same(a, b, i - 1);
        assert(a.has(element_kind_at(i - 1)) == b.has(element_kind_at(i - 1)));
    }
}

/// Matching schemas have the same canonical document.
pub proof fn lemma_schema_text_matches(s: Schema, t: Schema)
    requires
        schema_matches(s, t),
        expr_plain(t.value),
    ensures
        schema_document_text(s) == schema_document_text(t),
{
    reveal(schema_document_text);
    lemma_allowed_names_same(s.allowed_elements, t.allowed_elements, 5);
    lemma_expr_text_shape(s.value, t.value, 1);
    assert(s.version.text() == t.version.text());
}

/// Parses a standalone schema document. The canonical document of a schema
/// whose names are plain words and whose value holds no alternative parses
/// back to a schema with the same canonical document.
pub fn parse_schema_document(source: &str) -> (r: Result<Schema, ParseError>)
    ensures
        r matches Ok(s) ==> expr_well_named(s.value),
        r matches Err(e) ==> exists|at: int| 0 <= at <= source@.len() && e.offset == byte_offset_spec(source@, at),
        forall|t: Schema|
            schema_reads_back(t) && #[trigger] schema_document_text(t) == source@ ==> (r matches Ok(s) && schema_document_text(s)
                == source@),
{
    let ghost canon = exists|t: Schema| schema_reads_back(t) && #[trigger] schema_document_text(t) == source@;
    let ghost t0 = choose|t: Schema| schema_reads_back(t) && #[trigger] schema_document_text(t) == source@;
    let chars = chars_of(source);
    let mut c = match Cursor::new(chars.clone()) {
        Ok(c) => c,
        Err(f) => {
            proof {
                if canon {
                    lemma_document_start(t0, chars@);
                }
            }
            return Err(located(&chars, f));
        },
    };
    proof {
        if canon {
            lemma_document_start(t0, chars@);
        }
    }
    match parse_schema_body(
        &mut c,
        Ghost(
            if canon {
                Some(t0)
            } else {
                None
            },
        ),
    ) {
        Ok(s) => {
            proof {
                if canon {
                    lemma_schema_text_matches(s, t0);
                }
            }
            Ok(s)
        },
        Err(f) => Err(located(&chars, f)),
    }
}

/// A canonical document opens with its first word, which the lexer reads.
proof fn lemma_document_start(t: Schema, src: Seq<char>)
    requires
        src == schema_document_text(t),
    ensures
        forall|r: Option<(TokenKind, Seq<char>, int, int)>|
            #[trigger] token_fits(src, 0, r) ==> r == Some((TokenKind::Word, "grimoire-schema"@, 0int, 15int)),
{
    reveal_strlit("grimoire-schema");
    lemma_schema_layout(t);
    lemma_header_facts(src);
    assert(blanks(src, 0, 0));
    lemma_forces_word(src, 0, 0, "grimoire-schema"@);
}

} // verus!

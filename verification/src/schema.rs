//! Extension schemas: closed value shapes with the element kinds they attach to.
use vstd::prelude::*;

use crate::decimal::{decimal_text, push_decimal};
use crate::namespace::Namespace;
use crate::text::{owned, push_str};
use crate::value::{product_lookup, Value};
use crate::version::Version;

verus! {

/// The kinds of description elements.
#[derive(Clone, Copy, Debug, PartialEq, Eq, Hash, PartialOrd, Ord)]
pub enum ElementKind {
    Description,
    Block,
    Port,
    Connection,
    Group,
}

/// The position of a kind in declaration order.
pub open spec fn element_kind_index(kind: ElementKind) -> int {
    match kind {
        ElementKind::Description => 0,
        ElementKind::Block => 1,
        ElementKind::Port => 2,
        ElementKind::Connection => 3,
        ElementKind::Group => 4,
    }
}

/// The kind at a position in declaration order.
pub open spec fn element_kind_at(i: int) -> ElementKind {
    if i == 0 {
        ElementKind::Description
    } else if i == 1 {
        ElementKind::Block
    } else if i == 2 {
        ElementKind::Port
    } else if i == 3 {
        ElementKind::Connection
    } else {
        ElementKind::Group
    }
}

/// The name a kind is written with in debugging output.
pub open spec fn element_kind_debug(kind: ElementKind) -> Seq<char> {
    match kind {
        ElementKind::Description => "Description"@,
        ElementKind::Block => "Block"@,
        ElementKind::Port => "Port"@,
        ElementKind::Connection => "Connection"@,
        ElementKind::Group => "Group"@,
    }
}

impl ElementKind {
    pub fn index(self) -> (i: usize)
        ensures
            i == element_kind_index(self),
    {
        match self {
            ElementKind::Description => 0,
            ElementKind::Block => 1,
            ElementKind::Port => 2,
            ElementKind::Connection => 3,
            ElementKind::Group => 4,
        }
    }

    pub fn at(i: usize) -> (k: ElementKind)
        requires
            i < 5,
        ensures
            k == element_kind_at(i as int),
            element_kind_index(k) == i,
    {
        if i == 0 {
            ElementKind::Description
        } else if i == 1 {
            ElementKind::Block
        } else if i == 2 {
            ElementKind::Port
        } else if i == 3 {
            ElementKind::Connection
        } else {
            ElementKind::Group
        }
    }

    pub fn debug_name(self) -> (s: &'static str)
        ensures
            s@ == element_kind_debug(self),
    {
        match self {
            ElementKind::Description => "Description",
            ElementKind::Block => "Block",
            ElementKind::Port => "Port",
            ElementKind::Connection => "Connection",
            ElementKind::Group => "Group",
        }
    }
}

/// A set of element kinds, visited in declaration order.
#[derive(Clone, Copy, Debug, PartialEq, Eq, Hash)]
pub struct ElementKinds {
    members: [bool; 5],
}

impl ElementKinds {
    pub closed spec fn has(&self, kind: ElementKind) -> bool {
        self.members@[element_kind_index(kind)]
    }

    /// The number of members.
    pub open spec fn count(&self) -> nat {
        (if self.has(ElementKind::Description) { 1nat } else { 0nat }) + (if self.has(
            ElementKind::Block,
        ) {
            1nat
        } else {
            0nat
        }) + (if self.has(ElementKind::Port) { 1nat } else { 0nat }) + (if self.has(
            ElementKind::Connection,
        ) {
            1nat
        } else {
            0nat
        }) + (if self.has(ElementKind::Group) { 1nat } else { 0nat })
    }

    pub fn new() -> (s: ElementKinds)
        ensures
            forall|k: ElementKind| !#[trigger] s.has(k),
    {
        ElementKinds { members: [false, false, false, false, false] }
    }

    /// The set of the given kinds.
    pub fn from_kinds(kinds: &[ElementKind]) -> (s: ElementKinds)
        ensures
            forall|k: ElementKind| #[trigger] s.has(k) <==> kinds@.contains(k),
    {
        let mut s = ElementKinds::new();
        let mut i: usize = 0;
        while i < kinds.len()
            invariant
                i <= kinds@.len(),
                forall|k: ElementKind| #[trigger] s.has(k) <==> kinds@.take(i as int).contains(k),
            decreases kinds@.len() - i,
        {
            let ghost before = s;
            s.insert(kinds[i]);
            proof {
                assert(kinds@.take(i + 1) =~= kinds@.take(i as int).push(kinds@[i as int]));
                assert forall|k: ElementKind| #[trigger] s.has(k) <==> kinds@.take(i + 1).contains(k) by {
                    if k == kinds@[i as int] {
                        assert(kinds@.take(i + 1)[i as int] == k);
                    } else if kinds@.take(i + 1).contains(k) {
                        let j = choose|j: int| 0 <= j < i + 1 && #[trigger] kinds@.take(i + 1)[j] == k;
                        assert(kinds@.take(i as int)[j] == k);
                    }
                }
            }
            i = i + 1;
        }
        proof {
            assert(kinds@.take(i as int) =~= kinds@);
        }
        s
    }

    pub fn insert(&mut self, kind: ElementKind)
        ensures
            forall|k: ElementKind| #[trigger] final(self).has(k) <==> (old(self).has(k) || k == kind),
    {
        let i = kind.index();
        self.members[i] = true;
        proof {
            assert forall|k: ElementKind| #[trigger] self.has(k) <==> (old(self).has(k) || k == kind) by {
                if k != kind {
                    assert(element_kind_index(k) != element_kind_index(kind));
                }
            }
        }
    }

    pub fn contains(&self, kind: &ElementKind) -> (b: bool)
        ensures
            b == self.has(*kind),
    {
        self.members[kind.index()]
    }

    pub fn len(&self) -> (n: usize)
        ensures
            n == self.count(),
    {
        let mut n: usize = 0;
        if self.members[0] {
            n = n + 1;
        }
        if self.members[1] {
            n = n + 1;
        }
        if self.members[2] {
            n = n + 1;
        }
        if self.members[3] {
            n = n + 1;
        }
        if self.members[4] {
            n = n + 1;
        }
        n
    }

    /// The members, in declaration order.
    pub fn members(&self) -> (v: Vec<ElementKind>)
        ensures
            forall|i: int, j: int| 0 <= i < j < v@.len() ==> element_kind_index(v@[i]) < element_kind_index(v@[j]),
            forall|k: ElementKind| #[trigger] v@.contains(k) <==> self.has(k),
    {
        let mut v: Vec<ElementKind> = Vec::new();
        let mut i: usize = 0;
        while i < 5
            invariant
                i <= 5,
                forall|a: int, b: int| 0 <= a < b < v@.len() ==> element_kind_index(v@[a]) < element_kind_index(v@[b]),
                forall|a: int| 0 <= a < v@.len() ==> element_kind_index(#[trigger] v@[a]) < i,
                forall|k: ElementKind| #[trigger] v@.contains(k) <==> (self.has(k) && element_kind_index(k) < i),
            decreases 5 - i,
        {
            let k = ElementKind::at(i);
            if self.members[i] {
                let ghost before = v@;
                v.push(k);
                proof {
                    assert forall|q: ElementKind| #[trigger] v@.contains(q) <==> (self.has(q) && element_kind_index(q) < i + 1) by {
                        if q == k {
                            assert(v@[v@.len() - 1] == k);
                        } else if v@.contains(q) {
                            let j = choose|j: int| 0 <= j < v@.len() && #[trigger] v@[j] == q;
                            assert(j < before.len());
                            assert(before[j] == q);
                            assert(before.contains(q));
                        } else if self.has(q) && element_kind_index(q) < i {
                            assert(before.contains(q));
                            let j = choose|j: int| 0 <= j < before.len() && #[trigger] before[j] == q;
                            assert(v@[j] == q);
                        }
                    }
                }
            } else {
                proof {
                    assert forall|q: ElementKind| #[trigger] v@.contains(q) <==> (self.has(q) && element_kind_index(q) < i + 1) by {
                        if q == k {
                            if v@.contains(q) {
                                let j = choose|j: int| 0 <= j < v@.len() && #[trigger] v@[j] == q;
                                assert(element_kind_index(v@[j]) < i);
                            }
                        }
                    }
                }
            }
            i = i + 1;
        }
        v
    }
}

/// A named field of a product schema.
#[derive(Debug, PartialEq)]
pub struct SchemaExprField {
    pub name: String,
    pub schema: Box<SchemaExpr>,
}

/// A tagged arm of an alternative schema.
#[derive(Debug, PartialEq)]
pub struct SchemaExprArm {
    pub tag: String,
    pub schema: Box<SchemaExpr>,
}

/// The abstract shape of a schema expression, with names as text.
pub enum ShapeView {
    FiniteScalar,
    PositiveInteger,
    FiniteNumber,
    Text,
    Enumeration(Seq<Seq<char>>),
    Product(Seq<(Seq<char>, ShapeView)>),
    Sequence(Box<ShapeView>),
    Alternative(Seq<(Seq<char>, ShapeView)>),
    AddressReference,
    Presence(Box<ShapeView>),
}

/// The shape of a schema expression.
pub open spec fn shape_of(e: SchemaExpr) -> ShapeView
    decreases e, 1int,
{
    match e {
        SchemaExpr::FiniteScalar => ShapeView::FiniteScalar,
        SchemaExpr::PositiveInteger => ShapeView::PositiveInteger,
        SchemaExpr::FiniteNumber => ShapeView::FiniteNumber,
        SchemaExpr::Text => ShapeView::Text,
        SchemaExpr::Enumeration(values) => ShapeView::Enumeration(texts(values@)),
        SchemaExpr::Product(fields) => ShapeView::Product(field_shapes(fields@)),
        SchemaExpr::Sequence(item) => ShapeView::Sequence(Box::new(shape_of(*item))),
        SchemaExpr::Alternative(arms) => ShapeView::Alternative(arm_shapes(arms@)),
        SchemaExpr::AddressReference => ShapeView::AddressReference,
        SchemaExpr::Presence(inner) => ShapeView::Presence(Box::new(shape_of(*inner))),
    }
}

/// The names and shapes of product fields.
pub open spec fn field_shapes(fields: Seq<SchemaExprField>) -> Seq<(Seq<char>, ShapeView)>
    decreases fields, 0int,
{
    if fields.len() == 0 {
        Seq::empty()
    } else {
        seq![(fields[0].name@, shape_of(*fields[0].schema))] + field_shapes(fields.drop_first())
    }
}

/// The tags and shapes of alternative arms.
pub open spec fn arm_shapes(arms: Seq<SchemaExprArm>) -> Seq<(Seq<char>, ShapeView)>
    decreases arms, 0int,
{
    if arms.len() == 0 {
        Seq::empty()
    } else {
        seq![(arms[0].tag@, shape_of(*arms[0].schema))] + arm_shapes(arms.drop_first())
    }
}

/// The closed schema constructors.
#[derive(Debug, PartialEq)]
pub enum SchemaExpr {
    FiniteScalar,
    PositiveInteger,
    FiniteNumber,
    Text,
    Enumeration(Vec<String>),
    Product(Vec<SchemaExprField>),
    Sequence(Box<SchemaExpr>),
    Alternative(Vec<SchemaExprArm>),
    AddressReference,
    Presence(Box<SchemaExpr>),
}

/// A registered schema: its identity, the element kinds it attaches to and
/// the shape of its values.
#[derive(Debug, PartialEq)]
pub struct Schema {
    pub namespace: Namespace,
    pub name: String,
    pub version: Version,
    pub allowed_elements: ElementKinds,
    pub value: SchemaExpr,
}

/// Where and why a value failed its schema.
#[derive(Clone, Debug, PartialEq, Eq)]
pub struct SchemaError {
    pub path: String,
    pub message: String,
}

/// A failure's path and message.
pub type Failure = (Seq<char>, Seq<char>);

/// The name of a schema constructor in messages.
pub open spec fn schema_kind(s: SchemaExpr) -> Seq<char> {
    match s {
        SchemaExpr::FiniteScalar => "finite scalar"@,
        SchemaExpr::PositiveInteger => "positive integer"@,
        SchemaExpr::FiniteNumber => "finite number"@,
        SchemaExpr::Text => "text"@,
        SchemaExpr::Enumeration(_) => "enumeration"@,
        SchemaExpr::Product(_) => "product"@,
        SchemaExpr::Sequence(_) => "sequence"@,
        SchemaExpr::Alternative(_) => "alternative"@,
        SchemaExpr::AddressReference => "address reference"@,
        SchemaExpr::Presence(_) => "presence"@,
    }
}

/// The name of a value constructor in messages.
pub open spec fn value_kind(v: Value) -> Seq<char> {
    match v {
        Value::Bool(_) => "finite scalar"@,
        Value::PositiveInteger(_) => "positive integer"@,
        Value::Number(_) => "finite number"@,
        Value::Text(_) => "text"@,
        Value::Enum(_) => "enumeration"@,
        Value::Product(_) => "product"@,
        Value::Sequence(_) => "sequence"@,
        Value::AddressReference(_) => "address reference"@,
        Value::Absent => "absent"@,
        Value::Present(_) => "present"@,
        Value::Tagged { .. } => "alternative"@,
    }
}

/// The texts of a list of strings.
pub open spec fn texts(v: Seq<String>) -> Seq<Seq<char>> {
    v.map_values(|s: String| s@)
}

/// The names of the fields of a product schema.
pub open spec fn schema_field_names(fields: Seq<SchemaExprField>) -> Seq<Seq<char>> {
    fields.map_values(|f: SchemaExprField| f.name@)
}

/// The name of the first value field that the schema does not declare.
pub open spec fn first_extra(values: Seq<(String, Value)>, names: Seq<Seq<char>>) -> Option<Seq<char>>
    decreases values.len(),
{
    if values.len() == 0 {
        None
    } else if !names.contains(values[0].0@) {
        Some(values[0].0@)
    } else {
        first_extra(values.drop_first(), names)
    }
}

/// The position of the first arm with the given tag.
pub open spec fn arm_index(arms: Seq<SchemaExprArm>, tag: Seq<char>) -> Option<int>
    decreases arms.len(),
{
    if arms.len() == 0 {
        None
    } else if arms[0].tag@ == tag {
        Some(0)
    } else {
        match arm_index(arms.drop_first(), tag) {
            Some(i) => Some(i + 1),
            None => None,
        }
    }
}

pub proof fn lemma_arm_index(arms: Seq<SchemaExprArm>, tag: Seq<char>)
    ensures
        match arm_index(arms, tag) {
            Some(i) => 0 <= i < arms.len() && arms[i].tag@ == tag && forall|j: int|
                0 <= j < i ==> arms[j].tag@ != tag,
            None => forall|j: int| 0 <= j < arms.len() ==> arms[j].tag@ != tag,
        },
    decreases arms.len(),
{
    if arms.len() > 0 && arms[0].tag@ != tag {
        lemma_arm_index(arms.drop_first(), tag);
        assert forall|j: int| 1 <= j < arms.len() implies arms[j] == arms.drop_first()[j - 1] by {}
    }
}

/// Whether `value` has the shape `schema`, at `path`; the first mismatch in
/// document order is reported with its path and message.
pub open spec fn validate_spec(schema: SchemaExpr, value: Value, path: Seq<char>) -> Result<(), Failure>
    decreases schema, 0int, 0int,
{
    match (schema, value) {
        (SchemaExpr::FiniteScalar, Value::Bool(_)) => Ok(()),
        (SchemaExpr::PositiveInteger, Value::PositiveInteger(_)) => Ok(()),
        (SchemaExpr::FiniteNumber, Value::Number(_)) => Ok(()),
        (SchemaExpr::Text, Value::Text(_)) => Ok(()),
        (SchemaExpr::AddressReference, Value::AddressReference(_)) => Ok(()),
        (SchemaExpr::Enumeration(allowed), Value::Enum(actual)) => if texts(allowed@).contains(actual@) {
            Ok(())
        } else {
            Err((path, "unknown enumeration value `"@ + actual@ + "`"@))
        },
        (SchemaExpr::Product(fields), Value::Product(values)) => match fields_spec(
            fields@,
            values@,
            path,
        ) {
            Err(e) => Err(e),
            Ok(()) => match first_extra(values@, schema_field_names(fields@)) {
                Some(extra) => Err((path, "unknown product field `"@ + extra + "`"@)),
                None => Ok(()),
            },
        },
        (SchemaExpr::Sequence(item), Value::Sequence(values)) => sequence_spec(
            *item,
            values@,
            path,
            0,
        ),
        (SchemaExpr::Alternative(arms), Value::Tagged { tag, value }) => match arm_index(
            arms@,
            tag@,
        ) {
            None => Err((path, "unknown alternative tag `"@ + tag@ + "`"@)),
            Some(i) => {
                proof {
                    lemma_arm_index(arms@, tag@);
                }
                validate_spec(*arms@[i].schema, *value, path + "."@ + tag@)
            },
        },
        (SchemaExpr::Presence(_), Value::Absent) => Ok(()),
        (SchemaExpr::Presence(inner), Value::Present(value)) => validate_spec(
            *inner,
            *value,
            path + ".present"@,
        ),
        (expected, actual) => Err(
            (path, "expected "@ + schema_kind(expected) + ", got "@ + value_kind(actual)),
        ),
    }
}

/// Checks the declared fields in order: each must be present and valid.
pub open spec fn fields_spec(fields: Seq<SchemaExprField>, values: Seq<(String, Value)>, path: Seq<char>) -> Result<
    (),
    Failure,
>
    decreases fields, 0int, 0int,
{
    if fields.len() == 0 {
        Ok(())
    } else {
        let field_path = path + "."@ + fields[0].name@;
        match product_lookup(values, fields[0].name@) {
            None => Err((field_path, "missing product field"@)),
            Some(v) => match validate_spec(*fields[0].schema, v, field_path) {
                Err(e) => Err(e),
                Ok(()) => fields_spec(fields.drop_first(), values, path),
            },
        }
    }
}

/// Checks the items of a sequence in order, numbering them from `start`.
pub open spec fn sequence_spec(item: SchemaExpr, values: Seq<Value>, path: Seq<char>, start: nat) -> Result<
    (),
    Failure,
>
    decreases item, 1int, values.len(),
{
    if values.len() == 0 {
        Ok(())
    } else {
        match validate_spec(item, values[0], path + "["@ + decimal_text(start) + "]"@) {
            Err(e) => Err(e),
            Ok(()) => sequence_spec(item, values.drop_first(), path, start + 1),
        }
    }
}

/// The failure a result reports, as text.
pub open spec fn failure_of(r: Result<(), SchemaError>) -> Result<(), Failure> {
    match r {
        Ok(()) => Ok(()),
        Err(e) => Err((e.path@, e.message@)),
    }
}

fn fail(path: String, message: String) -> (r: Result<(), SchemaError>)
    ensures
        failure_of(r) == Err::<(), Failure>((path@, message@)),
{
    Err(SchemaError { path, message })
}

fn joined(path: &String, sep: &str, tail: &str) -> (s: String)
    ensures
        s@ == path@ + sep@ + tail@,
{
    let mut s = path.clone();
    push_str(&mut s, sep);
    push_str(&mut s, tail);
    proof {
        assert(s@ =~= path@ + sep@ + tail@);
    }
    s
}

fn quoted(before: &str, middle: &str) -> (s: String)
    ensures
        s@ == before@ + middle@ + "`"@,
{
    let mut s = owned(before);
    push_str(&mut s, middle);
    push_str(&mut s, "`");
    s
}

impl SchemaExpr {
    /// The constructor name used in messages.
    pub fn kind(&self) -> (s: &'static str)
        ensures
            s@ == schema_kind(*self),
    {
        match self {
            SchemaExpr::FiniteScalar => "finite scalar",
            SchemaExpr::PositiveInteger => "positive integer",
            SchemaExpr::FiniteNumber => "finite number",
            SchemaExpr::Text => "text",
            SchemaExpr::Enumeration(_) => "enumeration",
            SchemaExpr::Product(_) => "product",
            SchemaExpr::Sequence(_) => "sequence",
            SchemaExpr::Alternative(_) => "alternative",
            SchemaExpr::AddressReference => "address reference",
            SchemaExpr::Presence(_) => "presence",
        }
    }

    /// Checks `value` against this schema, reporting paths from `$`.
    pub fn validate(&self, value: &Value) -> (r: Result<(), SchemaError>)
        ensures
            failure_of(r) == validate_spec(*self, *value, "$"@),
    {
        self.validate_at(value, owned("$"))
    }

    #[verifier::loop_isolation(false)]
    fn validate_at(&self, value: &Value, path: String) -> (r: Result<(), SchemaError>)
        ensures
            failure_of(r) == validate_spec(*self, *value, path@),
        decreases self, 0int, 0int,
    {
        match (self, value) {
            (SchemaExpr::FiniteScalar, Value::Bool(_)) => Ok(()),
            (SchemaExpr::PositiveInteger, Value::PositiveInteger(_)) => Ok(()),
            (SchemaExpr::FiniteNumber, Value::Number(_)) => Ok(()),
            (SchemaExpr::Text, Value::Text(_)) => Ok(()),
            (SchemaExpr::AddressReference, Value::AddressReference(_)) => Ok(()),
            (SchemaExpr::Enumeration(allowed), Value::Enum(actual)) => {
                let mut i: usize = 0;
                while i < allowed.len()
                    invariant
                        i <= allowed@.len(),
                        forall|j: int| 0 <= j < i ==> allowed@[j]@ != actual@,
                    decreases allowed@.len() - i,
                {
                    if allowed[i] == *actual {
                        proof {
                            assert(texts(allowed@)[i as int] == actual@);
                        }
                        return Ok(());
                    }
                    i = i + 1;
                }
                proof {
                    if texts(allowed@).contains(actual@) {
                        let j = choose|j: int| 0 <= j < allowed@.len() && #[trigger] texts(allowed@)[j] == actual@;
                        assert(allowed@[j]@ == actual@);
                    }
                }
                fail(path, quoted("unknown enumeration value `", actual.as_str()))
            },
            (SchemaExpr::Product(fields), Value::Product(values)) => {
                let r = validate_fields(fields, values, &path);
                if r.is_err() {
                    return r;
                }
                let mut i: usize = 0;
                proof {
                    assert(values@.skip(0) =~= values@);
                }
                while i < values.len()
                    invariant
                        i <= values@.len(),
                        first_extra(values@, schema_field_names(fields@)) == first_extra(values@.skip(i as int), schema_field_names(fields@)),
                    decreases values@.len() - i,
                {
                    proof {
                        assert(values@.skip(i as int)[0] == values@[i as int]);
                        assert(values@.skip(i as int).drop_first() =~= values@.skip(i + 1));
                    }
                    let key = &values[i].0;
                    let mut found = false;
                    let mut j: usize = 0;
                    while j < fields.len() && !found
                        invariant
                            j <= fields@.len(),
                            found ==> schema_field_names(fields@).contains(key@),
                            !found ==> forall|k: int| 0 <= k < j ==> fields@[k].name@ != key@,
                        decreases fields@.len() - j,
                    {
                        if fields[j].name == *key {
                            found = true;
                            proof {
                                assert(schema_field_names(fields@)[j as int] == key@);
                            }
                        }
                        j = j + 1;
                    }
                    if !found {
                        proof {
                            if schema_field_names(fields@).contains(key@) {
                                let k = choose|k: int| 0 <= k < fields@.len() && #[trigger] schema_field_names(fields@)[k] == key@;
                                assert(fields@[k].name@ == key@);
                            }
                        }
                        return fail(path, quoted("unknown product field `", key.as_str()));
                    }
                    i = i + 1;
                }
                Ok(())
            },
            (SchemaExpr::Sequence(item), Value::Sequence(values)) => {
                let mut i: usize = 0;
                proof {
                    assert(values@.skip(0) =~= values@);
                }
                while i < values.len()
                    invariant
                        i <= values@.len(),
                        sequence_spec(**item, values@, path@, 0) == sequence_spec(**item, values@.skip(i as int), path@, i as nat),
                    decreases values@.len() - i,
                {
                    proof {
                        assert(values@.skip(i as int)[0] == values@[i as int]);
                        assert(values@.skip(i as int).drop_first() =~= values@.skip(i + 1));
                    }
                    let mut item_path = path.clone();
                    push_str(&mut item_path, "[");
                    push_decimal(&mut item_path, i as u64);
                    push_str(&mut item_path, "]");
                    proof {
                        assert(item_path@ =~= path@ + "["@ + decimal_text(i as nat) + "]"@);
                    }
                    let r = item.validate_at(&values[i], item_path);
                    if r.is_err() {
                        return r;
                    }
                    i = i + 1;
                }
                Ok(())
            },
            (SchemaExpr::Alternative(arms), Value::Tagged { tag, value }) => {
                let mut i: usize = 0;
                while i < arms.len()
                    invariant
                        i <= arms@.len(),
                        forall|j: int| 0 <= j < i ==> arms@[j].tag@ != tag@,
                    decreases arms@.len() - i,
                {
                    if arms[i].tag == *tag {
                        proof {
                            lemma_arm_index(arms@, tag@);
                            match arm_index(arms@, tag@) {
                                Some(k) => {
                                    if k < i {
                                        assert(arms@[k].tag@ == tag@);
                                    }
                                    if k > i {
                                        assert(arms@[i as int].tag@ == tag@);
                                    }
                                },
                                None => {
                                    assert(arms@[i as int].tag@ == tag@);
                                },
                            }
                        }
                        return arms[i].schema.validate_at(value, joined(&path, ".", tag.as_str()));
                    }
                    i = i + 1;
                }
                proof {
                    lemma_arm_index(arms@, tag@);
                    if let Some(k) = arm_index(arms@, tag@) {
                        assert(arms@[k].tag@ == tag@);
                    }
                }
                fail(path, quoted("unknown alternative tag `", tag.as_str()))
            },
            (SchemaExpr::Presence(_), Value::Absent) => Ok(()),
            (SchemaExpr::Presence(inner), Value::Present(value)) => {
                let mut p = path.clone();
                push_str(&mut p, ".present");
                inner.validate_at(value, p)
            },
            (expected, actual) => {
                let mut message = owned("expected ");
                push_str(&mut message, expected.kind());
                push_str(&mut message, ", got ");
                push_str(&mut message, value_kind_name(actual));
                proof {
                    assert(message@ =~= "expected "@ + schema_kind(*expected) + ", got "@ + value_kind(*actual));
                }
                fail(path, message)
            },
        }
    }
}

#[verifier::loop_isolation(false)]
fn validate_fields(fields: &Vec<SchemaExprField>, values: &Vec<(String, Value)>, path: &String) -> (r: Result<
    (),
    SchemaError,
>)
    ensures
        failure_of(r) == fields_spec(fields@, values@, path@),
    decreases fields, 0int, 0int,
{
    let mut i: usize = 0;
    proof {
        assert(fields@.skip(0) =~= fields@);
    }
    while i < fields.len()
        invariant
            i <= fields@.len(),
            fields_spec(fields@, values@, path@) == fields_spec(fields@.skip(i as int), values@, path@),
        decreases fields@.len() - i,
    {
        proof {
            assert(fields@.skip(i as int)[0] == fields@[i as int]);
            assert(fields@.skip(i as int).drop_first() =~= fields@.skip(i + 1));
        }
        let field = &fields[i];
        let field_path = joined(path, ".", field.name.as_str());
        match find_field(values, &field.name) {
            None => {
                return fail(field_path, owned("missing product field"));
            },
            Some(k) => {
                let r = field.schema.validate_at(&values[k].1, field_path);
                if r.is_err() {
                    return r;
                }
            },
        }
        i = i + 1;
    }
    Ok(())
}

/// The position of the first field called `name`.
pub fn find_field(values: &Vec<(String, Value)>, name: &String) -> (r: Option<usize>)
    ensures
        match r {
            Some(k) => k < values@.len() && product_lookup(values@, name@) == Some(values@[k as int].1),
            None => product_lookup(values@, name@) is None,
        },
{
    let mut k: usize = 0;
    proof {
        assert(values@.skip(0) =~= values@);
    }
    while k < values.len()
        invariant
            k <= values@.len(),
            product_lookup(values@, name@) == product_lookup(values@.skip(k as int), name@),
        decreases values@.len() - k,
    {
        proof {
            assert(values@.skip(k as int)[0] == values@[k as int]);
            assert(values@.skip(k as int).drop_first() =~= values@.skip(k + 1));
        }
        if values[k].0 == *name {
            return Some(k);
        }
        k = k + 1;
    }
    None
}

/// The value constructor name used in messages.
pub fn value_kind_name(v: &Value) -> (s: &'static str)
    ensures
        s@ == value_kind(*v),
{
    match v {
        Value::Bool(_) => "finite scalar",
        Value::PositiveInteger(_) => "positive integer",
        Value::Number(_) => "finite number",
        Value::Text(_) => "text",
        Value::Enum(_) => "enumeration",
        Value::Product(_) => "product",
        Value::Sequence(_) => "sequence",
        Value::AddressReference(_) => "address reference",
        Value::Absent => "absent",
        Value::Present(_) => "present",
        Value::Tagged { .. } => "alternative",
    }
}

/// A schema refuses a kind it does not list; otherwise it checks the value.
pub open spec fn schema_check_spec(schema: Schema, kind: ElementKind, value: Value) -> Result<(), Failure> {
    if !schema.allowed_elements.has(kind) {
        Err((Seq::<char>::empty(), "schema `"@ + schema.name@ + "` does not allow "@ + element_kind_debug(kind)))
    } else {
        validate_spec(schema.value, value, "$"@)
    }
}

impl Schema {
    /// Checks that the schema attaches to `kind` and that `value` has its shape.
    pub fn validate(&self, kind: ElementKind, value: &Value) -> (r: Result<(), SchemaError>)
        ensures
            failure_of(r) == schema_check_spec(*self, kind, *value),
    {
        if !self.allowed_elements.contains(&kind) {
            let mut message = owned("schema `");
            push_str(&mut message, self.name.as_str());
            push_str(&mut message, "` does not allow ");
            push_str(&mut message, kind.debug_name());
            proof {
                assert(message@ =~= "schema `"@ + self.name@ + "` does not allow "@ + element_kind_debug(kind));
            }
            return fail(String::new(), message);
        }
        self.value.validate(value)
    }
}

/// The path of the item at `i` of the sequence at `path`.
pub open spec fn item_path(path: Seq<char>, i: int) -> Seq<char> {
    path + "["@ + decimal_text(i as nat) + "]"@
}

/// The check of the item at `i`, at its own path.
#[verifier::opaque]
pub open spec fn item_result(item: SchemaExpr, all: Seq<Value>, path: Seq<char>, i: int) -> Result<(), Failure> {
    validate_spec(item, all[i], item_path(path, i))
}

/// The check of the items from `k` on.
#[verifier::opaque]
pub open spec fn suffix_result(item: SchemaExpr, all: Seq<Value>, path: Seq<char>, k: int) -> Result<(), Failure> {
    sequence_spec(item, all.skip(k), path, k as nat)
}

proof fn lemma_sequence_suffix(item: SchemaExpr, all: Seq<Value>, path: Seq<char>, k: int)
    requires
        0 <= k <= all.len(),
    ensures
        suffix_result(item, all, path, k) is Ok <==> (forall|i: int|
            k <= i < all.len() ==> (#[trigger] item_result(item, all, path, i)) is Ok),
        forall|i: int|
            k <= i < all.len() && item_result(item, all, path, i) is Err && (forall|j: int|
                k <= j < i ==> (#[trigger] item_result(item, all, path, j)) is Ok) ==> suffix_result(item, all, path, k)
                == item_result(item, all, path, i),
    decreases all.len() - k,
{
    if k < all.len() {
        lemma_sequence_suffix(item, all, path, k + 1);
        lemma_sequence_step(item, all, path, k);
        if suffix_result(item, all, path, k) is Ok {
            assert(item_result(item, all, path, k) is Ok);
            assert forall|i: int| k <= i < all.len() implies (#[trigger] item_result(item, all, path, i)) is Ok by {
                if i > k {
                    assert(k + 1 <= i < all.len());
                }
            }
        }
        if forall|i: int| k <= i < all.len() ==> (#[trigger] item_result(item, all, path, i)) is Ok {
            assert(item_result(item, all, path, k) is Ok);
            assert forall|i: int| k + 1 <= i < all.len() implies (#[trigger] item_result(item, all, path, i)) is Ok by {
                assert(k <= i);
            }
        }
        assert forall|i: int|
            k <= i < all.len() && item_result(item, all, path, i) is Err && (forall|j: int|
                k <= j < i ==> (#[trigger] item_result(item, all, path, j)) is Ok) implies suffix_result(item, all, path, k)
            == item_result(item, all, path, i) by {
            if i > k {
                assert(item_result(item, all, path, k) is Ok);
                assert forall|j: int| k + 1 <= j < i implies (#[trigger] item_result(item, all, path, j)) is Ok by {
                    assert(k <= j);
                }
            }
        }
    } else {
        reveal(suffix_result);
        assert(all.skip(k).len() == 0);
    }
}

proof fn lemma_sequence_step(item: SchemaExpr, all: Seq<Value>, path: Seq<char>, k: int)
    requires
        0 <= k < all.len(),
    ensures
        suffix_result(item, all, path, k) == match item_result(item, all, path, k) {
            Err(e) => Err(e),
            Ok(()) => suffix_result(item, all, path, k + 1),
        },
{
    reveal(suffix_result);
    let here = all.skip(k);
    assert(here[0] == all[k]);
    assert(here.drop_first() =~= all.skip(k + 1));
    assert(k as nat + 1 == (k + 1) as nat);
    assert(item_path(path, k) == path + "["@ + decimal_text(k as nat) + "]"@);
    reveal(item_result);
}

/// A sequence value has the shape `Sequence(item)` exactly when every one of
/// its items has the shape `item`, each at its own indexed path.
pub proof fn law_sequence_checks_every_item(schema: SchemaExpr, value: Value, path: Seq<char>)
    requires
        schema is Sequence,
        value is Sequence,
    ensures
        validate_spec(schema, value, path) is Ok <==> forall|i: int|
            0 <= i < value->Sequence_0@.len() ==> (#[trigger] validate_spec(
                *schema->Sequence_0,
                value->Sequence_0@[i],
                item_path(path, i),
            )) is Ok,
{
    let item = *schema->Sequence_0;
    let all = value->Sequence_0@;
    lemma_sequence_suffix(item, all, path, 0);
    assert(all.skip(0) =~= all);
    assert(validate_spec(schema, value, path) == sequence_spec(item, all, path, 0));
    assert(validate_spec(schema, value, path) == suffix_result(item, all, path, 0)) by {
        reveal(suffix_result);
    }
    assert forall|i: int| 0 <= i < all.len() implies #[trigger] validate_spec(item, all[i], item_path(path, i))
        == item_result(item, all, path, i) by {
        reveal(item_result);
    }
    if forall|i: int| 0 <= i < all.len() ==> (#[trigger] validate_spec(item, all[i], item_path(path, i))) is Ok {
        assert forall|i: int| 0 <= i < all.len() implies (#[trigger] item_result(item, all, path, i)) is Ok by {
            assert(validate_spec(item, all[i], item_path(path, i)) is Ok);
        }
    }
    if suffix_result(item, all, path, 0) is Ok {
        assert forall|i: int| 0 <= i < all.len() implies (#[trigger] validate_spec(item, all[i], item_path(path, i))) is Ok by {
            assert(item_result(item, all, path, i) is Ok);
        }
    }
}

/// A sequence that fails is reported by its first failing item, at that
/// item's path and with that item's failure.
pub proof fn law_sequence_reports_first_failing_item(schema: SchemaExpr, value: Value, path: Seq<char>, i: int)
    requires
        schema is Sequence,
        value is Sequence,
        0 <= i < value->Sequence_0@.len(),
        forall|j: int|
            0 <= j < i ==> (#[trigger] validate_spec(*schema->Sequence_0, value->Sequence_0@[j], item_path(path, j))) is Ok,
        validate_spec(*schema->Sequence_0, value->Sequence_0@[i], item_path(path, i)) is Err,
    ensures
        validate_spec(schema, value, path) == validate_spec(*schema->Sequence_0, value->Sequence_0@[i], item_path(path, i)),
{
    let item = *schema->Sequence_0;
    let all = value->Sequence_0@;
    lemma_sequence_suffix(item, all, path, 0);
    assert(all.skip(0) =~= all);
    assert(validate_spec(schema, value, path) == sequence_spec(item, all, path, 0));
    assert(validate_spec(schema, value, path) == suffix_result(item, all, path, 0)) by {
        reveal(suffix_result);
    }
    assert forall|j: int| 0 <= j < all.len() implies #[trigger] validate_spec(item, all[j], item_path(path, j))
        == item_result(item, all, path, j) by {
        reveal(item_result);
    }
    assert(validate_spec(item, all[i], item_path(path, i)) == item_result(item, all, path, i));
    assert forall|j: int| 0 <= j < i implies (#[trigger] item_result(item, all, path, j)) is Ok by {
        assert(validate_spec(item, all[j], item_path(path, j)) is Ok);
    }
    assert(item_result(item, all, path, i) is Err);
}

/// The check of the declared field at `i`: present, and of its shape.
#[verifier::opaque]
pub open spec fn field_result(fields: Seq<SchemaExprField>, values: Seq<(String, Value)>, path: Seq<char>, i: int) -> Result<
    (),
    Failure,
> {
    let field_path = path + "."@ + fields[i].name@;
    match product_lookup(values, fields[i].name@) {
        None => Err((field_path, "missing product field"@)),
        Some(v) => validate_spec(*fields[i].schema, v, field_path),
    }
}

/// The check of the declared fields from `k` on.
#[verifier::opaque]
pub open spec fn fields_suffix(fields: Seq<SchemaExprField>, values: Seq<(String, Value)>, path: Seq<char>, k: int) -> Result<
    (),
    Failure,
> {
    fields_spec(fields.skip(k), values, path)
}

proof fn lemma_fields_step(fields: Seq<SchemaExprField>, values: Seq<(String, Value)>, path: Seq<char>, k: int)
    requires
        0 <= k < fields.len(),
    ensures
        fields_suffix(fields, values, path, k) == match field_result(fields, values, path, k) {
            Err(e) => Err(e),
            Ok(()) => fields_suffix(fields, values, path, k + 1),
        },
{
    reveal(fields_suffix);
    reveal(field_result);
    let here = fields.skip(k);
    assert(here[0] == fields[k]);
    assert(here.drop_first() =~= fields.skip(k + 1));
}

proof fn lemma_fields_suffix(fields: Seq<SchemaExprField>, values: Seq<(String, Value)>, path: Seq<char>, k: int)
    requires
        0 <= k <= fields.len(),
    ensures
        fields_suffix(fields, values, path, k) is Ok <==> (forall|i: int|
            k <= i < fields.len() ==> (#[trigger] field_result(fields, values, path, i)) is Ok),
    decreases fields.len() - k,
{
    if k < fields.len() {
        lemma_fields_suffix(fields, values, path, k + 1);
        lemma_fields_step(fields, values, path, k);
        if fields_suffix(fields, values, path, k) is Ok {
            assert(field_result(fields, values, path, k) is Ok);
            assert forall|i: int| k <= i < fields.len() implies (#[trigger] field_result(fields, values, path, i)) is Ok by {
                if i > k {
                    assert(k + 1 <= i < fields.len());
                }
            }
        }
        if forall|i: int| k <= i < fields.len() ==> (#[trigger] field_result(fields, values, path, i)) is Ok {
            assert(field_result(fields, values, path, k) is Ok);
            assert forall|i: int| k + 1 <= i < fields.len() implies (#[trigger] field_result(fields, values, path, i)) is Ok by {
                assert(k <= i);
            }
        }
    } else {
        reveal(fields_suffix);
        assert(fields.skip(k).len() == 0);
    }
}

proof fn lemma_first_extra(values: Seq<(String, Value)>, names: Seq<Seq<char>>)
    ensures
        first_extra(values, names) is None <==> forall|j: int| 0 <= j < values.len() ==> names.contains(#[trigger] values[j].0@),
    decreases values.len(),
{
    if values.len() > 0 {
        lemma_first_extra(values.drop_first(), names);
        assert forall|j: int| 1 <= j < values.len() implies values[j] == values.drop_first()[j - 1] by {}
        if first_extra(values, names) is None {
            assert forall|j: int| 0 <= j < values.len() implies names.contains(#[trigger] values[j].0@) by {
                if j > 0 {
                    assert(values.drop_first()[j - 1] == values[j]);
                }
            }
        }
        if forall|j: int| 0 <= j < values.len() ==> names.contains(#[trigger] values[j].0@) {
            assert(names.contains(values[0].0@));
            assert forall|j: int| 0 <= j < values.drop_first().len() implies names.contains(
                #[trigger] values.drop_first()[j].0@,
            ) by {
                assert(values.drop_first()[j] == values[j + 1]);
                assert(names.contains(values[j + 1].0@));
            }
        }
    }
}

/// A product value has the shape `Product(fields)` exactly when every
/// declared field is present with a value of its shape, and every field of
/// the value is declared.
pub proof fn law_product_checks_declared_fields(schema: SchemaExpr, value: Value, path: Seq<char>)
    requires
        schema is Product,
        value is Product,
    ensures
        validate_spec(schema, value, path) is Ok <==> (forall|i: int|
            #![trigger schema->Product_0@[i]]
            0 <= i < schema->Product_0@.len() ==> (product_lookup(value->Product_0@, schema->Product_0@[i].name@) matches Some(
                v,
            ) && validate_spec(*schema->Product_0@[i].schema, v, path + "."@ + schema->Product_0@[i].name@) is Ok))
            && (forall|j: int|
            0 <= j < value->Product_0@.len() ==> schema_field_names(schema->Product_0@).contains(
                #[trigger] value->Product_0@[j].0@,
            )),
{
    let fields = schema->Product_0@;
    let values = value->Product_0@;
    lemma_fields_suffix(fields, values, path, 0);
    lemma_first_extra(values, schema_field_names(fields));
    assert(fields.skip(0) =~= fields);
    assert(fields_suffix(fields, values, path, 0) == fields_spec(fields, values, path)) by {
        reveal(fields_suffix);
    }
    assert forall|i: int| 0 <= i < fields.len() implies (#[trigger] field_result(fields, values, path, i) is Ok) <==> (
    product_lookup(values, fields[i].name@) matches Some(v) && validate_spec(*fields[i].schema, v, path + "."@ + fields[i].name@)
        is Ok) by {
        reveal(field_result);
    }
    assert(validate_spec(schema, value, path) is Ok <==> (fields_spec(fields, values, path) is Ok && first_extra(
        values,
        schema_field_names(fields),
    ) is None));
    if forall|i: int|
        #![trigger fields[i]]
        0 <= i < fields.len() ==> (product_lookup(values, fields[i].name@) matches Some(v) && validate_spec(
            *fields[i].schema,
            v,
            path + "."@ + fields[i].name@,
        ) is Ok) {
        assert forall|i: int| 0 <= i < fields.len() implies (#[trigger] field_result(fields, values, path, i)) is Ok by {
            let f = fields[i];
        }
    }
    if fields_spec(fields, values, path) is Ok {
        assert forall|i: int|
            #![trigger fields[i]]
            0 <= i < fields.len() implies (product_lookup(values, fields[i].name@) matches Some(v) && validate_spec(
                *fields[i].schema,
                v,
                path + "."@ + fields[i].name@,
            ) is Ok) by {
            assert(field_result(fields, values, path, i) is Ok);
        }
    }
}

} // verus!

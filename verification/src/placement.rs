//! Placement of elements on locations, explicit tensor shapes, and the bytes
//! that cross between locations.
use vstd::prelude::*;

use crate::address::Address;
use crate::cost::{repeats_earlier, seq_product};
use crate::map::{last_value_for, OrderedMap};
use crate::model::ExtensionValue;
use crate::projection::Decoration;
use crate::model::ExtensionParameter;
use crate::schema::find_field;
use crate::value::{product_lookup, Value};
use crate::decimal::{decimal_text, push_decimal};
use crate::evaluate::{Element, StructuralReprojection};
use crate::text::{
    char_is_whitespace, chars_of, is_whitespace, lemma_seq_lt_irreflexive, lemma_seq_lt_transitive, owned,
    push_str, seq_lt, str_eq, str_lt,
};
use crate::validate::located_at;

verus! {

pub const PLACEMENT_NAMESPACE: &'static str = "https://github.com/goldenwitch/grimoire/extension/placement";

pub const PLACEMENT_PARAMETER: &'static str = "placement";

pub const PLACEMENT_SCHEMA: &'static str = "placement";

/// One dimension of a tensor shape.
#[derive(Debug, PartialEq, Eq)]
pub enum ShapeDimension {
    Literal(u64),
    Axis(Address),
}

/// A tensor shape with a positive element width and no zero literal extent.
#[derive(Debug, PartialEq, Eq)]
pub struct TensorShape {
    dimensions: Vec<ShapeDimension>,
    bytes_per_element: u64,
}

/// Why placement or a byte count failed.
#[derive(Debug, PartialEq, Eq)]
pub enum PlacementError {
    InvalidElementWidth,
    ZeroShapeDimension { index: usize },
    MissingAxis(Address),
    ZeroResolvedAxis(Address),
    ShapeSizeOverflow,
    EmptyLocation(Address),
    DuplicatePlacement(Address),
    InvalidPlacementValue(Address),
    UnknownAddress(Address),
    MissingPlacement(Address),
    EmptyCollectiveTransfers(Address),
    DuplicateCollectiveTransfer { collective: Address, source: Address, destination: Address },
    DuplicateRelation(Address),
    CollectiveElementMissing(Address),
    MissingShape(Address),
    WireSizeOverflow,
}

/// The message of a placement error.
pub open spec fn placement_error_text(e: PlacementError) -> Seq<char> {
    match e {
        PlacementError::InvalidElementWidth => "tensor element width must be positive"@,
        PlacementError::ZeroShapeDimension { index } => "tensor shape dimension "@ + decimal_text(
            index as nat,
        ) + " must be positive"@,
        PlacementError::MissingAxis(a) => "shape axis `"@ + a@ + "` has no extent"@,
        PlacementError::ZeroResolvedAxis(a) => "shape axis `"@ + a@ + "` resolved to zero"@,
        PlacementError::ShapeSizeOverflow => "tensor shape byte size overflowed"@,
        PlacementError::EmptyLocation(a) => "placement for `"@ + a@ + "` is empty"@,
        PlacementError::DuplicatePlacement(a) => "placement for `"@ + a@
            + "` is declared more than once"@,
        PlacementError::InvalidPlacementValue(a) => "placement decoration on `"@ + a@
            + "` has no text location"@,
        PlacementError::UnknownAddress(a) => "placement address `"@ + a@ + "` is not visible"@,
        PlacementError::MissingPlacement(a) => "no placement is assigned to `"@ + a@
            + "` or its owning block"@,
        PlacementError::EmptyCollectiveTransfers(a) => "collective `"@ + a@
            + "` needs an explicit transfer"@,
        PlacementError::DuplicateCollectiveTransfer { collective, source, destination } =>
            "collective `"@ + collective@ + "` repeats transfer `"@ + source@ + "` -> `"@
            + destination@ + "`"@,
        PlacementError::DuplicateRelation(a) => "placement relation `"@ + a@
            + "` is declared more than once"@,
        PlacementError::CollectiveElementMissing(a) => "collective `"@ + a@
            + "` does not name a visible block element"@,
        PlacementError::MissingShape(a) => "no tensor shape is supplied for `"@ + a@ + "`"@,
        PlacementError::WireSizeOverflow => "wire byte total overflowed"@,
    }
}

impl PlacementError {
    /// The error's message.
    pub fn to_string(&self) -> (s: String)
        ensures
            s@ == placement_error_text(*self),
    {
        match self {
            PlacementError::InvalidElementWidth => owned("tensor element width must be positive"),
            PlacementError::ZeroShapeDimension { index } => {
                let mut s = owned("tensor shape dimension ");
                push_decimal(&mut s, *index as u64);
                push_str(&mut s, " must be positive");
                s
            },
            PlacementError::MissingAxis(a) => located_at("shape axis `", a.as_str(), "` has no extent"),
            PlacementError::ZeroResolvedAxis(a) => located_at("shape axis `", a.as_str(), "` resolved to zero"),
            PlacementError::ShapeSizeOverflow => owned("tensor shape byte size overflowed"),
            PlacementError::EmptyLocation(a) => located_at("placement for `", a.as_str(), "` is empty"),
            PlacementError::DuplicatePlacement(a) => located_at(
                "placement for `",
                a.as_str(),
                "` is declared more than once",
            ),
            PlacementError::InvalidPlacementValue(a) => located_at(
                "placement decoration on `",
                a.as_str(),
                "` has no text location",
            ),
            PlacementError::UnknownAddress(a) => located_at("placement address `", a.as_str(), "` is not visible"),
            PlacementError::MissingPlacement(a) => located_at(
                "no placement is assigned to `",
                a.as_str(),
                "` or its owning block",
            ),
            PlacementError::EmptyCollectiveTransfers(a) => located_at(
                "collective `",
                a.as_str(),
                "` needs an explicit transfer",
            ),
            PlacementError::DuplicateCollectiveTransfer { collective, source, destination } => {
                let mut s = located_at("collective `", collective.as_str(), "` repeats transfer `");
                push_str(&mut s, source.as_str());
                push_str(&mut s, "` -> `");
                push_str(&mut s, destination.as_str());
                push_str(&mut s, "`");
                s
            },
            PlacementError::DuplicateRelation(a) => located_at(
                "placement relation `",
                a.as_str(),
                "` is declared more than once",
            ),
            PlacementError::CollectiveElementMissing(a) => located_at(
                "collective `",
                a.as_str(),
                "` does not name a visible block element",
            ),
            PlacementError::MissingShape(a) => located_at("no tensor shape is supplied for `", a.as_str(), "`"),
            PlacementError::WireSizeOverflow => owned("wire byte total overflowed"),
        }
    }
}

impl Clone for ShapeDimension {
    fn clone(&self) -> (r: Self)
        ensures
            r == *self,
    {
        match self {
            ShapeDimension::Literal(v) => ShapeDimension::Literal(*v),
            ShapeDimension::Axis(a) => ShapeDimension::Axis(a.clone()),
        }
    }
}

impl Clone for PlacementError {
    fn clone(&self) -> (r: Self)
        ensures
            r == *self,
    {
        match self {
            PlacementError::InvalidElementWidth => PlacementError::InvalidElementWidth,
            PlacementError::ZeroShapeDimension { index } => PlacementError::ZeroShapeDimension {
                index: *index,
            },
            PlacementError::MissingAxis(a) => PlacementError::MissingAxis(a.clone()),
            PlacementError::ZeroResolvedAxis(a) => PlacementError::ZeroResolvedAxis(a.clone()),
            PlacementError::ShapeSizeOverflow => PlacementError::ShapeSizeOverflow,
            PlacementError::EmptyLocation(a) => PlacementError::EmptyLocation(a.clone()),
            PlacementError::DuplicatePlacement(a) => PlacementError::DuplicatePlacement(a.clone()),
            PlacementError::InvalidPlacementValue(a) => PlacementError::InvalidPlacementValue(
                a.clone(),
            ),
            PlacementError::UnknownAddress(a) => PlacementError::UnknownAddress(a.clone()),
            PlacementError::MissingPlacement(a) => PlacementError::MissingPlacement(a.clone()),
            PlacementError::EmptyCollectiveTransfers(a) => PlacementError::EmptyCollectiveTransfers(
                a.clone(),
            ),
            PlacementError::DuplicateCollectiveTransfer { collective, source, destination } =>
            PlacementError::DuplicateCollectiveTransfer {
                collective: collective.clone(),
                source: source.clone(),
                destination: destination.clone(),
            },
            PlacementError::DuplicateRelation(a) => PlacementError::DuplicateRelation(a.clone()),
            PlacementError::CollectiveElementMissing(a) => PlacementError::CollectiveElementMissing(
                a.clone(),
            ),
            PlacementError::MissingShape(a) => PlacementError::MissingShape(a.clone()),
            PlacementError::WireSizeOverflow => PlacementError::WireSizeOverflow,
        }
    }
}

/// The dimension at `index` is a zero literal.
pub open spec fn zero_literal_at(dims: Seq<ShapeDimension>, index: int) -> bool {
    dims[index] == ShapeDimension::Literal(0)
}

/// Multiplies the resolved extents into `acc`, left to right: a missing axis
/// is `MissingAxis`, an axis resolved to zero is `ZeroResolvedAxis`, and a
/// product beyond `u64` is `ShapeSizeOverflow`.
pub open spec fn shape_elements(dims: Seq<ShapeDimension>, axes: OrderedMap<Address, u64>, acc: u64) -> Result<
    u64,
    PlacementError,
>
    decreases dims.len(),
{
    if dims.len() == 0 {
        Ok(acc)
    } else {
        let extent: Result<u64, PlacementError> = match dims[0] {
            ShapeDimension::Literal(v) => Ok(v),
            ShapeDimension::Axis(a) => match axes.lookup(a@) {
                None => Err(PlacementError::MissingAxis(a)),
                Some(v) => if v == 0 {
                    Err(PlacementError::ZeroResolvedAxis(a))
                } else {
                    Ok(v)
                },
            },
        };
        match extent {
            Err(e) => Err(e),
            Ok(v) => if acc * v > u64::MAX {
                Err(PlacementError::ShapeSizeOverflow)
            } else {
                shape_elements(dims.drop_first(), axes, (acc * v) as u64)
            },
        }
    }
}

impl TensorShape {
    #[verifier::type_invariant]
    closed spec fn shape_ok(&self) -> bool {
        &&& self.bytes_per_element > 0
        &&& forall|i: int| 0 <= i < self.dimensions@.len() ==> !zero_literal_at(self.dimensions@, i)
    }

    pub closed spec fn dims(&self) -> Seq<ShapeDimension> {
        self.dimensions@
    }

    pub closed spec fn width(&self) -> u64 {
        self.bytes_per_element
    }

    /// The byte size of this shape under the given axis extents.
    pub open spec fn byte_size_spec(&self, axes: OrderedMap<Address, u64>) -> Result<u64, PlacementError> {
        match shape_elements(self.dims(), axes, 1) {
            Err(e) => Err(e),
            Ok(n) => if n * self.width() > u64::MAX {
                Err(PlacementError::ShapeSizeOverflow)
            } else {
                Ok((n * self.width()) as u64)
            },
        }
    }

    /// A shape needs a positive element width and no zero literal dimension;
    /// the first zero literal is reported by its index.
    pub fn new(dimensions: Vec<ShapeDimension>, bytes_per_element: u64) -> (r: Result<TensorShape, PlacementError>)
        ensures
            match r {
                Ok(s) => bytes_per_element > 0 && (forall|i: int|
                    0 <= i < dimensions@.len() ==> !zero_literal_at(dimensions@, i)) && s.dims()
                    == dimensions@ && s.width() == bytes_per_element,
                Err(e) => if bytes_per_element == 0 {
                    e == PlacementError::InvalidElementWidth
                } else {
                    exists|i: int|
                        0 <= i < dimensions@.len() && zero_literal_at(dimensions@, i) && (forall|j: int|
                            0 <= j < i ==> !zero_literal_at(dimensions@, j)) && e
                            == (PlacementError::ZeroShapeDimension { index: i as usize })
                },
            },
    {
        if bytes_per_element == 0 {
            return Err(PlacementError::InvalidElementWidth);
        }
        let mut index: usize = 0;
        while index < dimensions.len()
            invariant
                bytes_per_element > 0,
                index <= dimensions@.len(),
                forall|j: int| 0 <= j < index ==> !zero_literal_at(dimensions@, j),
            decreases dimensions@.len() - index,
        {
            if let ShapeDimension::Literal(value) = &dimensions[index] {
                if *value == 0 {
                    proof {
                        assert(zero_literal_at(dimensions@, index as int));
                    }
                    return Err(PlacementError::ZeroShapeDimension { index });
                }
            }
            index = index + 1;
        }
        Ok(TensorShape { dimensions, bytes_per_element })
    }

    pub fn dimensions(&self) -> (d: &[ShapeDimension])
        ensures
            d@ == self.dims(),
    {
        self.dimensions.as_slice()
    }

    pub fn bytes_per_element(&self) -> (w: u64)
        ensures
            w == self.width(),
    {
        self.bytes_per_element
    }

    /// Bytes of the shape: the product of the resolved extents times the
    /// element width.
    pub fn byte_size(&self, axes: &OrderedMap<Address, u64>) -> (r: Result<u64, PlacementError>)
        ensures
            r == self.byte_size_spec(*axes),
    {
        proof {
            use_type_invariant(self);
        }
        let mut elements: u64 = 1;
        let mut i: usize = 0;
        proof {
            assert(self.dimensions@.skip(0) =~= self.dimensions@);
        }
        while i < self.dimensions.len()
            invariant
                i <= self.dimensions@.len(),
                shape_elements(self.dims(), *axes, 1) == shape_elements(self.dims().skip(i as int), *axes, elements),
                forall|j: int| 0 <= j < self.dimensions@.len() ==> !zero_literal_at(self.dimensions@, j),
            decreases self.dimensions@.len() - i,
        {
            proof {
                assert(self.dims().skip(i as int)[0] == self.dims()[i as int]);
                assert(self.dims().skip(i as int).drop_first() =~= self.dims().skip(i + 1));
                assert(!zero_literal_at(self.dimensions@, i as int));
            }
            let extent = match &self.dimensions[i] {
                ShapeDimension::Literal(value) => *value,
                ShapeDimension::Axis(address) => match axes.get(address) {
                    Some(v) => {
                        if *v == 0 {
                            return Err(PlacementError::ZeroResolvedAxis(address.clone()));
                        }
                        *v
                    },
                    None => {
                        return Err(PlacementError::MissingAxis(address.clone()));
                    },
                },
            };
            match elements.checked_mul(extent) {
                Some(n) => {
                    elements = n;
                },
                None => {
                    return Err(PlacementError::ShapeSizeOverflow);
                },
            }
            i = i + 1;
        }
        match elements.checked_mul(self.bytes_per_element) {
            Some(n) => Ok(n),
            None => Err(PlacementError::ShapeSizeOverflow),
        }
    }
}

/// A text with only whitespace characters (it trims to nothing).
pub open spec fn is_blank(s: Seq<char>) -> bool {
    forall|i: int| 0 <= i < s.len() ==> is_whitespace(#[trigger] s[i])
}

/// Whether `s` trims to nothing.
pub fn blank(s: &str) -> (b: bool)
    ensures
        b == is_blank(s@),
{
    let cs = chars_of(s);
    let mut i: usize = 0;
    while i < cs.len()
        invariant
            cs@ == s@,
            i <= cs@.len(),
            forall|j: int| 0 <= j < i ==> is_whitespace(#[trigger] cs@[j]),
        decreases cs@.len() - i,
    {
        if !char_is_whitespace(cs[i]) {
            return false;
        }
        i = i + 1;
    }
    true
}

/// The `j`th assignment is refused: its location is blank or its address
/// was placed before.
pub open spec fn placement_fails_at(pairs: Seq<(Address, String)>, j: int) -> bool {
    is_blank(pairs[j].1@) || repeats_earlier(pairs, j)
}

/// What building a placement from `pairs` gives: with no refused
/// assignment, each address holds the location assigned to it last;
/// otherwise the first refused assignment decides the error, `EmptyLocation`
/// for a blank location and `DuplicatePlacement` for a repeated address.
pub open spec fn placement_built(pairs: Seq<(Address, String)>, r: Result<Placement, PlacementError>) -> bool {
    match r {
        Ok(p) => (forall|j: int| 0 <= j < pairs.len() ==> !placement_fails_at(pairs, j)) && (forall|
            q: Seq<char>,
        | #[trigger] p.locations().lookup(q) == last_value_for(pairs, q)),
        Err(e) => exists|j: int|
            0 <= j < pairs.len() && placement_fails_at(pairs, j) && (forall|k: int|
                0 <= k < j ==> !placement_fails_at(pairs, k)) && e == if is_blank(pairs[j].1@) {
                PlacementError::EmptyLocation(#[trigger] pairs[j].0)
            } else {
                PlacementError::DuplicatePlacement(pairs[j].0)
            },
    }
}

/// The parameter is the placement parameter of the placement namespace.
pub open spec fn is_placement_parameter(p: ExtensionParameter) -> bool {
    p.namespace@ == PLACEMENT_NAMESPACE@ && p.name@ == PLACEMENT_PARAMETER@ && p.schema@
        == PLACEMENT_SCHEMA@
}

/// The text of the `location` field of a known product value.
pub open spec fn placement_location(v: ExtensionValue) -> Option<String> {
    match v {
        ExtensionValue::Known(Value::Product(fields)) => match product_lookup(fields@, "location"@) {
            Some(Value::Text(l)) => Some(l),
            _ => None,
        },
        _ => None,
    }
}

/// The assignments that placement decorations make, in order; the target of
/// the first placement decoration without a text location is the error.
pub open spec fn decoration_assignments(ds: Seq<Decoration>) -> Result<Seq<(Address, String)>, Address>
    decreases ds.len(),
{
    if ds.len() == 0 {
        Ok(Seq::empty())
    } else {
        match decoration_assignments(ds.drop_last()) {
            Err(a) => Err(a),
            Ok(pairs) => {
                let d = ds.last();
                if !is_placement_parameter(d.parameter) {
                    Ok(pairs)
                } else {
                    match placement_location(d.parameter.value) {
                        None => Err(d.target),
                        Some(l) => Ok(pairs.push((d.target, l))),
                    }
                }
            },
        }
    }
}

/// Once a prefix is refused, the whole sequence is refused the same way.
proof fn lemma_assignments_refused(ds: Seq<Decoration>, j: int)
    requires
        0 <= j <= ds.len(),
        decoration_assignments(ds.take(j)) is Err,
    ensures
        decoration_assignments(ds) == decoration_assignments(ds.take(j)),
    decreases ds.len(),
{
    if j == ds.len() {
        assert(ds.take(j) =~= ds);
    } else {
        assert(ds.drop_last().take(j) =~= ds.take(j));
        lemma_assignments_refused(ds.drop_last(), j);
    }
}

fn placement_parameter(p: &ExtensionParameter) -> (b: bool)
    ensures
        b == is_placement_parameter(*p),
{
    str_eq(p.namespace.as_str(), PLACEMENT_NAMESPACE) && str_eq(p.name.as_str(), PLACEMENT_PARAMETER)
        && str_eq(p.schema.as_str(), PLACEMENT_SCHEMA)
}

fn location_text(v: &ExtensionValue) -> (r: Option<String>)
    ensures
        r == placement_location(*v),
{
    match v {
        ExtensionValue::Known(Value::Product(fields)) => {
            let key = owned("location");
            match find_field(fields, &key) {
                Some(k) => match &fields[k].1 {
                    Value::Text(l) => Some(l.clone()),
                    _ => None,
                },
                None => None,
            }
        },
        _ => None,
    }
}

/// Locations assigned to addresses.
#[derive(Debug, PartialEq, Eq)]
pub struct Placement {
    locations: OrderedMap<Address, String>,
}

impl Placement {
    pub closed spec fn locations(&self) -> OrderedMap<Address, String> {
        self.locations
    }

    /// Builds a placement; the first refused assignment decides the error: a
    /// blank location is `EmptyLocation`, a repeated address
    /// `DuplicatePlacement`.
    pub fn new(assignments: Vec<(Address, String)>) -> (r: Result<Placement, PlacementError>)
        ensures
            placement_built(assignments@, r),
    {
        let mut locations: OrderedMap<Address, String> = OrderedMap::new();
        let mut rest = assignments;
        let ghost all = rest@;
        let mut taken: Vec<(Address, String)> = Vec::new();
        while rest.len() > 0
            invariant
                all == rest@ + taken@.reverse(),
            decreases rest@.len(),
        {
            let p = rest.pop().unwrap();
            taken.push(p);
            proof {
                assert(all =~= rest@ + taken@.reverse());
            }
        }
        let ghost n = taken@.len();
        proof {
            assert(all =~= taken@.reverse());
            assert forall|q: Seq<char>| #[trigger] locations.lookup(q) == last_value_for(all.take(0), q) by {
                assert(all.take(0) =~= Seq::<(Address, String)>::empty());
            }
        }
        while taken.len() > 0
            invariant
                forall|i: int| 0 <= i < taken@.len() ==> #[trigger] taken@[i] == all[n - 1 - i],
                taken@.len() <= n,
                n == all.len(),
                all == assignments@,
                forall|j: int| 0 <= j < n - taken@.len() ==> !placement_fails_at(all, j),
                forall|q: Seq<char>| #[trigger] locations.contains(q) <==> exists|i: int| 0 <= i < n - taken@.len() && #[trigger] all[i].0@ == q,
                forall|q: Seq<char>|
                    #[trigger] locations.lookup(q) == last_value_for(all.take(n - taken@.len()), q),
            decreases taken@.len(),
        {
            let ghost done = n - taken@.len();
            let (address, location) = taken.pop().unwrap();
            proof {
                assert(all[done] == (address, location));
                assert(all.take(done + 1).drop_last() =~= all.take(done));
                assert(all.take(done + 1).last() == (address, location));
            }
            if blank(location.as_str()) {
                proof {
                    assert(placement_fails_at(all, done));
                    assert(assignments@[done].0 == address);
                }
                return Err(PlacementError::EmptyLocation(address));
            }
            let key = address.clone();
            if !locations.insert_new(key, location) {
                proof {
                    let i = choose|i: int| 0 <= i < done && #[trigger] all[i].0@ == address@;
                    assert(repeats_earlier(all, done));
                    assert(placement_fails_at(all, done));
                    assert(assignments@[done].0 == address);
                }
                return Err(PlacementError::DuplicatePlacement(address));
            }
            proof {
                assert(!repeats_earlier(all, done)) by {
                    if repeats_earlier(all, done) {
                        let i2 = choose|i2: int| 0 <= i2 < done && #[trigger] all[i2].0@ == all[done].0@;
                        assert(locations.contains(address@));
                    }
                }
                assert forall|q: Seq<char>| #[trigger] locations.contains(q) <==> exists|i: int| 0 <= i < done + 1 && #[trigger] all[i].0@ == q by {
                    if q == address@ {
                        assert(all[done].0@ == q);
                    }
                }
            }
        }
        proof {
            assert(all.take(n as int) =~= all);
        }
        Ok(Placement { locations })
    }

    /// Builds a placement from the placement decorations: each one assigns
    /// the text of its `location` field to its target; one without such a
    /// field is `InvalidPlacementValue` for its target, and the assignments
    /// are then built as `new` builds them.
    pub fn from_decorations(decorations: &[Decoration]) -> (r: Result<Placement, PlacementError>)
        ensures
            match decoration_assignments(decorations@) {
                Err(target) => r == Err::<Placement, PlacementError>(
                    PlacementError::InvalidPlacementValue(target),
                ),
                Ok(pairs) => placement_built(pairs, r),
            },
    {
        let mut assignments: Vec<(Address, String)> = Vec::new();
        let mut i: usize = 0;
        proof {
            assert(decorations@.take(0) =~= Seq::<Decoration>::empty());
        }
        while i < decorations.len()
            invariant
                i <= decorations@.len(),
                decoration_assignments(decorations@.take(i as int)) == Ok::<Seq<(Address, String)>, Address>(
                    assignments@,
                ),
            decreases decorations@.len() - i,
        {
            let d = &decorations[i];
            proof {
                assert(decorations@.take(i + 1).drop_last() =~= decorations@.take(i as int));
                assert(decorations@.take(i + 1).last() == *d);
            }
            if placement_parameter(&d.parameter) {
                match location_text(&d.parameter.value) {
                    Some(l) => {
                        assignments.push((d.target.clone(), l));
                    },
                    None => {
                        proof {
                            lemma_assignments_refused(decorations@, i + 1);
                        }
                        return Err(PlacementError::InvalidPlacementValue(d.target.clone()));
                    },
                }
            }
            i = i + 1;
        }
        proof {
            assert(decorations@.take(decorations@.len() as int) =~= decorations@);
        }
        Placement::new(assignments)
    }

    /// The location assigned to `address` itself.
    pub fn assigned_location(&self, address: &Address) -> (r: Option<&str>)
        ensures
            match r {
                Some(s) => exists|l: String| self.locations().lookup(address@) == Some(l) && l@ == s@,
                None => self.locations().lookup(address@) is None,
            },
    {
        match self.locations.get(address) {
            Some(l) => Some(l.as_str()),
            None => None,
        }
    }
}

/// The address of the first block, in address order, with a port at `q`.
pub open spec fn owner_of(values: Seq<Element>, q: Seq<char>) -> Option<Address>
    decreases values.len(),
{
    if values.len() == 0 {
        None
    } else {
        match values[0] {
            Element::Block(b) => if b.ports.contains(q) {
                Some(b.address)
            } else {
                owner_of(values.drop_first(), q)
            },
            _ => owner_of(values.drop_first(), q),
        }
    }
}

/// Where `a` runs: an invisible address is `UnknownAddress`; otherwise its
/// own location, else the location of the block that owns it as a port,
/// else `MissingPlacement`.
pub open spec fn location_of(p: Placement, rep: StructuralReprojection, a: Address) -> Result<
    String,
    PlacementError,
> {
    if !rep.elements.contains(a@) {
        Err(PlacementError::UnknownAddress(a))
    } else {
        match p.locations().lookup(a@) {
            Some(l) => Ok(l),
            None => match owner_of(rep.elements.values(), a@) {
                Some(o) => match p.locations().lookup(o@) {
                    Some(l) => Ok(l),
                    None => Err(PlacementError::MissingPlacement(a)),
                },
                None => Err(PlacementError::MissingPlacement(a)),
            },
        }
    }
}

/// The block that owns `address` as a port, if any.
fn owner_block(address: &Address, reprojection: &StructuralReprojection) -> (r: Option<Address>)
    ensures
        r == owner_of(reprojection.elements.values(), address@),
{
    let ghost values = reprojection.elements.values();
    let mut i: usize = 0;
    proof {
        assert(values.skip(0) =~= values);
    }
    while i < reprojection.elements.len()
        invariant
            values == reprojection.elements.values(),
            i <= values.len(),
            owner_of(values, address@) == owner_of(values.skip(i as int), address@),
        decreases values.len() - i,
    {
        proof {
            assert(values.skip(i as int)[0] == values[i as int]);
            assert(values.skip(i as int).drop_first() =~= values.skip(i + 1));
        }
        if let Element::Block(block) = reprojection.elements.value_at(i) {
            if block.ports.contains_key(address) {
                return Some(block.address.clone());
            }
        }
        i = i + 1;
    }
    None
}

impl Placement {
    /// The location where `address` runs.
    fn location_for(&self, address: &Address, reprojection: &StructuralReprojection) -> (r: Result<
        String,
        PlacementError,
    >)
        ensures
            r == location_of(*self, *reprojection, *address),
    {
        if !reprojection.elements.contains_key(address) {
            return Err(PlacementError::UnknownAddress(address.clone()));
        }
        if let Some(location) = self.locations.get(address) {
            return Ok(location.clone());
        }
        if let Some(owner) = owner_block(address, reprojection) {
            if let Some(location) = self.locations.get(&owner) {
                return Ok(location.clone());
            }
        }
        Err(PlacementError::MissingPlacement(address.clone()))
    }
}

/// One transfer of a collective.
#[derive(Debug, PartialEq, Eq)]
pub struct CollectiveTransfer {
    pub source: Address,
    pub destination: Address,
}

impl Clone for CollectiveTransfer {
    fn clone(&self) -> (r: Self)
        ensures
            r == *self,
    {
        CollectiveTransfer { source: self.source.clone(), destination: self.destination.clone() }
    }
}

impl CollectiveTransfer {
    pub fn new(source: Address, destination: Address) -> (t: Self)
        ensures
            t == (CollectiveTransfer { source, destination }),
    {
        CollectiveTransfer { source, destination }
    }
}

/// The `j`th transfer repeats an earlier source and destination.
pub open spec fn transfer_repeats_earlier(ts: Seq<CollectiveTransfer>, j: int) -> bool {
    exists|i: int|
        0 <= i < j && #[trigger] ts[i].source@ == ts[j].source@ && ts[i].destination@
            == ts[j].destination@
}

/// A collective operation: a block that moves one payload along explicit
/// transfers.
#[derive(Debug, PartialEq, Eq)]
pub struct Collective {
    pub address: Address,
    pub payload: Address,
    pub transfers: Vec<CollectiveTransfer>,
}

impl Collective {
    /// A collective needs at least one transfer and no repeated transfer;
    /// the first repetition is reported.
    pub fn new(address: Address, payload: Address, transfers: Vec<CollectiveTransfer>) -> (r: Result<
        Collective,
        PlacementError,
    >)
        ensures
            match r {
                Ok(c) => transfers@.len() > 0 && (forall|j: int|
                    0 <= j < transfers@.len() ==> !transfer_repeats_earlier(transfers@, j)) && c
                    == (Collective { address, payload, transfers }),
                Err(e) => if transfers@.len() == 0 {
                    e == PlacementError::EmptyCollectiveTransfers(address)
                } else {
                    exists|j: int|
                        0 <= j < transfers@.len() && transfer_repeats_earlier(transfers@, j) && (forall|
                            k: int,
                        | 0 <= k < j ==> !transfer_repeats_earlier(transfers@, k)) && e
                            == (PlacementError::DuplicateCollectiveTransfer {
                            collective: address,
                            source: #[trigger] transfers@[j].source,
                            destination: transfers@[j].destination,
                        })
                },
            },
    {
        if transfers.len() == 0 {
            return Err(PlacementError::EmptyCollectiveTransfers(address));
        }
        let mut j: usize = 0;
        while j < transfers.len()
            invariant
                transfers@.len() > 0,
                j <= transfers@.len(),
                forall|k: int| 0 <= k < j ==> !transfer_repeats_earlier(transfers@, k),
            decreases transfers@.len() - j,
        {
            let mut i: usize = 0;
            while i < j
                invariant
                    i <= j < transfers@.len(),
                    forall|k: int| 0 <= k < j ==> !transfer_repeats_earlier(transfers@, k),
                    forall|k: int|
                        0 <= k < i ==> !(#[trigger] transfers@[k].source@ == transfers@[j as int].source@
                            && transfers@[k].destination@ == transfers@[j as int].destination@),
                decreases j - i,
            {
                if transfers[i].source.same(&transfers[j].source) && transfers[i].destination.same(
                    &transfers[j].destination,
                ) {
                    proof {
                        assert(transfer_repeats_earlier(transfers@, j as int));
                        assert(transfers@[j as int].source == transfers[j as int].source);
                    }
                    return Err(
                        PlacementError::DuplicateCollectiveTransfer {
                            collective: address,
                            source: transfers[j].source.clone(),
                            destination: transfers[j].destination.clone(),
                        },
                    );
                }
                i = i + 1;
            }
            j = j + 1;
        }
        Ok(Collective { address, payload, transfers })
    }
}

/// Bytes that cross between locations along one relation.
#[derive(Debug, PartialEq, Eq)]
pub struct WireTransfer {
    pub relation: Address,
    pub source: Address,
    pub destination: Address,
    pub bytes: u64,
}

/// Transfers found so far and their byte total.
pub type WireTally = (Seq<WireTransfer>, u64);

/// Whether the two ends run in different locations; the first end whose
/// location fails decides the error.
pub open spec fn crosses(p: Placement, rep: StructuralReprojection, src: Address, dst: Address) -> Result<
    bool,
    PlacementError,
> {
    match location_of(p, rep, src) {
        Err(e) => Err(e),
        Ok(s) => match location_of(p, rep, dst) {
            Err(e) => Err(e),
            Ok(d) => Ok(s@ != d@),
        },
    }
}

/// Records one transfer; a total beyond `u64` is `WireSizeOverflow`.
pub open spec fn with_transfer(st: WireTally, t: WireTransfer) -> Result<WireTally, PlacementError> {
    if st.1 + t.bytes > u64::MAX {
        Err(PlacementError::WireSizeOverflow)
    } else {
        Ok((st.0.push(t), (st.1 + t.bytes) as u64))
    }
}

/// The transfers of the connections among `es`, in order: a connection
/// whose ends run in one location moves nothing; otherwise it moves the
/// bytes of its source's shape.
pub open spec fn connection_wire(
    p: Placement,
    rep: StructuralReprojection,
    shapes: OrderedMap<Address, TensorShape>,
    axes: OrderedMap<Address, u64>,
    es: Seq<(Address, Element)>,
) -> Result<WireTally, PlacementError>
    decreases es.len(),
{
    if es.len() == 0 {
        Ok((Seq::empty(), 0u64))
    } else {
        match connection_wire(p, rep, shapes, axes, es.drop_last()) {
            Err(e) => Err(e),
            Ok(st) => match es.last().1 {
                Element::Connection(c) => match crosses(p, rep, c.source, c.destination) {
                    Err(e) => Err(e),
                    Ok(false) => Ok(st),
                    Ok(true) => match shapes.lookup(c.source@) {
                        None => Err(PlacementError::MissingShape(c.source)),
                        Some(sh) => match sh.byte_size_spec(axes) {
                            Err(e) => Err(e),
                            Ok(b) => with_transfer(
                                st,
                                WireTransfer {
                                    relation: es.last().0,
                                    source: c.source,
                                    destination: c.destination,
                                    bytes: b,
                                },
                            ),
                        },
                    },
                },
                _ => Ok(st),
            },
        }
    }
}

/// The transfers of one collective's explicit transfers, each moving
/// `bytes` when its ends run in different locations.
pub open spec fn collective_wire(
    p: Placement,
    rep: StructuralReprojection,
    relation: Address,
    ts: Seq<CollectiveTransfer>,
    bytes: u64,
    st: WireTally,
) -> Result<WireTally, PlacementError>
    decreases ts.len(),
{
    if ts.len() == 0 {
        Ok(st)
    } else {
        match collective_wire(p, rep, relation, ts.drop_last(), bytes, st) {
            Err(e) => Err(e),
            Ok(st2) => match crosses(p, rep, ts.last().source, ts.last().destination) {
                Err(e) => Err(e),
                Ok(false) => Ok(st2),
                Ok(true) => with_transfer(
                    st2,
                    WireTransfer {
                        relation,
                        source: ts.last().source,
                        destination: ts.last().destination,
                        bytes,
                    },
                ),
            },
        }
    }
}

/// `q` already names a relation: a connection, or an earlier collective.
pub open spec fn relation_taken(rep: StructuralReprojection, earlier: Seq<Collective>, q: Seq<char>) -> bool {
    (rep.elements.lookup(q) matches Some(Element::Connection(_))) || exists|k: int|
        0 <= k < earlier.len() && #[trigger] earlier[k].address@ == q
}

/// The transfers of the collectives, in order, after `start`: each names a
/// new relation that is a visible block, and moves its payload's bytes.
pub open spec fn collectives_wire(
    p: Placement,
    rep: StructuralReprojection,
    shapes: OrderedMap<Address, TensorShape>,
    axes: OrderedMap<Address, u64>,
    cs: Seq<Collective>,
    start: WireTally,
) -> Result<WireTally, PlacementError>
    decreases cs.len(),
{
    if cs.len() == 0 {
        Ok(start)
    } else {
        match collectives_wire(p, rep, shapes, axes, cs.drop_last(), start) {
            Err(e) => Err(e),
            Ok(st) => {
                let c = cs.last();
                if relation_taken(rep, cs.drop_last(), c.address@) {
                    Err(PlacementError::DuplicateRelation(c.address))
                } else if !(rep.elements.lookup(c.address@) matches Some(Element::Block(_))) {
                    Err(PlacementError::CollectiveElementMissing(c.address))
                } else {
                    match shapes.lookup(c.payload@) {
                        None => Err(PlacementError::MissingShape(c.payload)),
                        Some(sh) => match sh.byte_size_spec(axes) {
                            Err(e) => Err(e),
                            Ok(b) => collective_wire(p, rep, c.address, c.transfers@, b, st),
                        },
                    }
                }
            },
        }
    }
}

/// All transfers, connections first, before ordering.
pub open spec fn wire_tally(
    p: Placement,
    rep: StructuralReprojection,
    shapes: OrderedMap<Address, TensorShape>,
    axes: OrderedMap<Address, u64>,
    cs: Seq<Collective>,
) -> Result<WireTally, PlacementError> {
    match connection_wire(p, rep, shapes, axes, rep.elements.entries()) {
        Err(e) => Err(e),
        Ok(st) => collectives_wire(p, rep, shapes, axes, cs, st),
    }
}

/// The bytes of a list of transfers, summed.
pub open spec fn transfer_bytes(ts: Seq<WireTransfer>) -> int
    decreases ts.len(),
{
    if ts.len() == 0 {
        0
    } else {
        transfer_bytes(ts.drop_last()) + ts.last().bytes
    }
}

/// A tally whose total is the sum of its transfers.
pub open spec fn tally_consistent(st: WireTally) -> bool {
    st.1 == transfer_bytes(st.0)
}

/// Recording a transfer keeps the total the sum of the transfers.
proof fn lemma_with_transfer_consistent()
    ensures
        forall|st: WireTally, t: WireTransfer|
            tally_consistent(st) ==> (#[trigger] with_transfer(st, t) matches Ok(next) ==> tally_consistent(next)),
{
    assert forall|st: WireTally, t: WireTransfer|
        tally_consistent(st) implies (#[trigger] with_transfer(st, t) matches Ok(next) ==> tally_consistent(next)) by {
        assert(st.0.push(t).drop_last() =~= st.0);
    }
}

proof fn lemma_connection_wire_consistent(
    p: Placement,
    rep: StructuralReprojection,
    shapes: OrderedMap<Address, TensorShape>,
    axes: OrderedMap<Address, u64>,
    es: Seq<(Address, Element)>,
)
    ensures
        connection_wire(p, rep, shapes, axes, es) matches Ok(st) ==> tally_consistent(st),
    decreases es.len(),
{
    lemma_with_transfer_consistent();
    if es.len() > 0 {
        lemma_connection_wire_consistent(p, rep, shapes, axes, es.drop_last());
    }
}

proof fn lemma_collective_wire_consistent(
    p: Placement,
    rep: StructuralReprojection,
    relation: Address,
    ts: Seq<CollectiveTransfer>,
    bytes: u64,
    st: WireTally,
)
    requires
        tally_consistent(st),
    ensures
        collective_wire(p, rep, relation, ts, bytes, st) matches Ok(next) ==> tally_consistent(next),
    decreases ts.len(),
{
    lemma_with_transfer_consistent();
    if ts.len() > 0 {
        lemma_collective_wire_consistent(p, rep, relation, ts.drop_last(), bytes, st);
    }
}

proof fn lemma_collectives_wire_consistent(
    p: Placement,
    rep: StructuralReprojection,
    shapes: OrderedMap<Address, TensorShape>,
    axes: OrderedMap<Address, u64>,
    cs: Seq<Collective>,
    start: WireTally,
)
    requires
        tally_consistent(start),
    ensures
        collectives_wire(p, rep, shapes, axes, cs, start) matches Ok(next) ==> tally_consistent(next),
    decreases cs.len(),
{
    if cs.len() > 0 {
        lemma_collectives_wire_consistent(p, rep, shapes, axes, cs.drop_last(), start);
        if let Ok(st) = collectives_wire(p, rep, shapes, axes, cs.drop_last(), start) {
            let c = cs.last();
            if let Some(sh) = shapes.lookup(c.payload@) {
                if let Ok(b) = sh.byte_size_spec(axes) {
                    lemma_collective_wire_consistent(p, rep, c.address, c.transfers@, b, st);
                }
            }
        }
    }
}

/// The summed bytes do not depend on the order of the transfers.
proof fn lemma_transfer_bytes_remove(ts: Seq<WireTransfer>, k: int)
    requires
        0 <= k < ts.len(),
    ensures
        transfer_bytes(ts) == transfer_bytes(ts.remove(k)) + ts[k].bytes,
    decreases ts.len(),
{
    if k == ts.len() - 1 {
        assert(ts.remove(k) =~= ts.drop_last());
    } else {
        lemma_transfer_bytes_remove(ts.drop_last(), k);
        assert(ts.remove(k).drop_last() =~= ts.drop_last().remove(k));
        assert(ts.remove(k).last() == ts.last());
    }
}

proof fn lemma_transfer_bytes_permutation(a: Seq<WireTransfer>, b: Seq<WireTransfer>)
    requires
        a.to_multiset() == b.to_multiset(),
    ensures
        transfer_bytes(a) == transfer_bytes(b),
    decreases a.len(),
{
    broadcast use vstd::seq_lib::group_to_multiset_ensures, vstd::multiset::group_multiset_axioms;

    if a.len() == 0 {
        assert(b.to_multiset().len() == 0);
        assert(b.len() == 0);
    } else {
        let x = a.last();
        let rest = a.drop_last();
        assert(rest.push(x) =~= a);
        vstd::seq_lib::to_multiset_build(rest, x);
        assert(a.to_multiset().count(x) > 0);
        assert(b.to_multiset().count(x) > 0);
        assert(b.contains(x));
        let k = choose|k: int| 0 <= k < b.len() && b[k] == x;
        vstd::seq_lib::to_multiset_remove(b, k);
        assert(rest.to_multiset() =~= b.remove(k).to_multiset());
        lemma_transfer_bytes_permutation(rest, b.remove(k));
        lemma_transfer_bytes_remove(b, k);
    }
}

/// The order of a report: by relation, then source, then destination.
pub open spec fn transfer_before(a: WireTransfer, b: WireTransfer) -> bool {
    seq_lt(a.relation@, b.relation@) || (a.relation@ == b.relation@ && (seq_lt(a.source@, b.source@)
        || (a.source@ == b.source@ && seq_lt(a.destination@, b.destination@))))
}

pub open spec fn transfers_sorted(ts: Seq<WireTransfer>) -> bool {
    forall|i: int, j: int| 0 <= i < j < ts.len() ==> !transfer_before(#[trigger] ts[j], #[trigger] ts[i])
}

pub open spec fn tally_view(r: Result<(Vec<WireTransfer>, u64), PlacementError>) -> Result<WireTally, PlacementError> {
    match r {
        Ok((v, t)) => Ok((v@, t)),
        Err(e) => Err(e),
    }
}

proof fn lemma_connection_refused(
    p: Placement,
    rep: StructuralReprojection,
    shapes: OrderedMap<Address, TensorShape>,
    axes: OrderedMap<Address, u64>,
    es: Seq<(Address, Element)>,
    j: int,
)
    requires
        0 <= j <= es.len(),
        connection_wire(p, rep, shapes, axes, es.take(j)) is Err,
    ensures
        connection_wire(p, rep, shapes, axes, es) == connection_wire(p, rep, shapes, axes, es.take(j)),
    decreases es.len(),
{
    if j == es.len() {
        assert(es.take(j) =~= es);
    } else {
        assert(es.drop_last().take(j) =~= es.take(j));
        lemma_connection_refused(p, rep, shapes, axes, es.drop_last(), j);
    }
}

fn crosses_exec(placement: &Placement, rep: &StructuralReprojection, src: &Address, dst: &Address) -> (r: Result<bool, PlacementError>)
    ensures
        r == crosses(*placement, *rep, *src, *dst),
{
    let s = placement.location_for(src, rep)?;
    let d = placement.location_for(dst, rep)?;
    Ok(!str_eq(s.as_str(), d.as_str()))
}

fn push_transfer(transfers: &mut Vec<WireTransfer>, total: &mut u64, t: WireTransfer) -> (ok: bool)
    ensures
        with_transfer((old(transfers)@, *old(total)), t) == if ok {
            Ok::<WireTally, PlacementError>((final(transfers)@, *final(total)))
        } else {
            Err::<WireTally, PlacementError>(PlacementError::WireSizeOverflow)
        },
{
    match total.checked_add(t.bytes) {
        Some(n) => {
            *total = n;
            transfers.push(t);
            true
        },
        None => false,
    }
}

/// The transfers of the connections, in address order.
fn wire_connections(
    rep: &StructuralReprojection,
    placement: &Placement,
    shapes: &OrderedMap<Address, TensorShape>,
    axes: &OrderedMap<Address, u64>,
) -> (r: Result<(Vec<WireTransfer>, u64), PlacementError>)
    ensures
        tally_view(r) == connection_wire(*placement, *rep, *shapes, *axes, rep.elements.entries()),
{
    let ghost es = rep.elements.entries();
    let mut transfers: Vec<WireTransfer> = Vec::new();
    let mut total: u64 = 0;
    let mut i: usize = 0;
    proof {
        assert(es.take(0) =~= Seq::<(Address, Element)>::empty());
    }
    while i < rep.elements.len()
        invariant
            es == rep.elements.entries(),
            i <= es.len(),
            connection_wire(*placement, *rep, *shapes, *axes, es.take(i as int)) == Ok::<WireTally, PlacementError>(
                (transfers@, total),
            ),
        decreases es.len() - i,
    {
        let relation = rep.elements.key_at(i);
        let element = rep.elements.value_at(i);
        proof {
            assert(es.take(i + 1).drop_last() =~= es.take(i as int));
            assert(es.take(i + 1).last() == es[i as int]);
        }
        if let Element::Connection(connection) = element {
            let crossing = crosses_exec(placement, rep, &connection.source, &connection.destination);
            match crossing {
                Err(e) => {
                    proof {
                        lemma_connection_refused(*placement, *rep, *shapes, *axes, es, i + 1);
                    }
                    return Err(e);
                },
                Ok(false) => {},
                Ok(true) => {
                    let shape = match shapes.get(&connection.source) {
                        Some(sh) => sh,
                        None => {
                            proof {
                                lemma_connection_refused(*placement, *rep, *shapes, *axes, es, i + 1);
                            }
                            return Err(PlacementError::MissingShape(connection.source.clone()));
                        },
                    };
                    let bytes = match shape.byte_size(axes) {
                        Ok(b) => b,
                        Err(e) => {
                            proof {
                                lemma_connection_refused(*placement, *rep, *shapes, *axes, es, i + 1);
                            }
                            return Err(e);
                        },
                    };
                    let t = WireTransfer {
                        relation: relation.clone(),
                        source: connection.source.clone(),
                        destination: connection.destination.clone(),
                        bytes,
                    };
                    if !push_transfer(&mut transfers, &mut total, t) {
                        proof {
                            lemma_connection_refused(*placement, *rep, *shapes, *axes, es, i + 1);
                        }
                        return Err(PlacementError::WireSizeOverflow);
                    }
                },
            }
        }
        i = i + 1;
    }
    proof {
        assert(es.take(es.len() as int) =~= es);
    }
    Ok((transfers, total))
}

proof fn lemma_collective_refused(
    p: Placement,
    rep: StructuralReprojection,
    relation: Address,
    ts: Seq<CollectiveTransfer>,
    bytes: u64,
    st: WireTally,
    j: int,
)
    requires
        0 <= j <= ts.len(),
        collective_wire(p, rep, relation, ts.take(j), bytes, st) is Err,
    ensures
        collective_wire(p, rep, relation, ts, bytes, st) == collective_wire(p, rep, relation, ts.take(j), bytes, st),
    decreases ts.len(),
{
    if j == ts.len() {
        assert(ts.take(j) =~= ts);
    } else {
        assert(ts.drop_last().take(j) =~= ts.take(j));
        lemma_collective_refused(p, rep, relation, ts.drop_last(), bytes, st, j);
    }
}

proof fn lemma_collectives_refused(
    p: Placement,
    rep: StructuralReprojection,
    shapes: OrderedMap<Address, TensorShape>,
    axes: OrderedMap<Address, u64>,
    cs: Seq<Collective>,
    st: WireTally,
    j: int,
)
    requires
        0 <= j <= cs.len(),
        collectives_wire(p, rep, shapes, axes, cs.take(j), st) is Err,
    ensures
        collectives_wire(p, rep, shapes, axes, cs, st) == collectives_wire(p, rep, shapes, axes, cs.take(j), st),
    decreases cs.len(),
{
    if j == cs.len() {
        assert(cs.take(j) =~= cs);
    } else {
        assert(cs.drop_last().take(j) =~= cs.take(j));
        lemma_collectives_refused(p, rep, shapes, axes, cs.drop_last(), st, j);
    }
}

/// The transfers of one collective, after those found so far.
fn wire_collective(
    rep: &StructuralReprojection,
    placement: &Placement,
    relation: &Address,
    ts: &Vec<CollectiveTransfer>,
    bytes: u64,
    found: Vec<WireTransfer>,
    found_total: u64,
) -> (r: Result<(Vec<WireTransfer>, u64), PlacementError>)
    ensures
        tally_view(r) == collective_wire(*placement, *rep, *relation, ts@, bytes, (found@, found_total)),
{
    let ghost st = (found@, found_total);
    let mut transfers = found;
    let mut total = found_total;
    let mut i: usize = 0;
    proof {
        assert(ts@.take(0) =~= Seq::<CollectiveTransfer>::empty());
    }
    while i < ts.len()
        invariant
            st == (found@, found_total),
            i <= ts@.len(),
            collective_wire(*placement, *rep, *relation, ts@.take(i as int), bytes, st) == Ok::<WireTally, PlacementError>(
                (transfers@, total),
            ),
        decreases ts@.len() - i,
    {
        let t = &ts[i];
        proof {
            assert(ts@.take(i + 1).drop_last() =~= ts@.take(i as int));
            assert(ts@.take(i + 1).last() == ts@[i as int]);
        }
        match crosses_exec(placement, rep, &t.source, &t.destination) {
            Err(e) => {
                proof {
                    lemma_collective_refused(*placement, *rep, *relation, ts@, bytes, st, i + 1);
                }
                return Err(e);
            },
            Ok(false) => {},
            Ok(true) => {
                let w = WireTransfer {
                    relation: relation.clone(),
                    source: t.source.clone(),
                    destination: t.destination.clone(),
                    bytes,
                };
                if !push_transfer(&mut transfers, &mut total, w) {
                    proof {
                        lemma_collective_refused(*placement, *rep, *relation, ts@, bytes, st, i + 1);
                    }
                    return Err(PlacementError::WireSizeOverflow);
                }
            },
        }
        i = i + 1;
    }
    proof {
        assert(ts@.take(ts@.len() as int) =~= ts@);
    }
    Ok((transfers, total))
}

/// Whether `collectives[i]` names a relation that is already taken.
fn taken_relation(rep: &StructuralReprojection, collectives: &[Collective], i: usize) -> (b: bool)
    requires
        i < collectives@.len(),
    ensures
        b == relation_taken(*rep, collectives@.take(i as int), collectives@[i as int].address@),
{
    let address = &collectives[i].address;
    if let Some(Element::Connection(_)) = rep.elements.get(address) {
        return true;
    }
    let mut k: usize = 0;
    while k < i
        invariant
            i < collectives@.len(),
            k <= i,
            *address == collectives@[i as int].address,
            forall|m: int| 0 <= m < k ==> collectives@[m].address@ != address@,
        decreases i - k,
    {
        if collectives[k].address.same(address) {
            proof {
                assert(collectives@.take(i as int)[k as int].address@ == address@);
            }
            return true;
        }
        k = k + 1;
    }
    proof {
        let earlier = collectives@.take(i as int);
        if exists|m: int| 0 <= m < earlier.len() && #[trigger] earlier[m].address@ == address@ {
            let m = choose|m: int| 0 <= m < earlier.len() && #[trigger] earlier[m].address@ == address@;
            assert(collectives@[m].address@ != address@);
        }
    }
    false
}

/// The transfers of the collectives, after those of the connections.
fn wire_collectives(
    rep: &StructuralReprojection,
    placement: &Placement,
    shapes: &OrderedMap<Address, TensorShape>,
    axes: &OrderedMap<Address, u64>,
    collectives: &[Collective],
    found: Vec<WireTransfer>,
    found_total: u64,
) -> (r: Result<(Vec<WireTransfer>, u64), PlacementError>)
    ensures
        tally_view(r) == collectives_wire(*placement, *rep, *shapes, *axes, collectives@, (found@, found_total)),
{
    let ghost st = (found@, found_total);
    let mut transfers = found;
    let mut total = found_total;
    let mut i: usize = 0;
    proof {
        assert(collectives@.take(0) =~= Seq::<Collective>::empty());
    }
    while i < collectives.len()
        invariant
            st == (found@, found_total),
            i <= collectives@.len(),
            collectives_wire(*placement, *rep, *shapes, *axes, collectives@.take(i as int), st) == Ok::<
                WireTally,
                PlacementError,
            >((transfers@, total)),
        decreases collectives@.len() - i,
    {
        let c = &collectives[i];
        proof {
            assert(collectives@.take(i + 1).drop_last() =~= collectives@.take(i as int));
            assert(collectives@.take(i + 1).last() == collectives@[i as int]);
        }
        if taken_relation(rep, collectives, i) {
            proof {
                lemma_collectives_refused(*placement, *rep, *shapes, *axes, collectives@, st, i + 1);
            }
            return Err(PlacementError::DuplicateRelation(c.address.clone()));
        }
        let is_block = match rep.elements.get(&c.address) {
            Some(Element::Block(_)) => true,
            _ => false,
        };
        if !is_block {
            proof {
                lemma_collectives_refused(*placement, *rep, *shapes, *axes, collectives@, st, i + 1);
            }
            return Err(PlacementError::CollectiveElementMissing(c.address.clone()));
        }
        let shape = match shapes.get(&c.payload) {
            Some(sh) => sh,
            None => {
                proof {
                    lemma_collectives_refused(*placement, *rep, *shapes, *axes, collectives@, st, i + 1);
                }
                return Err(PlacementError::MissingShape(c.payload.clone()));
            },
        };
        let bytes = match shape.byte_size(axes) {
            Ok(b) => b,
            Err(e) => {
                proof {
                    lemma_collectives_refused(*placement, *rep, *shapes, *axes, collectives@, st, i + 1);
                }
                return Err(e);
            },
        };
        match wire_collective(rep, placement, &c.address, &c.transfers, bytes, transfers, total) {
            Ok((t, n)) => {
                transfers = t;
                total = n;
            },
            Err(e) => {
                proof {
                    lemma_collectives_refused(*placement, *rep, *shapes, *axes, collectives@, st, i + 1);
                }
                return Err(e);
            },
        }
        i = i + 1;
    }
    proof {
        assert(collectives@.take(collectives@.len() as int) =~= collectives@);
    }
    Ok((transfers, total))
}

proof fn lemma_transfer_before_order(a: WireTransfer, b: WireTransfer, c: WireTransfer)
    ensures
        !transfer_before(a, a),
        transfer_before(a, b) && transfer_before(b, c) ==> transfer_before(a, c),
{
    lemma_seq_lt_irreflexive(a.relation@);
    lemma_seq_lt_irreflexive(a.source@);
    lemma_seq_lt_irreflexive(a.destination@);
    lemma_seq_lt_transitive(a.relation@, b.relation@, c.relation@);
    lemma_seq_lt_transitive(a.source@, b.source@, c.source@);
    lemma_seq_lt_transitive(a.destination@, b.destination@, c.destination@);
}

fn before(a: &WireTransfer, b: &WireTransfer) -> (r: bool)
    ensures
        r == transfer_before(*a, *b),
{
    if str_lt(a.relation.as_str(), b.relation.as_str()) {
        return true;
    }
    if !a.relation.same(&b.relation) {
        return false;
    }
    if str_lt(a.source.as_str(), b.source.as_str()) {
        return true;
    }
    a.source.same(&b.source) && str_lt(a.destination.as_str(), b.destination.as_str())
}

/// The transfers ordered by relation, source and destination.
fn sort_transfers(unsorted: Vec<WireTransfer>) -> (out: Vec<WireTransfer>)
    ensures
        transfers_sorted(out@),
        out@.to_multiset() == unsorted@.to_multiset(),
{
    broadcast use vstd::seq_lib::group_to_multiset_ensures, vstd::multiset::group_multiset_axioms;

    let ghost all = unsorted@.to_multiset();
    let mut rest = unsorted;
    let mut out: Vec<WireTransfer> = Vec::new();
    proof {
        assert(out@.to_multiset() =~= vstd::multiset::Multiset::empty());
        assert(out@.to_multiset().add(rest@.to_multiset()) =~= all);
    }
    while rest.len() > 0
        invariant
            transfers_sorted(out@),
            out@.to_multiset().add(rest@.to_multiset()) == all,
        decreases rest@.len(),
    {
        let ghost before_rest = rest@;
        let x = rest.pop().unwrap();
        proof {
            assert(before_rest =~= rest@.push(x));
        }
        let mut p: usize = 0;
        while p < out.len() && !before(&x, &out[p])
            invariant
                p <= out@.len(),
                forall|k: int| 0 <= k < p ==> !transfer_before(x, #[trigger] out@[k]),
            decreases out@.len() - p,
        {
            p = p + 1;
        }
        let ghost old_out = out@;
        out.insert(p, x);
        proof {
            assert(out@ == old_out.insert(p as int, x));
            assert forall|i: int, j: int| 0 <= i < j < out@.len() implies !transfer_before(
                #[trigger] out@[j],
                #[trigger] out@[i],
            ) by {
                if i < p && j == p {
                } else if i < p && j > p {
                    assert(out@[j] == old_out[j - 1]);
                } else if i == p && j > p {
                    assert(out@[j] == old_out[j - 1]);
                    lemma_transfer_before_order(old_out[j - 1], x, old_out[p as int]);
                    lemma_transfer_before_order(old_out[p as int], old_out[p as int], old_out[p as int]);
                } else if i > p {
                    assert(out@[j] == old_out[j - 1]);
                    assert(out@[i] == old_out[i - 1]);
                }
            }
            vstd::seq_lib::to_multiset_insert(old_out, p as int, x);
            vstd::seq_lib::to_multiset_build(rest@, x);
            assert(out@.to_multiset().add(rest@.to_multiset()) =~= old_out.to_multiset().add(
                before_rest.to_multiset(),
            ));
        }
    }
    proof {
        assert(rest@.to_multiset() =~= vstd::multiset::Multiset::empty());
        assert(out@.to_multiset() =~= all);
    }
    out
}

/// The transfers that cross locations, and their total.
#[derive(Debug, PartialEq, Eq)]
pub struct BandwidthReport {
    pub transfers: Vec<WireTransfer>,
    total_bytes: u64,
}

impl BandwidthReport {
    pub closed spec fn total(&self) -> u64 {
        self.total_bytes
    }

    pub closed spec fn transfer_list(&self) -> Seq<WireTransfer> {
        self.transfers@
    }

    /// The transfers of the report, as its contract lists them.
    pub fn transfer_items(&self) -> (r: &Vec<WireTransfer>)
        ensures
            r@ == self.transfer_list(),
    {
        &self.transfers
    }

    pub fn total_bytes(&self) -> (t: u64)
        ensures
            t == self.total(),
    {
        self.total_bytes
    }
}

/// The bytes that cross between locations. Each connection, in address
/// order, whose ends run in different locations moves the bytes of its
/// source's shape; then each collective, in order, must name a new relation
/// that is a visible block, and each of its transfers whose ends run in
/// different locations moves the bytes of its payload's shape. The first
/// failure decides the error; the transfers come ordered by relation,
/// source and destination, with their byte total.
pub fn bytes_on_wire(
    reprojection: &StructuralReprojection,
    placement: &Placement,
    shapes: &OrderedMap<Address, TensorShape>,
    axes: &OrderedMap<Address, u64>,
    collectives: &[Collective],
) -> (r: Result<BandwidthReport, PlacementError>)
    ensures
        match wire_tally(*placement, *reprojection, *shapes, *axes, collectives@) {
            Err(e) => r == Err::<BandwidthReport, PlacementError>(e),
            Ok((ts, total)) => (r matches Ok(report) && report.total() == total && transfers_sorted(
                report.transfer_list(),
            ) && report.transfer_list().to_multiset() == ts.to_multiset()),
        },
        r matches Ok(report) ==> report.total() == transfer_bytes(report.transfer_list()),
{
    let (transfers, total) = wire_connections(reprojection, placement, shapes, axes)?;
    let (transfers, total_bytes) = wire_collectives(
        reprojection,
        placement,
        shapes,
        axes,
        collectives,
        transfers,
        total,
    )?;
    let sorted = sort_transfers(transfers);
    proof {
        lemma_connection_wire_consistent(*placement, *reprojection, *shapes, *axes, reprojection.elements.entries());
        if let Ok(st) = connection_wire(*placement, *reprojection, *shapes, *axes, reprojection.elements.entries()) {
            lemma_collectives_wire_consistent(*placement, *reprojection, *shapes, *axes, collectives@, st);
        }
        lemma_transfer_bytes_permutation(transfers@, sorted@);
    }
    Ok(BandwidthReport { transfers: sorted, total_bytes })
}

/// Each dimension resolves to the positive extent at its position: a
/// literal to itself, an axis to its extent in `axes`.
pub open spec fn resolves_to(dims: Seq<ShapeDimension>, axes: OrderedMap<Address, u64>, extents: Seq<u64>) -> bool {
    &&& dims.len() == extents.len()
    &&& forall|i: int| 0 <= i < dims.len() ==> #[trigger] dimension_resolves(dims[i], axes, extents[i])
}

/// A literal resolves to itself, an axis to its extent in `axes`; either
/// way to a positive extent.
pub open spec fn dimension_resolves(d: ShapeDimension, axes: OrderedMap<Address, u64>, e: u64) -> bool {
    &&& e > 0
    &&& match d {
        ShapeDimension::Literal(v) => e == v,
        ShapeDimension::Axis(a) => axes.lookup(a@) == Some(e),
    }
}

proof fn lemma_product_positive(s: Seq<u64>)
    requires
        forall|i: int| 0 <= i < s.len() ==> s[i] > 0,
    ensures
        seq_product(s) >= 1,
    decreases s.len(),
{
    if s.len() > 0 {
        lemma_product_positive(s.drop_first());
        let p = seq_product(s.drop_first());
        let v = s[0];
        assert(v * p >= 1) by (nonlinear_arith)
            requires
                v >= 1,
                p >= 1,
        ;
    }
}

proof fn lemma_shape_elements(dims: Seq<ShapeDimension>, axes: OrderedMap<Address, u64>, acc: u64, extents: Seq<u64>)
    requires
        resolves_to(dims, axes, extents),
        acc * seq_product(extents) <= u64::MAX,
    ensures
        shape_elements(dims, axes, acc) == Ok::<u64, PlacementError>((acc * seq_product(extents)) as u64),
    decreases dims.len(),
{
    if dims.len() == 0 {
        assert(seq_product(extents) == 1);
    } else {
        let v = extents[0];
        let tail = extents.drop_first();
        assert(dimension_resolves(dims[0], axes, extents[0]));
        assert forall|i: int| 0 <= i < tail.len() implies tail[i] > 0 by {
            assert(dimension_resolves(dims[i + 1], axes, extents[i + 1]));
        }
        lemma_product_positive(tail);
        let p = seq_product(tail);
        assert(seq_product(extents) == v * p);
        assert(acc * v <= acc * (v * p)) by (nonlinear_arith)
            requires
                p >= 1,
                v >= 1,
        ;
        assert(acc * (v * p) == (acc * v) * p) by (nonlinear_arith);
        let rest = dims.drop_first();
        assert forall|i: int| 0 <= i < rest.len() implies #[trigger] dimension_resolves(rest[i], axes, tail[i]) by {
            assert(rest[i] == dims[i + 1]);
            assert(tail[i] == extents[i + 1]);
            assert(dimension_resolves(dims[i + 1], axes, extents[i + 1]));
        }
        lemma_shape_elements(rest, axes, (acc * v) as u64, tail);
    }
}

/// A shape's byte size is the product of all its resolved extents times its
/// element width, whenever that product fits in a `u64`.
pub proof fn law_byte_size_is_product_of_extents(shape: TensorShape, axes: OrderedMap<Address, u64>, extents: Seq<u64>)
    requires
        resolves_to(shape.dims(), axes, extents),
        seq_product(extents) <= u64::MAX,
        seq_product(extents) * shape.width() <= u64::MAX,
    ensures
        shape.byte_size_spec(axes) == Ok::<u64, PlacementError>((seq_product(extents) * shape.width()) as u64),
{
    lemma_shape_elements(shape.dims(), axes, 1, extents);
    assert forall|i: int| 0 <= i < extents.len() implies extents[i] > 0 by {
        assert(dimension_resolves(shape.dims()[i], axes, extents[i]));
    }
    lemma_product_positive(extents);
    assert(1 * seq_product(extents) == seq_product(extents));
    assert(shape_elements(shape.dims(), axes, 1) == Ok::<u64, PlacementError>(seq_product(extents) as u64));
}

/// A dimension whose axis has no extent fails the byte size with that axis,
/// when every dimension before it resolves and their product fits.
pub proof fn law_byte_size_missing_axis(
    shape: TensorShape,
    axes: OrderedMap<Address, u64>,
    extents: Seq<u64>,
    a: Address,
)
    requires
        extents.len() < shape.dims().len(),
        resolves_to(shape.dims().take(extents.len() as int), axes, extents),
        seq_product(extents) <= u64::MAX,
        shape.dims()[extents.len() as int] == ShapeDimension::Axis(a),
        axes.lookup(a@) is None,
    ensures
        shape.byte_size_spec(axes) == Err::<u64, PlacementError>(PlacementError::MissingAxis(a)),
{
    lemma_prefix_then_missing(shape.dims(), axes, 1, extents, a);
}

proof fn lemma_prefix_then_missing(
    dims: Seq<ShapeDimension>,
    axes: OrderedMap<Address, u64>,
    acc: u64,
    extents: Seq<u64>,
    a: Address,
)
    requires
        extents.len() < dims.len(),
        resolves_to(dims.take(extents.len() as int), axes, extents),
        acc * seq_product(extents) <= u64::MAX,
        dims[extents.len() as int] == ShapeDimension::Axis(a),
        axes.lookup(a@) is None,
    ensures
        shape_elements(dims, axes, acc) == Err::<u64, PlacementError>(PlacementError::MissingAxis(a)),
    decreases extents.len(),
{
    if extents.len() > 0 {
        let pre = dims.take(extents.len() as int);
        let v = extents[0];
        let tail = extents.drop_first();
        assert(pre[0] == dims[0]);
        assert(dimension_resolves(pre[0], axes, extents[0]));
        assert forall|i: int| 0 <= i < tail.len() implies tail[i] > 0 by {
            assert(dimension_resolves(pre[i + 1], axes, extents[i + 1]));
        }
        lemma_product_positive(tail);
        let p = seq_product(tail);
        assert(seq_product(extents) == v * p);
        assert(acc * v <= acc * (v * p)) by (nonlinear_arith)
            requires
                p >= 1,
                v >= 1,
        ;
        assert(acc * (v * p) == (acc * v) * p) by (nonlinear_arith);
        let rest = dims.drop_first();
        let rpre = rest.take(tail.len() as int);
        assert forall|i: int| 0 <= i < rpre.len() implies #[trigger] dimension_resolves(rpre[i], axes, tail[i]) by {
            assert(rpre[i] == pre[i + 1]);
            assert(tail[i] == extents[i + 1]);
            assert(dimension_resolves(pre[i + 1], axes, extents[i + 1]));
        }
        assert(rest[tail.len() as int] == dims[extents.len() as int]);
        lemma_prefix_then_missing(rest, axes, (acc * v) as u64, tail, a);
    }
}

} // verus!

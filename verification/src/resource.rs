//! Typed, non-fungible resource quantities attached to flows and charges.
use vstd::prelude::*;

use crate::address::Address;
use crate::evaluate::{Element, StructuralReprojection};
use crate::text::{chars_of, owned, push_str};
use crate::validate::located_at;

verus! {

/// A kind of resource; kinds are never added to one another.
#[derive(Clone, Copy, Debug, PartialEq, Eq, Hash, PartialOrd, Ord, Structural)]
pub enum ResourceKind {
    FlopWork,
    Bytes,
    MemoryBytes,
    BandwidthBytesPerSecond,
    LatencyNanoseconds,
}

/// Why a resource value was refused.
#[derive(Debug, PartialEq, Eq)]
pub enum ResourceError {
    EmptyResourceModel,
    EmptyScenarioName,
    EmptyScenarioAssumption(String),
    DuplicateScenario(String),
    DuplicateResourceKind(ResourceKind),
    EmptyResourceBundle { context: &'static str },
    UnknownAddress(Address),
    FlowRelationNotConnection(Address),
    FlowEndpointMismatch {
        relation: Address,
        expected_source: Address,
        expected_destination: Address,
        actual_source: Address,
        actual_destination: Address,
    },
    ArithmeticOverflow { kind: ResourceKind },
}

/// The position of a kind in declaration order.
pub open spec fn kind_index(kind: ResourceKind) -> int {
    match kind {
        ResourceKind::FlopWork => 0,
        ResourceKind::Bytes => 1,
        ResourceKind::MemoryBytes => 2,
        ResourceKind::BandwidthBytesPerSecond => 3,
        ResourceKind::LatencyNanoseconds => 4,
    }
}

/// The name of a kind in resource events.
pub open spec fn kind_name(kind: ResourceKind) -> Seq<char> {
    match kind {
        ResourceKind::FlopWork => "flop-work"@,
        ResourceKind::Bytes => "bytes"@,
        ResourceKind::MemoryBytes => "memory-bytes"@,
        ResourceKind::BandwidthBytesPerSecond => "bandwidth-bytes-per-second"@,
        ResourceKind::LatencyNanoseconds => "latency-nanoseconds"@,
    }
}

/// The kind named by `s`, if any.
pub open spec fn kind_named(s: Seq<char>) -> Option<ResourceKind> {
    if s == "flop-work"@ {
        Some(ResourceKind::FlopWork)
    } else if s == "bytes"@ {
        Some(ResourceKind::Bytes)
    } else if s == "memory-bytes"@ {
        Some(ResourceKind::MemoryBytes)
    } else if s == "bandwidth-bytes-per-second"@ {
        Some(ResourceKind::BandwidthBytesPerSecond)
    } else if s == "latency-nanoseconds"@ {
        Some(ResourceKind::LatencyNanoseconds)
    } else {
        None
    }
}

/// Whether the characters of `cs` spell `lit`.
pub fn spells(cs: &Vec<char>, lit: &str) -> (b: bool)
    ensures
        b == (cs@ == lit@),
{
    let l = chars_of(lit);
    crate::map::chars_equal(cs.as_slice(), l.as_slice())
}

impl ResourceKind {
    /// Every kind, in declaration order.
    pub const ALL: [ResourceKind; 5] = [
        ResourceKind::FlopWork,
        ResourceKind::Bytes,
        ResourceKind::MemoryBytes,
        ResourceKind::BandwidthBytesPerSecond,
        ResourceKind::LatencyNanoseconds,
    ];

    /// The kind with the given event name.
    pub fn parse(value: &str) -> (r: Option<ResourceKind>)
        ensures
            r == kind_named(value@),
    {
        let cs = chars_of(value);
        if spells(&cs, "flop-work") {
            Some(ResourceKind::FlopWork)
        } else if spells(&cs, "bytes") {
            Some(ResourceKind::Bytes)
        } else if spells(&cs, "memory-bytes") {
            Some(ResourceKind::MemoryBytes)
        } else if spells(&cs, "bandwidth-bytes-per-second") {
            Some(ResourceKind::BandwidthBytesPerSecond)
        } else if spells(&cs, "latency-nanoseconds") {
            Some(ResourceKind::LatencyNanoseconds)
        } else {
            None
        }
    }

    /// The event name of this kind.
    pub fn as_str(self) -> (s: &'static str)
        ensures
            s@ == kind_name(self),
    {
        match self {
            ResourceKind::FlopWork => "flop-work",
            ResourceKind::Bytes => "bytes",
            ResourceKind::MemoryBytes => "memory-bytes",
            ResourceKind::BandwidthBytesPerSecond => "bandwidth-bytes-per-second",
            ResourceKind::LatencyNanoseconds => "latency-nanoseconds",
        }
    }

    fn index(self) -> (i: usize)
        ensures
            i == kind_index(self),
    {
        match self {
            ResourceKind::FlopWork => 0,
            ResourceKind::Bytes => 1,
            ResourceKind::MemoryBytes => 2,
            ResourceKind::BandwidthBytesPerSecond => 3,
            ResourceKind::LatencyNanoseconds => 4,
        }
    }
}

/// Every kind's name parses back to that kind.
pub proof fn kind_name_round_trip(kind: ResourceKind)
    ensures
        kind_named(kind_name(kind)) == Some(kind),
{
    reveal_strlit("flop-work");
    reveal_strlit("bytes");
    reveal_strlit("memory-bytes");
    reveal_strlit("bandwidth-bytes-per-second");
    reveal_strlit("latency-nanoseconds");
    assert("flop-work"@.len() == 9);
    assert("bytes"@.len() == 5);
    assert("memory-bytes"@.len() == 12);
    assert("bandwidth-bytes-per-second"@.len() == 26);
    assert("latency-nanoseconds"@.len() == 19);
}

/// Distinct kinds have distinct names.
pub proof fn kind_names_distinct(a: ResourceKind, b: ResourceKind)
    ensures
        kind_name(a) == kind_name(b) ==> a == b,
{
    kind_name_round_trip(a);
    kind_name_round_trip(b);
}

/// At most one quantity per resource kind.
#[derive(Clone, Debug, PartialEq, Eq)]
pub struct ResourceBundle {
    slots: [Option<u64>; 5],
}

/// The kind of the `j`th assignment occurs among the earlier ones.
pub open spec fn kind_repeats_earlier(pairs: Seq<(ResourceKind, u64)>, j: int) -> bool {
    exists|i: int| 0 <= i < j && #[trigger] pairs[i].0 == pairs[j].0
}

/// The quantity the last assignment of `kind` carries.
pub open spec fn assigned_quantity(pairs: Seq<(ResourceKind, u64)>, kind: ResourceKind) -> Option<u64>
    decreases pairs.len(),
{
    if pairs.len() == 0 {
        None
    } else if pairs.last().0 == kind {
        Some(pairs.last().1)
    } else {
        assigned_quantity(pairs.drop_last(), kind)
    }
}

impl ResourceBundle {
    /// The quantity of each kind.
    pub closed spec fn quantity_of(&self, kind: ResourceKind) -> Option<u64> {
        self.slots@[kind_index(kind)]
    }

    /// A bundle with no quantities.
    pub open spec fn spec_is_empty(&self) -> bool {
        forall|k: ResourceKind| #[trigger] self.quantity_of(k) is None
    }

    /// Builds a bundle; a kind assigned twice is `DuplicateResourceKind`,
    /// reported at its first repetition.
    pub fn new(assignments: Vec<(ResourceKind, u64)>) -> (r: Result<ResourceBundle, ResourceError>)
        ensures
            match r {
                Ok(b) => (forall|j: int| 0 <= j < assignments@.len() ==> !kind_repeats_earlier(
                    assignments@,
                    j,
                )) && forall|k: ResourceKind| #[trigger] b.quantity_of(k) == assigned_quantity(assignments@, k),
                Err(e) => exists|j: int|
                    0 <= j < assignments@.len() && kind_repeats_earlier(assignments@, j) && (forall|
                        i: int,
                    | 0 <= i < j ==> !kind_repeats_earlier(assignments@, i)) && e
                        == ResourceError::DuplicateResourceKind(#[trigger] assignments@[j].0),
            },
    {
        let mut slots: [Option<u64>; 5] = [None, None, None, None, None];
        let mut i: usize = 0;
        while i < assignments.len()
            invariant
                i <= assignments@.len(),
                forall|j: int| 0 <= j < i ==> !kind_repeats_earlier(assignments@, j),
                forall|k: ResourceKind| #[trigger] slots@[kind_index(k)] == assigned_quantity(assignments@.take(i as int), k),
            decreases assignments@.len() - i,
        {
            let (kind, quantity) = assignments[i];
            let idx = kind.index();
            proof {
                assert(assignments@.take(i + 1).drop_last() =~= assignments@.take(i as int));
                assert(assignments@.take(i + 1).last() == (kind, quantity));
            }
            if slots[idx].is_some() {
                proof {
                    assert(slots@[kind_index(kind)] is Some);
                    lemma_assigned_some(assignments@.take(i as int), kind);
                    let w = choose|w: int| 0 <= w < i && assignments@.take(i as int)[w].0 == kind;
                    assert(assignments@[w].0 == assignments@[i as int].0);
                    assert(kind_repeats_earlier(assignments@, i as int));
                }
                return Err(ResourceError::DuplicateResourceKind(kind));
            }
            proof {
                assert(!kind_repeats_earlier(assignments@, i as int)) by {
                    if kind_repeats_earlier(assignments@, i as int) {
                        let w = choose|w: int| 0 <= w < i && #[trigger] assignments@[w].0 == assignments@[i as int].0;
                        lemma_assigned_none(assignments@.take(i as int), kind, w);
                    }
                }
            }
            slots[idx] = Some(quantity);
            proof {
                assert forall|k: ResourceKind| #[trigger] slots@[kind_index(k)] == assigned_quantity(
                    assignments@.take(i + 1),
                    k,
                ) by {
                    if k != kind {
                        assert(kind_index(k) != kind_index(kind));
                    }
                }
            }
            i = i + 1;
        }
        proof {
            assert(assignments@.take(i as int) =~= assignments@);
        }
        Ok(ResourceBundle { slots })
    }

    /// The quantity assigned to `kind`.
    pub fn quantity(&self, kind: ResourceKind) -> (r: Option<u64>)
        ensures
            r == self.quantity_of(kind),
    {
        self.slots[kind.index()]
    }

    /// Whether no kind has a quantity.
    pub fn is_empty(&self) -> (b: bool)
        ensures
            b == self.spec_is_empty(),
    {
        let b = self.slots[0].is_none() && self.slots[1].is_none() && self.slots[2].is_none()
            && self.slots[3].is_none() && self.slots[4].is_none();
        proof {
            if !b {
                if self.slots@[0] is Some {
                    assert(self.quantity_of(ResourceKind::FlopWork) is Some);
                } else if self.slots@[1] is Some {
                    assert(self.quantity_of(ResourceKind::Bytes) is Some);
                } else if self.slots@[2] is Some {
                    assert(self.quantity_of(ResourceKind::MemoryBytes) is Some);
                } else if self.slots@[3] is Some {
                    assert(self.quantity_of(ResourceKind::BandwidthBytesPerSecond) is Some);
                } else {
                    assert(self.quantity_of(ResourceKind::LatencyNanoseconds) is Some);
                }
            }
        }
        b
    }

    /// The assigned kinds with their quantities, in declaration order.
    pub fn entries(&self) -> (r: Vec<(ResourceKind, u64)>)
        ensures
            forall|i: int, j: int| 0 <= i < j < r@.len() ==> kind_index(r@[i].0) < kind_index(r@[j].0),
            forall|i: int| 0 <= i < r@.len() ==> self.quantity_of(#[trigger] r@[i].0) == Some(r@[i].1),
            forall|k: ResourceKind| #[trigger] self.quantity_of(k) is Some ==> exists|i: int| 0 <= i < r@.len() && r@[i].0 == k,
    {
        let mut r: Vec<(ResourceKind, u64)> = Vec::new();
        let mut i: usize = 0;
        while i < 5
            invariant
                i <= 5,
                forall|a: int, b: int| 0 <= a < b < r@.len() ==> kind_index(r@[a].0) < kind_index(r@[b].0),
                forall|a: int| 0 <= a < r@.len() ==> kind_index(#[trigger] r@[a].0) < i,
                forall|a: int| 0 <= a < r@.len() ==> self.quantity_of(#[trigger] r@[a].0) == Some(r@[a].1),
                forall|k: ResourceKind| kind_index(k) < i && #[trigger] self.quantity_of(k) is Some ==> exists|a: int| 0 <= a < r@.len() && r@[a].0 == k,
            decreases 5 - i,
        {
            let kind = ResourceKind::ALL[i];
            let ghost r_before = r@;
            proof {
                assert(kind_index(kind) == i);
            }
            if let Some(q) = self.slots[i] {
                r.push((kind, q));
                proof {
                    assert(r@[r@.len() - 1].0 == kind);
                }
            }
            proof {
                assert forall|k: ResourceKind| kind_index(k) < i + 1 && #[trigger] self.quantity_of(k) is Some implies exists|a: int| 0 <= a < r@.len() && r@[a].0 == k by {
                    if kind_index(k) == i {
                        assert(k == kind);
                        assert(r@[r@.len() - 1].0 == kind);
                    } else {
                        let a = choose|a: int| 0 <= a < r_before.len() && r_before[a].0 == k;
                        assert(r@[a] == r_before[a]);
                    }
                }
            }
            i = i + 1;
        }
        r
    }
}

proof fn lemma_assigned_some(pairs: Seq<(ResourceKind, u64)>, kind: ResourceKind)
    requires
        assigned_quantity(pairs, kind) is Some,
    ensures
        exists|w: int| 0 <= w < pairs.len() && pairs[w].0 == kind,
    decreases pairs.len(),
{
    if pairs.last().0 == kind {
        assert(pairs[pairs.len() - 1].0 == kind);
    } else {
        lemma_assigned_some(pairs.drop_last(), kind);
        let w = choose|w: int| 0 <= w < pairs.drop_last().len() && pairs.drop_last()[w].0 == kind;
        assert(pairs[w].0 == kind);
    }
}

proof fn lemma_assigned_none(pairs: Seq<(ResourceKind, u64)>, kind: ResourceKind, w: int)
    requires
        0 <= w < pairs.len(),
        pairs[w].0 == kind,
    ensures
        assigned_quantity(pairs, kind) is Some,
    decreases pairs.len(),
{
    if pairs.last().0 != kind {
        assert(w < pairs.len() - 1);
        assert(pairs.drop_last()[w].0 == kind);
        lemma_assigned_none(pairs.drop_last(), kind, w);
    }
}

/// Resources that move along a connection.
#[derive(Clone, Debug, PartialEq, Eq)]
pub struct ResourceFlow {
    pub relation: Address,
    pub source: Address,
    pub destination: Address,
    pub resources: ResourceBundle,
}

/// Resources charged to an element.
#[derive(Clone, Debug, PartialEq, Eq)]
pub struct ResourceCharge {
    pub target: Address,
    pub resources: ResourceBundle,
}

impl ResourceFlow {
    /// A flow needs at least one quantity.
    pub fn new(relation: Address, source: Address, destination: Address, resources: ResourceBundle) -> (r:
        Result<ResourceFlow, ResourceError>)
        ensures
            match r {
                Ok(f) => !resources.spec_is_empty() && f == (ResourceFlow {
                    relation,
                    source,
                    destination,
                    resources,
                }),
                Err(e) => resources.spec_is_empty() && e == (ResourceError::EmptyResourceBundle {
                    context: "flow",
                }),
            },
    {
        if resources.is_empty() {
            return Err(ResourceError::EmptyResourceBundle { context: "flow" });
        }
        Ok(ResourceFlow { relation, source, destination, resources })
    }
}

impl ResourceCharge {
    /// A charge needs at least one quantity.
    pub fn new(target: Address, resources: ResourceBundle) -> (r: Result<ResourceCharge, ResourceError>)
        ensures
            match r {
                Ok(c) => !resources.spec_is_empty() && c == (ResourceCharge { target, resources }),
                Err(e) => resources.spec_is_empty() && e == (ResourceError::EmptyResourceBundle {
                    context: "charge",
                }),
            },
    {
        if resources.is_empty() {
            return Err(ResourceError::EmptyResourceBundle { context: "charge" });
        }
        Ok(ResourceCharge { target, resources })
    }
}

/// A flow must run along a visible connection, between that connection's
/// own ends.
pub open spec fn flow_check(rep: StructuralReprojection, flow: ResourceFlow) -> Result<(), ResourceError> {
    match rep.elements.lookup(flow.relation@) {
        None => Err(ResourceError::UnknownAddress(flow.relation)),
        Some(Element::Connection(c)) => if c.source@ != flow.source@ || c.destination@ != flow.destination@ {
            Err(
                ResourceError::FlowEndpointMismatch {
                    relation: flow.relation,
                    expected_source: c.source,
                    expected_destination: c.destination,
                    actual_source: flow.source,
                    actual_destination: flow.destination,
                },
            )
        } else {
            Ok(())
        },
        Some(_) => Err(ResourceError::FlowRelationNotConnection(flow.relation)),
    }
}

/// Checks that a flow runs along a visible connection, between its ends.
pub fn validate_flow(reprojection: &StructuralReprojection, flow: &ResourceFlow) -> (r: Result<(), ResourceError>)
    ensures
        r == flow_check(*reprojection, *flow),
{
    let element = match reprojection.elements.get(&flow.relation) {
        Some(e) => e,
        None => {
            return Err(ResourceError::UnknownAddress(flow.relation.clone()));
        },
    };
    let connection = match element {
        Element::Connection(c) => c,
        _ => {
            return Err(ResourceError::FlowRelationNotConnection(flow.relation.clone()));
        },
    };
    if !connection.source.same(&flow.source) || !connection.destination.same(&flow.destination) {
        return Err(
            ResourceError::FlowEndpointMismatch {
                relation: flow.relation.clone(),
                expected_source: connection.source.clone(),
                expected_destination: connection.destination.clone(),
                actual_source: flow.source.clone(),
                actual_destination: flow.destination.clone(),
            },
        );
    }
    Ok(())
}

/// The message of a resource error.
pub open spec fn resource_error_text(e: ResourceError) -> Seq<char> {
    match e {
        ResourceError::EmptyResourceModel => "resource model has no scenarios"@,
        ResourceError::EmptyScenarioName => "resource scenario name is empty"@,
        ResourceError::EmptyScenarioAssumption(name) => "resource scenario `"@ + name@ + "` has no assumption"@,
        ResourceError::DuplicateScenario(name) => "resource scenario `"@ + name@
            + "` is declared more than once"@,
        ResourceError::DuplicateResourceKind(kind) => "resource bundle repeats `"@ + kind_name(kind) + "`"@,
        ResourceError::EmptyResourceBundle { context } => "resource "@ + context@ + " has no quantities"@,
        ResourceError::UnknownAddress(a) => "resource address `"@ + a@ + "` is not visible"@,
        ResourceError::FlowRelationNotConnection(a) => "resource flow relation `"@ + a@
            + "` is not a connection"@,
        ResourceError::FlowEndpointMismatch {
            relation,
            expected_source,
            expected_destination,
            actual_source,
            actual_destination,
        } => "resource flow `"@ + relation@ + "` expects `"@ + expected_source@ + " -> "@
            + expected_destination@ + "`, got `"@ + actual_source@ + " -> "@ + actual_destination@ + "`"@,
        ResourceError::ArithmeticOverflow { kind } => "resource estimate for `"@ + kind_name(kind)
            + "` overflowed"@,
    }
}

impl ResourceError {
    /// The error's message.
    pub fn to_string(&self) -> (s: String)
        ensures
            s@ == resource_error_text(*self),
    {
        match self {
            ResourceError::EmptyResourceModel => owned("resource model has no scenarios"),
            ResourceError::EmptyScenarioName => owned("resource scenario name is empty"),
            ResourceError::EmptyScenarioAssumption(name) => located_at(
                "resource scenario `",
                name.as_str(),
                "` has no assumption",
            ),
            ResourceError::DuplicateScenario(name) => located_at(
                "resource scenario `",
                name.as_str(),
                "` is declared more than once",
            ),
            ResourceError::DuplicateResourceKind(kind) => located_at("resource bundle repeats `", kind.as_str(), "`"),
            ResourceError::EmptyResourceBundle { context } => located_at("resource ", context, " has no quantities"),
            ResourceError::UnknownAddress(a) => located_at("resource address `", a.as_str(), "` is not visible"),
            ResourceError::FlowRelationNotConnection(a) => located_at(
                "resource flow relation `",
                a.as_str(),
                "` is not a connection",
            ),
            ResourceError::FlowEndpointMismatch {
                relation,
                expected_source,
                expected_destination,
                actual_source,
                actual_destination,
            } => {
                let mut s = located_at("resource flow `", relation.as_str(), "` expects `");
                push_str(&mut s, expected_source.as_str());
                push_str(&mut s, " -> ");
                push_str(&mut s, expected_destination.as_str());
                push_str(&mut s, "`, got `");
                push_str(&mut s, actual_source.as_str());
                push_str(&mut s, " -> ");
                push_str(&mut s, actual_destination.as_str());
                push_str(&mut s, "`");
                s
            },
            ResourceError::ArithmeticOverflow { kind } => located_at(
                "resource estimate for `",
                kind.as_str(),
                "` overflowed",
            ),
        }
    }
}

/// A flow is accepted exactly when its relation is a visible connection
/// running from the flow's source to the flow's destination.
pub proof fn law_flow_accepted_iff_endpoints_match(rep: StructuralReprojection, flow: ResourceFlow)
    ensures
        flow_check(rep, flow) is Ok <==> exists|c: crate::model::Connection|
            rep.elements.lookup(flow.relation@) == Some(Element::Connection(c)) && c.source@ == flow.source@
                && c.destination@ == flow.destination@,
{
    if let Some(Element::Connection(c)) = rep.elements.lookup(flow.relation@) {
        if c.source@ == flow.source@ && c.destination@ == flow.destination@ {
            assert(rep.elements.lookup(flow.relation@) == Some(Element::Connection(c)));
        }
    }
}

/// A flow along a visible connection whose ends differ from the flow's is
/// refused with both pairs of ends: the connection's and the flow's.
pub proof fn law_flow_endpoint_mismatch(rep: StructuralReprojection, flow: ResourceFlow, c: crate::model::Connection)
    requires
        rep.elements.lookup(flow.relation@) == Some(Element::Connection(c)),
        c.source@ != flow.source@ || c.destination@ != flow.destination@,
    ensures
        flow_check(rep, flow) == Err::<(), ResourceError>(
            ResourceError::FlowEndpointMismatch {
                relation: flow.relation,
                expected_source: c.source,
                expected_destination: c.destination,
                actual_source: flow.source,
                actual_destination: flow.destination,
            },
        ),
{
}

/// A flow whose relation is not visible is refused as unknown; one whose
/// relation is visible but not a connection is refused as such.
pub proof fn law_flow_relation_must_be_a_connection(rep: StructuralReprojection, flow: ResourceFlow)
    ensures
        rep.elements.lookup(flow.relation@) is None ==> flow_check(rep, flow) == Err::<(), ResourceError>(
            ResourceError::UnknownAddress(flow.relation),
        ),
        (rep.elements.lookup(flow.relation@) matches Some(e) && !(e is Connection)) ==> flow_check(rep, flow) == Err::<
            (),
            ResourceError,
        >(ResourceError::FlowRelationNotConnection(flow.relation)),
{
}

} // verus!

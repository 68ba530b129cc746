//! Symbolic costs: expressions over named axes, assigned to addresses.
use vstd::prelude::*;

use crate::address::Address;
use crate::evaluate::{Element, StructuralReprojection};
use crate::map::{last_value_for, MapKey, OrderedMap};
use crate::text::{owned, push_str};
use crate::validate::located_at;

verus! {

/// A cost expression over unsigned integers and named axes.
#[derive(Debug, PartialEq, Eq)]
pub enum CostExpression {
    Constant(u64),
    Axis(Address),
    Sum(Vec<CostExpression>),
    Product(Vec<CostExpression>),
}

/// Why a cost could not be computed.
#[derive(Debug, PartialEq, Eq)]
pub enum CostError {
    DuplicateCost(Address),
    MissingAxis(Address),
    InvalidAxisExtent(Address),
    ExpressionOverflow,
    UnknownElement(Address),
    NotAGroup(Address),
    MissingCost(Address),
    CyclicGroup(Address),
    DuplicateGroupMember { group: Address, member: Address },
    TotalOverflow,
}

/// The message of a cost error.
pub open spec fn cost_error_text(e: CostError) -> Seq<char> {
    match e {
        CostError::DuplicateCost(a) => "cost for `"@ + a@ + "` is declared more than once"@,
        CostError::MissingAxis(a) => "cost axis `"@ + a@ + "` has no extent"@,
        CostError::InvalidAxisExtent(a) => "cost axis `"@ + a@ + "` has a non-positive extent"@,
        CostError::ExpressionOverflow => "cost expression overflowed"@,
        CostError::UnknownElement(a) => "cost address `"@ + a@ + "` is not visible"@,
        CostError::NotAGroup(a) => "cost target `"@ + a@ + "` is not a group"@,
        CostError::MissingCost(a) => "no cost is assigned to `"@ + a@ + "`"@,
        CostError::CyclicGroup(a) => "cost group `"@ + a@ + "` is cyclic"@,
        CostError::DuplicateGroupMember { group, member } => "cost group `"@ + group@
            + "` repeats member `"@ + member@ + "`"@,
        CostError::TotalOverflow => "cost group total overflowed"@,
    }
}

impl CostError {
    /// The error's message.
    pub fn to_string(&self) -> (s: String)
        ensures
            s@ == cost_error_text(*self),
    {
        match self {
            CostError::DuplicateCost(a) => located_at("cost for `", a.as_str(), "` is declared more than once"),
            CostError::MissingAxis(a) => located_at("cost axis `", a.as_str(), "` has no extent"),
            CostError::InvalidAxisExtent(a) => located_at("cost axis `", a.as_str(), "` has a non-positive extent"),
            CostError::ExpressionOverflow => owned("cost expression overflowed"),
            CostError::UnknownElement(a) => located_at("cost address `", a.as_str(), "` is not visible"),
            CostError::NotAGroup(a) => located_at("cost target `", a.as_str(), "` is not a group"),
            CostError::MissingCost(a) => located_at("no cost is assigned to `", a.as_str(), "`"),
            CostError::CyclicGroup(a) => located_at("cost group `", a.as_str(), "` is cyclic"),
            CostError::DuplicateGroupMember { group, member } => {
                let mut s = located_at("cost group `", group.as_str(), "` repeats member `");
                push_str(&mut s, member.as_str());
                push_str(&mut s, "`");
                s
            },
            CostError::TotalOverflow => owned("cost group total overflowed"),
        }
    }
}

/// The value of an expression: constants stand for themselves, an axis for
/// its positive extent, a sum adds its terms and a product multiplies its
/// factors left to right; the first failing subexpression decides the error.
pub open spec fn cost_value(e: CostExpression, axes: OrderedMap<Address, u64>) -> Result<u64, CostError>
    decreases e, 1int,
{
    match e {
        CostExpression::Constant(v) => Ok(v),
        CostExpression::Axis(a) => match axes.lookup(a@) {
            None => Err(CostError::MissingAxis(a)),
            Some(v) => if v == 0 {
                Err(CostError::InvalidAxisExtent(a))
            } else {
                Ok(v)
            },
        },
        CostExpression::Sum(terms) => fold_terms(terms@, axes, 0, true),
        CostExpression::Product(factors) => fold_terms(factors@, axes, 1, false),
    }
}

/// Adds (or multiplies) the values of `terms` into `acc`, left to right;
/// a value that does not fit in a `u64` is `ExpressionOverflow`.
pub open spec fn fold_terms(
    terms: Seq<CostExpression>,
    axes: OrderedMap<Address, u64>,
    acc: u64,
    adding: bool,
) -> Result<u64, CostError>
    decreases terms, 0int,
{
    if terms.len() == 0 {
        Ok(acc)
    } else {
        match cost_value(terms[0], axes) {
            Err(e) => Err(e),
            Ok(v) => {
                let next: int = if adding {
                    acc + v
                } else {
                    acc * v
                };
                if next > u64::MAX {
                    Err(CostError::ExpressionOverflow)
                } else {
                    fold_terms(terms.drop_first(), axes, next as u64, adding)
                }
            },
        }
    }
}

impl Clone for CostError {
    fn clone(&self) -> (r: Self)
        ensures
            r == *self,
    {
        match self {
            CostError::DuplicateCost(a) => CostError::DuplicateCost(a.clone()),
            CostError::MissingAxis(a) => CostError::MissingAxis(a.clone()),
            CostError::InvalidAxisExtent(a) => CostError::InvalidAxisExtent(a.clone()),
            CostError::ExpressionOverflow => CostError::ExpressionOverflow,
            CostError::UnknownElement(a) => CostError::UnknownElement(a.clone()),
            CostError::NotAGroup(a) => CostError::NotAGroup(a.clone()),
            CostError::MissingCost(a) => CostError::MissingCost(a.clone()),
            CostError::CyclicGroup(a) => CostError::CyclicGroup(a.clone()),
            CostError::DuplicateGroupMember { group, member } => CostError::DuplicateGroupMember {
                group: group.clone(),
                member: member.clone(),
            },
            CostError::TotalOverflow => CostError::TotalOverflow,
        }
    }
}

impl CostExpression {
    pub fn constant(value: u64) -> (e: Self)
        ensures
            e == CostExpression::Constant(value),
    {
        CostExpression::Constant(value)
    }

    pub fn axis(address: Address) -> (e: Self)
        ensures
            e == CostExpression::Axis(address),
    {
        CostExpression::Axis(address)
    }

    pub fn sum(terms: Vec<CostExpression>) -> (e: Self)
        ensures
            e == CostExpression::Sum(terms),
    {
        CostExpression::Sum(terms)
    }

    pub fn product(factors: Vec<CostExpression>) -> (e: Self)
        ensures
            e == CostExpression::Product(factors),
    {
        CostExpression::Product(factors)
    }

    /// Evaluates the expression against explicit axis extents.
    pub fn evaluate(&self, axes: &OrderedMap<Address, u64>) -> (r: Result<u64, CostError>)
        ensures
            r == cost_value(*self, *axes),
        decreases self,
    {
        match self {
            CostExpression::Constant(value) => Ok(*value),
            CostExpression::Axis(address) => match axes.get(address) {
                None => Err(CostError::MissingAxis(address.clone())),
                Some(value) => {
                    if *value == 0 {
                        Err(CostError::InvalidAxisExtent(address.clone()))
                    } else {
                        Ok(*value)
                    }
                },
            },
            CostExpression::Sum(terms) => evaluate_terms(terms, axes, true),
            CostExpression::Product(factors) => evaluate_terms(factors, axes, false),
        }
    }
}

fn evaluate_terms(terms: &Vec<CostExpression>, axes: &OrderedMap<Address, u64>, adding: bool) -> (r:
    Result<u64, CostError>)
    ensures
        r == fold_terms(terms@, *axes, if adding { 0 } else { 1 }, adding),
    decreases terms, 0int,
{
    let mut total: u64 = if adding {
        0
    } else {
        1
    };
    let mut i: usize = 0;
    proof {
        assert(terms@.skip(0) =~= terms@);
    }
    while i < terms.len()
        invariant
            i <= terms@.len(),
            fold_terms(terms@, *axes, if adding { 0 } else { 1 }, adding) == fold_terms(
                terms@.skip(i as int),
                *axes,
                total,
                adding,
            ),
        decreases terms@.len() - i,
    {
        let ghost rest = terms@.skip(i as int);
        proof {
            assert(rest[0] == terms@[i as int]);
            assert(rest.drop_first() =~= terms@.skip(i + 1));
        }
        let v = match terms[i].evaluate(axes) {
            Ok(v) => v,
            Err(e) => {
                return Err(e);
            },
        };
        let next = if adding {
            total.checked_add(v)
        } else {
            total.checked_mul(v)
        };
        match next {
            Some(n) => {
                total = n;
            },
            None => {
                return Err(CostError::ExpressionOverflow);
            },
        }
        i = i + 1;
    }
    total_ok(total)
}

fn total_ok(total: u64) -> (r: Result<u64, CostError>)
    ensures
        r == Ok::<u64, CostError>(total),
{
    Ok(total)
}

/// The key of the `j`th pair occurs among the earlier pairs.
pub open spec fn repeats_earlier<V>(pairs: Seq<(Address, V)>, j: int) -> bool {
    exists|i: int| 0 <= i < j && #[trigger] pairs[i].0@ == pairs[j].0@
}

/// The position of the first pair whose key repeats an earlier one.
pub open spec fn is_first_repeat<V>(pairs: Seq<(Address, V)>, j: int) -> bool {
    &&& 0 <= j < pairs.len()
    &&& repeats_earlier(pairs, j)
    &&& forall|k: int| 0 <= k < j ==> !repeats_earlier(pairs, k)
}

/// No key occurs twice.
pub open spec fn keys_distinct<V>(pairs: Seq<(Address, V)>) -> bool {
    forall|j: int| 0 <= j < pairs.len() ==> !repeats_earlier(pairs, j)
}

/// Expressions assigned to addresses, at most one per address.
#[derive(Debug, PartialEq, Eq)]
pub struct CostModel {
    expressions: OrderedMap<Address, CostExpression>,
}

/// The value of each costed address.
#[derive(Debug, PartialEq, Eq)]
pub struct CostReport {
    values: OrderedMap<Address, u64>,
}

impl CostModel {
    /// The assigned expressions.
    pub closed spec fn expressions(&self) -> OrderedMap<Address, CostExpression> {
        self.expressions
    }

    /// Builds a model; an address assigned twice is `DuplicateCost`, reported
    /// at its first repetition.
    pub fn new(assignments: Vec<(Address, CostExpression)>) -> (r: Result<CostModel, CostError>)
        ensures
            match r {
                Ok(m) => keys_distinct(assignments@) && forall|q: Seq<char>|
                    #[trigger] m.expressions().lookup(q) == last_value_for(assignments@, q),
                Err(e) => exists|j: int|
                    is_first_repeat(assignments@, j) && e == CostError::DuplicateCost(
                        #[trigger] assignments@[j].0,
                    ),
            },
    {
        let mut expressions: OrderedMap<Address, CostExpression> = OrderedMap::new();
        let mut rest = assignments;
        let ghost all = rest@;
        let mut taken: Vec<(Address, CostExpression)> = Vec::new();
        while rest.len() > 0
            invariant
                all == rest@ + taken@.reverse(),
            decreases rest@.len(),
        {
            let p = rest.pop().unwrap();
            taken.push(p);
            proof {
                assert(all =~= rest@ + taken@.reverse());
            }
        }
        let ghost n = taken@.len();
        proof {
            assert(all =~= taken@.reverse());
            assert forall|q: Seq<char>| #[trigger] expressions.lookup(q) == last_value_for(all.take(0), q) by {
                assert(all.take(0) =~= Seq::<(Address, CostExpression)>::empty());
            }
        }
        while taken.len() > 0
            invariant
                forall|i: int| 0 <= i < taken@.len() ==> #[trigger] taken@[i] == all[n - 1 - i],
                taken@.len() <= n,
                n == all.len(),
                all == assignments@,
                keys_distinct(all.take(n - taken@.len())),
                forall|q: Seq<char>| #[trigger] expressions.contains(q) <==> exists|i: int| 0 <= i < n - taken@.len() && #[trigger] all[i].0@ == q,
                forall|q: Seq<char>|
                    #[trigger] expressions.lookup(q) == last_value_for(all.take(n - taken@.len()), q),
            decreases taken@.len(),
        {
            let ghost done = n - taken@.len();
            let (address, expression) = taken.pop().unwrap();
            proof {
                assert(all[done] == (address, expression));
                assert(all.take(done + 1).drop_last() =~= all.take(done));
                assert(all.take(done + 1).last() == (address, expression));
            }
            let key = address.clone();
            if !expressions.insert_new(key, expression) {
                proof {
                    let i = choose|i: int| 0 <= i < done && #[trigger] all[i].0@ == address@;
                    assert(repeats_earlier(all, done));
                    assert forall|k: int| 0 <= k < done implies !repeats_earlier(all, k) by {
                        assert(!repeats_earlier(all.take(done), k));
                        if repeats_earlier(all, k) {
                            let i2 = choose|i2: int| 0 <= i2 < k && #[trigger] all[i2].0@ == all[k].0@;
                            assert(all.take(done)[i2].0@ == all.take(done)[k].0@);
                        }
                    }
                    assert(is_first_repeat(all, done));
                    assert(assignments@[done].0 == address);
                }
                return Err(CostError::DuplicateCost(address));
            }
            proof {
                assert forall|j: int| 0 <= j < done + 1 implies !#[trigger] repeats_earlier(all.take(done + 1), j) by {
                    if j < done {
                        assert(!repeats_earlier(all.take(done), j));
                        if repeats_earlier(all.take(done + 1), j) {
                            let i2 = choose|i2: int| 0 <= i2 < j && #[trigger] all.take(done + 1)[i2].0@ == all.take(done + 1)[j].0@;
                            assert(all.take(done)[i2].0@ == all.take(done)[j].0@);
                        }
                    } else {
                        if repeats_earlier(all.take(done + 1), j) {
                            let i2 = choose|i2: int| 0 <= i2 < j && #[trigger] all.take(done + 1)[i2].0@ == all.take(done + 1)[j].0@;
                            assert(all[i2].0@ == address@);
                        }
                    }
                }
                assert forall|q: Seq<char>| #[trigger] expressions.contains(q) <==> exists|i: int| 0 <= i < done + 1 && #[trigger] all[i].0@ == q by {
                    if q == address@ {
                        assert(all[done].0@ == q);
                    }
                }
            }
        }
        proof {
            assert(all.take(n as int) =~= all);
        }
        Ok(CostModel { expressions })
    }

    /// The expression assigned to `address`.
    pub fn expression(&self, address: &Address) -> (r: Option<&CostExpression>)
        ensures
            match r {
                Some(e) => self.expressions().lookup(address@) == Some(*e),
                None => self.expressions().lookup(address@) is None,
            },
    {
        self.expressions.get(address)
    }
}

/// The outcome of costing the entries in order: the first address the
/// structure does not hold is `UnknownElement`, the first expression that
/// fails gives its error.
pub open spec fn model_outcome(
    entries: Seq<(Address, CostExpression)>,
    r: StructuralReprojection,
    axes: OrderedMap<Address, u64>,
) -> Result<(), CostError>
    decreases entries.len(),
{
    if entries.len() == 0 {
        Ok(())
    } else {
        match model_outcome(entries.drop_last(), r, axes) {
            Err(e) => Err(e),
            Ok(()) => if !r.holds(entries.last().0@) {
                Err(CostError::UnknownElement(entries.last().0))
            } else {
                match cost_value(entries.last().1, axes) {
                    Err(e) => Err(e),
                    Ok(_) => Ok(()),
                }
            },
        }
    }
}

/// Once an outcome fails, longer lists fail the same way.
proof fn lemma_outcome_extends(
    entries: Seq<(Address, CostExpression)>,
    r: StructuralReprojection,
    axes: OrderedMap<Address, u64>,
    k: int,
)
    requires
        0 <= k <= entries.len(),
        model_outcome(entries.take(k), r, axes) is Err,
    ensures
        model_outcome(entries, r, axes) == model_outcome(entries.take(k), r, axes),
    decreases entries.len(),
{
    if k < entries.len() {
        assert(entries.drop_last().take(k) =~= entries.take(k));
        lemma_outcome_extends(entries.drop_last(), r, axes, k);
    } else {
        assert(entries.take(k) =~= entries);
    }
}

impl CostModel {
    /// Costs every assigned address the structure holds, with explicit axis
    /// extents.
    pub fn evaluate(&self, reprojection: &StructuralReprojection, axes: &OrderedMap<Address, u64>) -> (r: Result<
        CostReport,
        CostError,
    >)
        ensures
            match r {
                Ok(report) => model_outcome(self.expressions().entries(), *reprojection, *axes) is Ok && forall|q: Seq<char>|
                    #[trigger] report.values().lookup(q) == match self.expressions().lookup(q) {
                        Some(e) => Some(cost_value(e, *axes)->Ok_0),
                        None => None,
                    },
                Err(e) => model_outcome(self.expressions().entries(), *reprojection, *axes) == Err::<(), CostError>(e),
            },
    {
        let entries = &self.expressions;
        let mut values: OrderedMap<Address, u64> = OrderedMap::new();
        let mut i: usize = 0;
        while i < entries.len()
            invariant
                *entries == self.expressions,
                i <= entries.entries().len(),
                model_outcome(entries.entries().take(i as int), *reprojection, *axes) is Ok,
                forall|q: Seq<char>| #[trigger] values.lookup(q) == if entries.keys().take(i as int).contains(q) {
                    Some(cost_value(entries.lookup(q)->0, *axes)->Ok_0)
                } else {
                    None::<u64>
                },
            decreases entries.entries().len() - i,
        {
            let address = entries.key_at(i);
            let expression = entries.value_at(i);
            proof {
                let t = entries.entries().take(i + 1);
                assert(t.drop_last() =~= entries.entries().take(i as int));
                assert(t.last() == entries.entries()[i as int]);
                entries.lemma_index_of(i as int);
                assert(entries.keys()[i as int] == address@);
            }
            if !reprojection.elements.contains_key(address) {
                let e = CostError::UnknownElement(address.clone());
                proof {
                    lemma_outcome_extends(entries.entries(), *reprojection, *axes, i + 1);
                }
                return Err(e);
            }
            let value = match expression.evaluate(axes) {
                Ok(v) => v,
                Err(e) => {
                    proof {
                        lemma_outcome_extends(entries.entries(), *reprojection, *axes, i + 1);
                    }
                    return Err(e);
                },
            };
            let ghost before = values;
            values.insert(address.clone(), value);
            proof {
                let kt = entries.keys().take(i + 1);
                assert(kt =~= entries.keys().take(i as int).push(address@));
                assert forall|q: Seq<char>| #[trigger] values.lookup(q) == if kt.contains(q) {
                    Some(cost_value(entries.lookup(q)->0, *axes)->Ok_0)
                } else {
                    None::<u64>
                } by {
                    if q != address@ {
                        if kt.contains(q) {
                            let x = choose|x: int| 0 <= x < kt.len() && kt[x] == q;
                            assert(entries.keys().take(i as int)[x] == q);
                        }
                        if entries.keys().take(i as int).contains(q) {
                            let x = choose|x: int| 0 <= x < i && entries.keys().take(i as int)[x] == q;
                            assert(kt[x] == q);
                        }
                    } else {
                        assert(kt[i as int] == q);
                    }
                }
            }
            i = i + 1;
        }
        proof {
            assert(entries.entries().take(i as int) =~= entries.entries());
            assert(entries.keys().take(i as int) =~= entries.keys());
        }
        Ok(CostReport { values })
    }
}

/// The members of the group at `a`, if the structure holds a group there.
pub open spec fn group_members(r: StructuralReprojection, a: Seq<char>) -> Option<Seq<Address>> {
    match r.elements.lookup(a) {
        Some(Element::Group(g)) => Some(g.members@),
        _ => None,
    }
}

/// The addresses of a list of addresses.
pub open spec fn address_texts(v: Seq<Address>) -> Seq<Seq<char>> {
    v.map_values(|x: Address| x@)
}

/// The cost of the element at `a` reached through the groups in
/// `visiting`, or the first failure: a group already being summed is
/// `CyclicGroup`, and so is a group past `fuel` levels of nesting; a group
/// costs the sum of its members' costs; any other element costs its
/// reported value, or is `MissingCost`.
pub open spec fn cost_result(
    report: CostReport,
    r: StructuralReprojection,
    a: Address,
    visiting: Seq<Seq<char>>,
    fuel: nat,
) -> Result<nat, CostError>
    decreases fuel, 0int,
{
    if visiting.contains(a@) {
        Err(CostError::CyclicGroup(a))
    } else {
        match group_members(r, a@) {
            Some(members) => if fuel == 0 {
                Err(CostError::CyclicGroup(a))
            } else {
                members_result(report, r, a, members, visiting.push(a@), (fuel - 1) as nat)
            },
            None => match report.values().lookup(a@) {
                Some(v) => Ok(v as nat),
                None => Err(CostError::MissingCost(a)),
            },
        }
    }
}

/// The sum of the members' costs, member by member in order, or the first
/// failure: a member listed again is `DuplicateGroupMember`, a member the
/// structure does not hold is `UnknownElement`, a member's own failure
/// stands, and a sum past `u64` is `TotalOverflow`.
pub open spec fn members_result(
    report: CostReport,
    r: StructuralReprojection,
    group: Address,
    members: Seq<Address>,
    visiting: Seq<Seq<char>>,
    fuel: nat,
) -> Result<nat, CostError>
    decreases fuel, members.len(),
{
    if members.len() == 0 {
        Ok(0)
    } else {
        match members_result(report, r, group, members.drop_last(), visiting, fuel) {
            Err(e) => Err(e),
            Ok(x) => {
                let m = members.last();
                if address_texts(members.drop_last()).contains(m@) {
                    Err(CostError::DuplicateGroupMember { group, member: m })
                } else if !r.holds(m@) {
                    Err(CostError::UnknownElement(m))
                } else {
                    match cost_result(report, r, m, visiting, fuel) {
                        Err(e) => Err(e),
                        Ok(y) => if x + y > u64::MAX {
                            Err(CostError::TotalOverflow)
                        } else {
                            Ok(x + y)
                        },
                    }
                }
            },
        }
    }
}

/// A failure over a prefix of the members is the failure over all of them.
proof fn lemma_members_prefix(
    report: CostReport,
    r: StructuralReprojection,
    group: Address,
    members: Seq<Address>,
    visiting: Seq<Seq<char>>,
    fuel: nat,
    k: int,
)
    requires
        0 <= k <= members.len(),
        members_result(report, r, group, members.take(k), visiting, fuel) is Err,
    ensures
        members_result(report, r, group, members, visiting, fuel) == members_result(
            report,
            r,
            group,
            members.take(k),
            visiting,
            fuel,
        ),
    decreases members.len() - k,
{
    if k < members.len() {
        assert(members.drop_last().take(k) =~= members.take(k));
        lemma_members_prefix(report, r, group, members.drop_last(), visiting, fuel, k);
    } else {
        assert(members.take(k) =~= members);
    }
}

impl CostReport {
    /// The total cost of a group: the sum of its members' costs, where a
    /// member group counts the sum of its own members. A member listed
    /// twice, a member the structure does not hold, a group nested in
    /// itself, a member without a cost, and a total past `u64` fail.
    pub fn group_total(&self, reprojection: &StructuralReprojection, group_address: &Address) -> (r: Result<u64, CostError>)
        ensures
            group_members(*reprojection, group_address@) is None ==> r == Err::<u64, CostError>(CostError::NotAGroup(*group_address)),
            group_members(*reprojection, group_address@) is Some ==> r == match cost_result(
                *self,
                *reprojection,
                *group_address,
                Seq::empty(),
                reprojection.elements.entries().len() as nat,
            ) {
                Ok(t) => Ok::<u64, CostError>(t as u64),
                Err(e) => Err(e),
            },
    {
        match reprojection.elements.get(group_address) {
            Some(Element::Group(_)) => {},
            _ => {
                return Err(CostError::NotAGroup(group_address.clone()));
            },
        }
        let mut visiting: Vec<Address> = Vec::new();
        proof {
            assert(address_texts(visiting@) =~= Seq::<Seq<char>>::empty());
        }
        self.accumulate_group(reprojection, group_address, &mut visiting, reprojection.elements.len())
    }

    fn accumulate_group(
        &self,
        reprojection: &StructuralReprojection,
        address: &Address,
        visiting: &mut Vec<Address>,
        fuel: usize,
    ) -> (r: Result<u64, CostError>)
        ensures
            match cost_result(*self, *reprojection, *address, address_texts(old(visiting)@), fuel as nat) {
                Ok(t) => t <= u64::MAX && r == Ok::<u64, CostError>(t as u64),
                Err(e) => r == Err::<u64, CostError>(e),
            },
            r is Ok ==> address_texts(final(visiting)@) == address_texts(old(visiting)@),
        decreases fuel,
    {
        let ghost outer = address_texts(visiting@);
        let mut i: usize = 0;
        while i < visiting.len()
            invariant
                i <= visiting@.len(),
                outer == address_texts(visiting@),
                forall|j: int| 0 <= j < i ==> visiting@[j]@ != address@,
            decreases visiting@.len() - i,
        {
            if visiting[i].same(address) {
                proof {
                    assert(outer[i as int] == address@);
                }
                return Err(CostError::CyclicGroup(address.clone()));
            }
            i = i + 1;
        }
        proof {
            if outer.contains(address@) {
                let j = choose|j: int| 0 <= j < outer.len() && outer[j] == address@;
                assert(visiting@[j]@ == address@);
            }
        }
        visiting.push(address.clone());
        let ghost inner = address_texts(visiting@);
        proof {
            assert(inner =~= outer.push(address@));
        }
        let group = match reprojection.elements.get(address) {
            Some(Element::Group(group)) => group,
            _ => {
                let ghost vp = visiting@;
                visiting.pop();
                proof {
                    assert(visiting@ =~= vp.drop_last());
                    assert(address_texts(visiting@) =~= outer);
                }
                return match self.values.get(address) {
                    Some(v) => Ok(*v),
                    None => Err(CostError::MissingCost(address.clone())),
                };
            },
        };
        if fuel == 0 {
            return Err(CostError::CyclicGroup(address.clone()));
        }
        let ghost members = group.members@;
        let ghost sub = (fuel - 1) as nat;
        let mut seen: Vec<Address> = Vec::new();
        let mut total: u64 = 0;
        let mut m: usize = 0;
        proof {
            assert(cost_result(*self, *reprojection, *address, outer, fuel as nat) == members_result(
                *self,
                *reprojection,
                *address,
                members,
                inner,
                sub,
            ));
            assert(members.take(0) =~= Seq::<Address>::empty());
            assert(address_texts(seen@) =~= address_texts(members.take(0)));
        }
        while m < group.members.len()
            invariant
                fuel > 0,
                sub == fuel - 1,
                members == group.members@,
                group_members(*reprojection, address@) == Some(members),
                !outer.contains(address@),
                inner == outer.push(address@),
                outer == address_texts(old(visiting)@),
                cost_result(*self, *reprojection, *address, outer, fuel as nat) == members_result(
                    *self,
                    *reprojection,
                    *address,
                    members,
                    inner,
                    sub,
                ),
                m <= members.len(),
                address_texts(seen@) == address_texts(members.take(m as int)),
                address_texts(visiting@) == inner,
                members_result(*self, *reprojection, *address, members.take(m as int), inner, sub) == Ok::<nat, CostError>(
                    total as nat,
                ),
            decreases members.len() - m,
        {
            let member = &group.members[m];
            let t = Ghost(members.take(m + 1));
            proof {
                assert(t@.drop_last() =~= members.take(m as int));
                assert(t@.last() == *member);
            }
            let mut k: usize = 0;
            let mut repeated = false;
            while k < seen.len()
                invariant
                    k <= seen@.len(),
                    !repeated ==> forall|x: int| 0 <= x < k ==> seen@[x]@ != member@,
                    repeated ==> address_texts(seen@).contains(member@),
                decreases seen@.len() - k,
            {
                if seen[k].same(member) {
                    proof {
                        assert(address_texts(seen@)[k as int] == member@);
                    }
                    repeated = true;
                }
                k = k + 1;
            }
            proof {
                if !repeated && address_texts(seen@).contains(member@) {
                    let x = choose|x: int| 0 <= x < address_texts(seen@).len() && address_texts(seen@)[x] == member@;
                    assert(seen@[x]@ == member@);
                }
            }
            if repeated {
                proof {
                    lemma_members_prefix(*self, *reprojection, *address, members, inner, sub, m + 1);
                }
                visiting.pop();
                return Err(CostError::DuplicateGroupMember { group: address.clone(), member: member.clone() });
            }
            let ghost seen_before = seen@;
            seen.push(member.clone());
            proof {
                assert(address_texts(seen@) =~= address_texts(seen_before).push(member@));
                assert(address_texts(t@) =~= address_texts(members.take(m as int)).push(member@));
            }
            if !reprojection.elements.contains_key(member) {
                proof {
                    lemma_members_prefix(*self, *reprojection, *address, members, inner, sub, m + 1);
                }
                visiting.pop();
                return Err(CostError::UnknownElement(member.clone()));
            }
            let value = match self.accumulate_group(reprojection, member, visiting, fuel - 1) {
                Ok(v) => v,
                Err(e) => {
                    proof {
                        lemma_members_prefix(*self, *reprojection, *address, members, inner, sub, m + 1);
                    }
                    return Err(e);
                },
            };
            total = match total.checked_add(value) {
                Some(t) => t,
                None => {
                    proof {
                        lemma_members_prefix(*self, *reprojection, *address, members, inner, sub, m + 1);
                    }
                    visiting.pop();
                    return Err(CostError::TotalOverflow);
                },
            };
            m = m + 1;
        }
        proof {
            assert(members.take(m as int) =~= members);
        }
        let ghost vp = visiting@;
        visiting.pop();
        proof {
            assert(visiting@ =~= vp.drop_last());
            assert(address_texts(visiting@) =~= inner.drop_last());
            assert(inner.drop_last() =~= outer);
        }
        Ok(total)
    }

    pub closed spec fn values(&self) -> OrderedMap<Address, u64> {
        self.values
    }

    /// The value computed for `address`.
    pub fn value(&self, address: &Address) -> (r: Option<u64>)
        ensures
            r == self.values().lookup(address@),
    {
        match self.values.get(address) {
            Some(v) => Some(*v),
            None => None,
        }
    }
}

/// The arithmetic sum of a sequence of numbers.
pub open spec fn seq_sum(s: Seq<u64>) -> int
    decreases s.len(),
{
    if s.len() == 0 {
        0
    } else {
        s[0] + seq_sum(s.drop_first())
    }
}

/// The arithmetic product of a sequence of numbers.
pub open spec fn seq_product(s: Seq<u64>) -> int
    decreases s.len(),
{
    if s.len() == 0 {
        1
    } else {
        s[0] * seq_product(s.drop_first())
    }
}

/// Each expression evaluates to the number at its position.
pub open spec fn evaluates_to(terms: Seq<CostExpression>, axes: OrderedMap<Address, u64>, values: Seq<u64>) -> bool {
    &&& terms.len() == values.len()
    &&& forall|i: int| 0 <= i < terms.len() ==> #[trigger] cost_value(terms[i], axes) == Ok::<u64, CostError>(values[i])
}

proof fn lemma_seq_sum_nonnegative(s: Seq<u64>)
    ensures
        seq_sum(s) >= 0,
    decreases s.len(),
{
    if s.len() > 0 {
        lemma_seq_sum_nonnegative(s.drop_first());
    }
}

proof fn lemma_fold_sum(terms: Seq<CostExpression>, axes: OrderedMap<Address, u64>, acc: u64, values: Seq<u64>)
    requires
        evaluates_to(terms, axes, values),
    ensures
        acc + seq_sum(values) <= u64::MAX ==> fold_terms(terms, axes, acc, true) == Ok::<u64, CostError>(
            (acc + seq_sum(values)) as u64,
        ),
        acc + seq_sum(values) > u64::MAX ==> fold_terms(terms, axes, acc, true) == Err::<u64, CostError>(
            CostError::ExpressionOverflow,
        ),
    decreases terms.len(),
{
    if terms.len() > 0 {
        assert(cost_value(terms[0], axes) == Ok::<u64, CostError>(values[0]));
        lemma_seq_sum_nonnegative(values.drop_first());
        if acc + values[0] <= u64::MAX {
            let rest = terms.drop_first();
            assert forall|i: int| 0 <= i < rest.len() implies #[trigger] cost_value(rest[i], axes) == Ok::<
                u64,
                CostError,
            >(values.drop_first()[i]) by {
                assert(rest[i] == terms[i + 1]);
                assert(cost_value(terms[i + 1], axes) == Ok::<u64, CostError>(values[i + 1]));
            }
            lemma_fold_sum(rest, axes, (acc + values[0]) as u64, values.drop_first());
        }
    }
}

proof fn lemma_fold_product(terms: Seq<CostExpression>, axes: OrderedMap<Address, u64>, acc: u64, values: Seq<u64>)
    requires
        evaluates_to(terms, axes, values),
        forall|k: int| 0 <= k <= values.len() ==> acc * #[trigger] seq_product(values.take(k)) <= u64::MAX,
    ensures
        fold_terms(terms, axes, acc, false) == Ok::<u64, CostError>((acc * seq_product(values)) as u64),
    decreases terms.len(),
{
    if terms.len() == 0 {
        assert(seq_product(values) == 1);
    } else {
        assert(cost_value(terms[0], axes) == Ok::<u64, CostError>(values[0]));
        let v0 = values[0];
        let tail = values.drop_first();
        assert(values.take(1).drop_first() =~= Seq::<u64>::empty());
        assert(seq_product(values.take(1)) == v0 * seq_product(values.take(1).drop_first()));
        assert(acc * seq_product(values.take(1)) <= u64::MAX);
        assert(acc * v0 <= u64::MAX);
        let next = (acc * v0) as u64;
        let rest = terms.drop_first();
        assert forall|i: int| 0 <= i < rest.len() implies #[trigger] cost_value(rest[i], axes) == Ok::<
            u64,
            CostError,
        >(tail[i]) by {
            assert(rest[i] == terms[i + 1]);
            assert(cost_value(terms[i + 1], axes) == Ok::<u64, CostError>(values[i + 1]));
        }
        assert forall|k: int| 0 <= k <= tail.len() implies next * #[trigger] seq_product(tail.take(k)) <= u64::MAX by {
            assert(values.take(k + 1).drop_first() =~= tail.take(k));
            assert(seq_product(values.take(k + 1)) == v0 * seq_product(tail.take(k)));
            assert(acc * seq_product(values.take(k + 1)) <= u64::MAX);
            let p = seq_product(tail.take(k));
            assert(acc * (v0 * p) == (acc * v0) * p) by (nonlinear_arith);
        }
        lemma_fold_product(rest, axes, next, tail);
        assert(seq_product(values) == v0 * seq_product(tail));
        let p = seq_product(tail);
        assert(acc * (v0 * p) == (acc * v0) * p) by (nonlinear_arith);
    }
}

/// A sum adds its terms: when every term evaluates, the sum is their
/// arithmetic sum if that fits in a `u64`, and `ExpressionOverflow` if not.
pub proof fn law_sum_adds_its_terms(terms: Vec<CostExpression>, axes: OrderedMap<Address, u64>, values: Seq<u64>)
    requires
        evaluates_to(terms@, axes, values),
    ensures
        seq_sum(values) <= u64::MAX ==> cost_value(CostExpression::Sum(terms), axes) == Ok::<u64, CostError>(
            seq_sum(values) as u64,
        ),
        seq_sum(values) > u64::MAX ==> cost_value(CostExpression::Sum(terms), axes) == Err::<u64, CostError>(
            CostError::ExpressionOverflow,
        ),
{
    lemma_fold_sum(terms@, axes, 0, values);
}

/// A product multiplies its factors: when every factor evaluates and no
/// partial product, taken left to right, exceeds a `u64`, the product is
/// their arithmetic product.
pub proof fn law_product_multiplies_its_factors(
    factors: Vec<CostExpression>,
    axes: OrderedMap<Address, u64>,
    values: Seq<u64>,
)
    requires
        evaluates_to(factors@, axes, values),
        forall|k: int| 0 <= k <= values.len() ==> #[trigger] seq_product(values.take(k)) <= u64::MAX,
    ensures
        cost_value(CostExpression::Product(factors), axes) == Ok::<u64, CostError>(seq_product(values) as u64),
{
    assert forall|k: int| 0 <= k <= values.len() implies 1 * #[trigger] seq_product(values.take(k)) <= u64::MAX by {
        assert(seq_product(values.take(k)) <= u64::MAX);
    }
    lemma_fold_product(factors@, axes, 1, values);
}

/// A constant evaluates to itself.
pub proof fn law_constant_is_itself(v: u64, axes: OrderedMap<Address, u64>)
    ensures
        cost_value(CostExpression::Constant(v), axes) == Ok::<u64, CostError>(v),
{
}

/// The sum, taken from the back.
proof fn lemma_seq_sum_last(s: Seq<u64>)
    requires
        s.len() > 0,
    ensures
        seq_sum(s) == seq_sum(s.drop_last()) + s.last(),
    decreases s.len(),
{
    let df = s.drop_first();
    let dl = s.drop_last();
    if s.len() > 1 {
        lemma_seq_sum_last(df);
        assert(df.drop_last() =~= dl.drop_first());
        assert(df.last() == s.last());
        assert(dl[0] == s[0]);
        assert(seq_sum(dl) == dl[0] + seq_sum(dl.drop_first()));
        assert(seq_sum(s) == s[0] + seq_sum(df));
    } else {
        assert(df.len() == 0);
        assert(dl.len() == 0);
        assert(seq_sum(df) == 0);
        assert(seq_sum(dl) == 0);
        assert(s.last() == s[0]);
    }
}

/// The members, each listed once, are held plain elements with reported
/// values `values`.
pub open spec fn plain_members(report: CostReport, r: StructuralReprojection, members: Seq<Address>, values: Seq<u64>) -> bool {
    &&& members.len() == values.len()
    &&& forall|i: int, j: int| 0 <= i < j < members.len() ==> #[trigger] members[i]@ != #[trigger] members[j]@
    &&& forall|i: int|
        0 <= i < members.len() ==> r.holds(#[trigger] members[i]@) && group_members(r, members[i]@) is None
            && report.values().lookup(members[i]@) == Some(values[i])
}

proof fn lemma_plain_members_sum(
    report: CostReport,
    r: StructuralReprojection,
    group: Address,
    members: Seq<Address>,
    values: Seq<u64>,
    visiting: Seq<Seq<char>>,
    fuel: nat,
)
    requires
        plain_members(report, r, members, values),
        forall|i: int| 0 <= i < members.len() ==> !visiting.contains(#[trigger] members[i]@),
        seq_sum(values) <= u64::MAX,
    ensures
        members_result(report, r, group, members, visiting, fuel) == Ok::<nat, CostError>(seq_sum(values) as nat),
    decreases members.len(),
{
    if members.len() > 0 {
        let n = members.len() - 1;
        let pre = members.drop_last();
        let pv = values.drop_last();
        assert forall|i: int, j: int| 0 <= i < j < pre.len() implies #[trigger] pre[i]@ != #[trigger] pre[j]@ by {
            assert(members[i]@ != members[j]@);
        }
        assert forall|i: int| 0 <= i < pre.len() implies r.holds(#[trigger] pre[i]@) && group_members(r, pre[i]@) is None
            && report.values().lookup(pre[i]@) == Some(pv[i]) by {
            assert(pre[i] == members[i]);
        }
        lemma_seq_sum_last(values);
        lemma_seq_sum_nonnegative(pv);
        lemma_plain_members_sum(report, r, group, pre, pv, visiting, fuel);
        let m = members.last();
        assert(m == members[n]);
        assert(r.holds(members[n]@));
        assert(!address_texts(pre).contains(m@)) by {
            if address_texts(pre).contains(m@) {
                let x = choose|x: int| 0 <= x < address_texts(pre).len() && address_texts(pre)[x] == m@;
                assert(members[x]@ != members[n]@);
            }
        }
        assert(!visiting.contains(members[n]@));
        assert(cost_result(report, r, m, visiting, fuel) == Ok::<nat, CostError>(values[n] as nat));
    }
}

/// A group of plain members costs the sum of its members' reported values:
/// when each member is listed once, is held, is not itself a group, and has
/// a reported value, and that sum fits in a `u64`.
pub proof fn law_group_total_sums_member_values(
    report: CostReport,
    r: StructuralReprojection,
    group: Address,
    values: Seq<u64>,
    fuel: nat,
)
    requires
        group_members(r, group@) is Some,
        plain_members(report, r, group_members(r, group@)->0, values),
        seq_sum(values) <= u64::MAX,
        fuel > 0,
    ensures
        cost_result(report, r, group, Seq::empty(), fuel) == Ok::<nat, CostError>(seq_sum(values) as nat),
{
    let members = group_members(r, group@)->0;
    let visiting = Seq::<Seq<char>>::empty().push(group@);
    assert forall|i: int| 0 <= i < members.len() implies !visiting.contains(#[trigger] members[i]@) by {
        if visiting.contains(members[i]@) {
            assert(visiting[0] == group@);
            assert(group_members(r, members[i]@) is None);
        }
    }
    lemma_plain_members_sum(report, r, group, members, values, visiting, (fuel - 1) as nat);
}

} // verus!

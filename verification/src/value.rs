//! The closed algebra of typed, finalized extension values.
use vstd::prelude::*;

use crate::address::Address;
use crate::map::{last_value_for, strictly_increasing, OrderedMap};
use crate::same::{fields_same, items_same, value_same};
use crate::text::{lemma_seq_lt_irreflexive, seq_lt};

verus! {

/// The bit pattern of a finite IEEE 754 double: its exponent field is not
/// all ones.
pub open spec fn is_finite_bits(bits: u64) -> bool {
    (bits >> 52u64) & 0x7ffu64 != 0x7ffu64
}

/// A double of either sign whose magnitude is zero.
pub open spec fn is_zero_bits(bits: u64) -> bool {
    bits & 0x7fff_ffff_ffff_ffffu64 == 0
}

/// Doubles compare equal when their bits agree or both are zero.
pub open spec fn same_number_bits(a: u64, b: u64) -> bool {
    a == b || (is_zero_bits(a) && is_zero_bits(b))
}

/// The sign and magnitude of a double whose value is a whole number below
/// 2^53 (zero of either sign included); other doubles have none.
pub open spec fn double_integer(bits: u64) -> Option<(bool, nat)> {
    let negative = (bits >> 63u64) == 1;
    let exponent = (bits >> 52u64) & 0x7ffu64;
    let mantissa = bits & 0xf_ffff_ffff_ffffu64;
    if exponent == 0 && mantissa == 0 {
        Some((negative, 0))
    } else if 1023 <= exponent <= 1075 {
        let shift = (1075 - exponent) as u64;
        if mantissa & (((1u64 << shift) - 1) as u64) == 0 {
            Some((negative, ((mantissa | 0x10_0000_0000_0000u64) >> shift) as nat))
        } else {
            None
        }
    } else {
        None
    }
}

/// Ten to the `k`.
pub open spec fn pow10(k: nat) -> nat
    decreases k,
{
    if k == 0 {
        1
    } else {
        10 * pow10((k - 1) as nat)
    }
}

/// Two to the `s`.
pub open spec fn pow2n(s: nat) -> nat
    decreases s,
{
    if s == 0 {
        1
    } else {
        2 * pow2n((s - 1) as nat)
    }
}

/// The bits of the positive double `q * 2^-s`, for `2^52 <= q <= 2^53`.
pub open spec fn scaled_bits(q: nat, s: nat) -> u64 {
    let exponent = (if q < 0x20_0000_0000_0000 {
        1075 - s
    } else {
        1076 - s
    }) as u64;
    let fraction = (if q < 0x20_0000_0000_0000 {
        q - 0x10_0000_0000_0000
    } else {
        0
    }) as u64;
    (exponent << 52u64) | fraction
}

/// `m / 10^k` lies in `[2^52, 2^53)` times `2^-s`, and `q * 2^-s` is the
/// nearest multiple of `2^-s` to it, a tie going to an even `q`: the double
/// nearest `m / 10^k`.
pub open spec fn nearest_scaled(q: nat, s: nat, m: nat, k: nat) -> bool {
    let n = m * pow2n(s);
    let d = pow10(k);
    &&& 0x10_0000_0000_0000 * d <= n < 0x20_0000_0000_0000 * d
    &&& 0x10_0000_0000_0000 <= q <= 0x20_0000_0000_0000
    &&& -d <= 2 * (q * d) - 2 * n <= d
    &&& (2 * (q * d) - 2 * n == d || 2 * n - 2 * (q * d) == d) ==> q % 2 == 0
    &&& s <= 1074
}

/// `bits` is the double nearest `m / 10^k`, ties to even.
pub open spec fn decimal_double(bits: u64, m: nat, k: nat) -> bool {
    exists|q: nat, s: nat| nearest_scaled(q, s, m, k) && bits == scaled_bits(q, s)
}

proof fn lemma_pow2n_add(a: nat, b: nat)
    ensures
        pow2n(a + b) == pow2n(a) * pow2n(b),
    decreases b,
{
    if b == 0 {
        assert(pow2n(0) == 1);
        assert(a + b == a);
        assert(pow2n(a) * 1 == pow2n(a));
    } else {
        lemma_pow2n_add(a, (b - 1) as nat);
        assert(pow2n(b) == 2 * pow2n((b - 1) as nat));
        assert(pow2n(a + b) == 2 * pow2n((a + b - 1) as nat));
        assert(2 * (pow2n(a) * pow2n((b - 1) as nat)) == pow2n(a) * (2 * pow2n((b - 1) as nat))) by (nonlinear_arith);
    }
}

proof fn lemma_pow2n_127()
    ensures
        pow2n(127) == 0x8000_0000_0000_0000_0000_0000_0000_0000nat,
{
    reveal_with_fuel(pow2n, 17);
    assert(pow2n(16) == 0x1_0000nat);
    lemma_pow2n_add(16, 16);
    assert(pow2n(32) == 0x1_0000_0000nat);
    lemma_pow2n_add(32, 32);
    assert(pow2n(64) == 0x1_0000_0000_0000_0000nat);
    lemma_pow2n_add(64, 32);
    assert(pow2n(96) == 0x1_0000_0000_0000_0000_0000_0000nat);
    lemma_pow2n_add(96, 16);
    assert(pow2n(112) == 0x1_0000_0000_0000_0000_0000_0000_0000nat);
    reveal_with_fuel(pow2n, 16);
    assert(pow2n(15) == 0x8000nat);
    lemma_pow2n_add(112, 15);
}

proof fn lemma_pow2n_grows(i: nat, j: nat)
    requires
        i <= j,
    ensures
        1 <= pow2n(i) <= pow2n(j),
    decreases j,
{
    if j > 0 {
        if i < j {
            lemma_pow2n_grows(i, (j - 1) as nat);
        }
    }
    if i > 0 {
        lemma_pow2n_grows((i - 1) as nat, (i - 1) as nat);
    }
}

proof fn lemma_pow10_grows(i: nat, j: nat)
    requires
        i <= j,
    ensures
        1 <= pow10(i) <= pow10(j),
    decreases j,
{
    if j > 0 {
        if i < j {
            lemma_pow10_grows(i, (j - 1) as nat);
        }
    }
    if i > 0 {
        lemma_pow10_grows((i - 1) as nat, (i - 1) as nat);
    }
}

/// A finite double, held as its IEEE 754 bit pattern.
#[derive(Clone, Copy, Debug)]
pub struct FiniteNumber {
    bits: u64,
}

impl FiniteNumber {
    #[verifier::type_invariant]
    closed spec fn finite(&self) -> bool {
        is_finite_bits(self.bits)
    }

    pub closed spec fn spec_bits(&self) -> u64 {
        self.bits
    }

    /// The number with the given bit pattern, when that pattern is finite.
    pub fn from_bits(bits: u64) -> (r: Option<FiniteNumber>)
        ensures
            r is Some <==> is_finite_bits(bits),
            r matches Some(n) ==> n.spec_bits() == bits,
    {
        if (bits >> 52u64) & 0x7ffu64 != 0x7ffu64 {
            Some(FiniteNumber { bits })
        } else {
            None
        }
    }

    /// Positive zero.
    pub fn zero() -> (n: FiniteNumber)
        ensures
            n.spec_bits() == 0,
    {
        assert(((0u64 >> 52u64) & 0x7ffu64) != 0x7ffu64) by (bit_vector);
        FiniteNumber { bits: 0 }
    }

    /// The double equal to a whole number below 2^53.
    pub fn from_integer(n: u64) -> (r: FiniteNumber)
        requires
            n < 0x20_0000_0000_0000u64,
        ensures
            double_integer(r.spec_bits()) == Some((false, n as nat)),
    {
        if n == 0 {
            let z = FiniteNumber::zero();
            assert(double_integer(0u64) == Some((false, 0nat))) by (bit_vector);
            return z;
        }
        let mut e: u64 = 0;
        assert((n >> 0u64) == n) by (bit_vector);
        while e < 52 && (n >> (e + 1)) != 0
            invariant
                e <= 52,
                n > 0,
                n < 0x20_0000_0000_0000u64,
                (n >> e) != 0,
            decreases 52 - e,
        {
            e = e + 1;
        }
        proof {
            assert(e == 52 ==> (n >> ((e + 1) as u64)) == 0) by (bit_vector)
                requires
                    n < 0x20_0000_0000_0000u64,
            ;
        }
        let bits: u64 = ((1023 + e) << 52u64) | ((n << (52 - e)) & 0xf_ffff_ffff_ffffu64);
        proof {
            assert(((bits >> 52u64) & 0x7ffu64) != 0x7ffu64 && (bits >> 63u64) == 0 && (bits >> 52u64) & 0x7ffu64
                == 1023 + e && bits & 0xf_ffff_ffff_ffffu64 == (n << ((52 - e) as u64)) & 0xf_ffff_ffff_ffffu64) by (bit_vector)
                requires
                    e <= 52,
                    bits == (((1023 + e) as u64) << 52u64) | ((n << ((52 - e) as u64)) & 0xf_ffff_ffff_ffffu64),
            ;
            let m = bits & 0xf_ffff_ffff_ffffu64;
            let shift = (1075 - (1023 + e)) as u64;
            assert(shift == 52 - e);
            assert(m & (((1u64 << shift) - 1) as u64) == 0 && ((m | 0x10_0000_0000_0000u64) >> shift) == n) by (bit_vector)
                requires
                    e <= 52,
                    n < 0x20_0000_0000_0000u64,
                    (n >> e) != 0,
                    (n >> ((e + 1) as u64)) == 0,
                    shift == 52 - e,
                    m == (n << ((52 - e) as u64)) & 0xf_ffff_ffff_ffffu64,
            ;
        }
        FiniteNumber { bits }
    }

    /// The double nearest `m / 10^k`, ties to even.
    pub fn from_decimal(m: u64, k: u64) -> (r: FiniteNumber)
        requires
            0 < m < 0x20_0000_0000_0000u64,
            k <= 22,
        ensures
            decimal_double(r.spec_bits(), m as nat, k as nat),
    {
        let ghost top = pow10(22);
        proof {
            reveal_with_fuel(pow10, 23);
            assert(pow10(22) == 10_000_000_000_000_000_000_000nat);
        }
        let mut d: u128 = 1;
        let mut i: u64 = 0;
        while i < k
            invariant
                i <= k <= 22,
                d == pow10(i as nat),
                top == 10_000_000_000_000_000_000_000nat,
                top == pow10(22),
            decreases k - i,
        {
            proof {
                lemma_pow10_grows((i + 1) as nat, 22);
            }
            d = d * 10;
            i = i + 1;
        }
        proof {
            lemma_pow10_grows(k as nat, 22);
        }
        let threshold: u128 = 0x10_0000_0000_0000u128 * d;
        let mut t: u128 = m as u128;
        let mut s: u64 = 0;
        proof {
            assert(pow2n(0) == 1);
            assert(m as nat * pow2n(0) == m);
            assert(0x20_0000_0000_0000 <= 0x20_0000_0000_0000 * d) by (nonlinear_arith)
                requires
                    d >= 1,
            ;
        }
        while t < threshold
            invariant
                1 <= d <= 10_000_000_000_000_000_000_000u128,
                d == pow10(k as nat),
                threshold == 0x10_0000_0000_0000u128 * d,
                0 < t < 0x20_0000_0000_0000u128 * d,
                t == m as nat * pow2n(s as nat),
                s <= 127,
                t >= m as nat,
            decreases (if t < threshold {
                threshold - t
            } else {
                0
            }),
        {
            proof {
                assert(m as nat * pow2n((s + 1) as nat) == 2 * (m as nat * pow2n(s as nat))) by (nonlinear_arith)
                    requires
                        pow2n((s + 1) as nat) == 2 * pow2n(s as nat),
                ;
                assert(s < 127) by {
                    if s >= 127 {
                        lemma_pow2n_grows(127, s as nat);
                        lemma_pow2n_127();
                        assert(m as nat * pow2n(s as nat) >= pow2n(s as nat)) by (nonlinear_arith)
                            requires
                                m >= 1,
                        ;
                    }
                }
            }
            t = t * 2;
            s = s + 1;
        }
        let q0: u128 = t / d;
        let r: u128 = t % d;
        proof {
            assert(t == q0 * d + r && r < d) by (nonlinear_arith)
                requires
                    d >= 1,
                    q0 == t / d,
                    r == t % d,
            ;
            assert(0x10_0000_0000_0000 <= q0 < 0x20_0000_0000_0000) by (nonlinear_arith)
                requires
                    t == q0 * d + r,
                    r < d,
                    d >= 1,
                    0x10_0000_0000_0000 * d <= t,
                    t < 0x20_0000_0000_0000 * d,
            ;
        }
        let q: u128 = if 2 * r > d || (2 * r == d && q0 % 2 == 1) {
            q0 + 1
        } else {
            q0
        };
        let qq: u64 = q as u64;
        let exponent: u64 = if qq < 0x20_0000_0000_0000u64 {
            1075 - s
        } else {
            1076 - s
        };
        let fraction: u64 = if qq < 0x20_0000_0000_0000u64 {
            qq - 0x10_0000_0000_0000u64
        } else {
            0
        };
        let bits: u64 = (exponent << 52u64) | fraction;
        proof {
            assert(q == q0 + 1 ==> q * d == q0 * d + d) by (nonlinear_arith);
            assert(q == q0 ==> q * d == q0 * d);
            assert(t >= threshold);
            assert(m as nat * pow2n(s as nat) == t);
            assert(0x10_0000_0000_0000 * pow10(k as nat) <= t);
            assert(0x10_0000_0000_0000 <= q <= 0x20_0000_0000_0000);
            assert(-d <= 2 * (q * d) - 2 * t <= d);
            assert(nearest_scaled(q as nat, s as nat, m as nat, k as nat));
            assert(bits == scaled_bits(q as nat, s as nat));
            assert(((bits >> 52u64) & 0x7ffu64) != 0x7ffu64) by (bit_vector)
                requires
                    exponent <= 1076,
                    fraction < 0x10_0000_0000_0000u64,
                    bits == (exponent << 52u64) | fraction,
            ;
        }
        FiniteNumber { bits }
    }

    /// The sign and magnitude when the value is a whole number below 2^53.
    pub fn integer_value(self) -> (r: Option<(bool, u64)>)
        ensures
            match r {
                Some((negative, n)) => double_integer(self.spec_bits()) == Some((negative, n as nat)),
                None => double_integer(self.spec_bits()) is None,
            },
    {
        let bits = self.bits;
        let negative = (bits >> 63u64) == 1;
        let exponent = (bits >> 52u64) & 0x7ffu64;
        let mantissa = bits & 0xf_ffff_ffff_ffffu64;
        if exponent == 0 && mantissa == 0 {
            Some((negative, 0))
        } else if 1023 <= exponent && exponent <= 1075 {
            let shift: u64 = 1075 - exponent;
            assert((1u64 << shift) >= 1) by (bit_vector)
                requires
                    shift <= 52,
            ;
            if mantissa & ((1u64 << shift) - 1) == 0 {
                Some((negative, (mantissa | 0x10_0000_0000_0000u64) >> shift))
            } else {
                None
            }
        } else {
            None
        }
    }

    /// The IEEE 754 bit pattern.
    pub fn to_bits(self) -> (b: u64)
        ensures
            b == self.spec_bits(),
            is_finite_bits(b),
    {
        proof {
            use_type_invariant(&self);
        }
        self.bits
    }
}

impl PartialEq for FiniteNumber {
    fn eq(&self, other: &FiniteNumber) -> (r: bool) {
        self.bits == other.bits || ((self.bits & 0x7fff_ffff_ffff_ffffu64) == 0 && (other.bits
            & 0x7fff_ffff_ffff_ffffu64) == 0)
    }
}

impl vstd::std_specs::cmp::PartialEqSpecImpl for FiniteNumber {
    open spec fn obeys_eq_spec() -> bool {
        true
    }

    open spec fn eq_spec(&self, other: &FiniteNumber) -> bool {
        same_number_bits(self.spec_bits(), other.spec_bits())
    }
}

/// A typed value.
#[derive(Debug, PartialEq)]
pub enum Value {
    Bool(bool),
    PositiveInteger(u64),
    Number(FiniteNumber),
    Text(String),
    Enum(String),
    /// Fields in increasing name order, each name once (`value_ordered`
    /// states it; `Value::product` and the parser keep it).
    Product(Vec<(String, Value)>),
    Sequence(Vec<Value>),
    AddressReference(Address),
    Absent,
    Present(Box<Value>),
    Tagged { tag: String, value: Box<Value> },
}

/// The names of a product's fields, in order.
pub open spec fn field_names(entries: Seq<(String, Value)>) -> Seq<Seq<char>> {
    entries.map_values(|e: (String, Value)| e.0@)
}

/// Every product inside the value, at any depth, has its fields in
/// increasing name order, each name once.
pub open spec fn value_ordered(v: Value) -> bool
    decreases v, 1int,
{
    match v {
        Value::Product(e) => strictly_increasing(field_names(e@)) && fields_ordered(e@),
        Value::Sequence(items) => items_ordered(items@),
        Value::Present(x) => value_ordered(*x),
        Value::Tagged { value, .. } => value_ordered(*value),
        _ => true,
    }
}

/// Every field's value is ordered.
pub open spec fn fields_ordered(e: Seq<(String, Value)>) -> bool
    decreases e, 0int,
{
    e.len() > 0 ==> fields_ordered(e.drop_last()) && value_ordered(e.last().1)
}

/// Every item is ordered.
pub open spec fn items_ordered(s: Seq<Value>) -> bool
    decreases s, 0int,
{
    s.len() > 0 ==> items_ordered(s.drop_last()) && value_ordered(s.last())
}

pub proof fn lemma_fields_ordered(e: Seq<(String, Value)>)
    ensures
        fields_ordered(e) <==> forall|i: int| 0 <= i < e.len() ==> value_ordered(#[trigger] e[i].1),
    decreases e.len(),
{
    if e.len() > 0 {
        lemma_fields_ordered(e.drop_last());
        assert forall|i: int| 0 <= i < e.len() - 1 implies e.drop_last()[i] == e[i] by {}
    }
}

pub proof fn lemma_items_ordered(s: Seq<Value>)
    ensures
        items_ordered(s) <==> forall|i: int| 0 <= i < s.len() ==> value_ordered(#[trigger] s[i]),
    decreases s.len(),
{
    if s.len() > 0 {
        lemma_items_ordered(s.drop_last());
        assert forall|i: int| 0 <= i < s.len() - 1 implies s.drop_last()[i] == s[i] by {}
    }
}

/// A value equal field by field to an ordered one is ordered.
pub proof fn lemma_same_ordered(a: Value, b: Value)
    requires
        value_same(a, b),
        value_ordered(b),
    ensures
        value_ordered(a),
    decreases a, 1int,
{
    match a {
        Value::Product(x) => {
            let y = b->Product_0;
            lemma_fields_same_ordered(x@, y@);
        },
        Value::Sequence(x) => {
            let y = b->Sequence_0;
            lemma_items_same_ordered(x@, y@);
        },
        Value::Present(x) => {
            lemma_same_ordered(*x, *(b->Present_0));
        },
        Value::Tagged { tag, value } => {
            lemma_same_ordered(*value, *(b->value));
        },
        _ => {},
    }
}

proof fn lemma_fields_same_ordered(x: Seq<(String, Value)>, y: Seq<(String, Value)>)
    requires
        fields_same(x, y),
        fields_ordered(y),
    ensures
        fields_ordered(x),
        field_names(x) == field_names(y),
    decreases x, 0int,
{
    if x.len() > 0 {
        lemma_fields_same_ordered(x.drop_last(), y.drop_last());
        assert(decreases_to!(x => x[x.len() - 1]));
        lemma_same_ordered(x.last().1, y.last().1);
        assert(field_names(x) =~= field_names(x.drop_last()).push(x.last().0@));
        assert(field_names(y) =~= field_names(y.drop_last()).push(y.last().0@));
    } else {
        assert(field_names(x) =~= field_names(y));
    }
}

proof fn lemma_items_same_ordered(x: Seq<Value>, y: Seq<Value>)
    requires
        items_same(x, y),
        items_ordered(y),
    ensures
        items_ordered(x),
    decreases x, 0int,
{
    if x.len() > 0 {
        lemma_items_same_ordered(x.drop_last(), y.drop_last());
        lemma_same_ordered(x.last(), y.last());
    }
}

/// The last value given for a name is one of the given values.
proof fn lemma_last_value_ordered(pairs: Seq<(String, Value)>, q: Seq<char>)
    requires
        forall|i: int| 0 <= i < pairs.len() ==> value_ordered(#[trigger] pairs[i].1),
    ensures
        last_value_for(pairs, q) matches Some(v) ==> value_ordered(v),
    decreases pairs.len(),
{
    if pairs.len() > 0 {
        assert(value_ordered(pairs[pairs.len() - 1].1));
        let rest = pairs.drop_last();
        assert forall|i: int| 0 <= i < rest.len() implies value_ordered(#[trigger] rest[i].1) by {
            assert(rest[i] == pairs[i]);
        }
        lemma_last_value_ordered(rest, q);
    }
}

/// The value of the first field called `q`.
pub open spec fn product_lookup(entries: Seq<(String, Value)>, q: Seq<char>) -> Option<Value>
    decreases entries.len(),
{
    if entries.len() == 0 {
        None
    } else if entries[0].0@ == q {
        Some(entries[0].1)
    } else {
        product_lookup(entries.drop_first(), q)
    }
}

/// Among distinct names, the field called `q` is the one at its position.
pub proof fn lemma_product_lookup_distinct(entries: Seq<(String, Value)>, q: Seq<char>)
    requires
        strictly_increasing(field_names(entries)),
    ensures
        field_names(entries).contains(q) ==> product_lookup(entries, q) == Some(
            entries[field_names(entries).index_of(q)].1,
        ),
        !field_names(entries).contains(q) ==> product_lookup(entries, q) is None,
    decreases entries.len(),
{
    let names = field_names(entries);
    if entries.len() > 0 {
        let rest = entries.drop_first();
        assert(field_names(rest) =~= names.drop_first());
        assert(strictly_increasing(field_names(rest))) by {
            assert forall|i: int, j: int| 0 <= i < j < field_names(rest).len() implies seq_lt(
                #[trigger] field_names(rest)[i],
                #[trigger] field_names(rest)[j],
            ) by {
                assert(field_names(rest)[i] == names[i + 1]);
                assert(field_names(rest)[j] == names[j + 1]);
            }
        }
        lemma_product_lookup_distinct(rest, q);
        if names.contains(q) {
            let k = names.index_of(q);
            if k == 0 {
                assert(entries[0].0@ == q);
            } else {
                assert(entries[0].0@ != q) by {
                    assert(seq_lt(names[0], names[k]));
                    lemma_seq_lt_irreflexive(q);
                }
                assert(field_names(rest)[k - 1] == q);
                let k2 = field_names(rest).index_of(q);
                if k2 != k - 1 {
                    if k2 < k - 1 {
                        assert(seq_lt(names[k2 + 1], names[k]));
                    } else {
                        assert(seq_lt(names[k], names[k2 + 1]));
                    }
                    lemma_seq_lt_irreflexive(q);
                }
            }
        } else {
            if field_names(rest).contains(q) {
                let k = field_names(rest).index_of(q);
                assert(names[k + 1] == q);
            }
            assert(entries[0].0@ != q) by {
                assert(names[0] == entries[0].0@);
            }
        }
    }
}

impl Clone for Value {
    /// A copy with the same contents, field by field.
    fn clone(&self) -> (r: Self)
        ensures
            value_same(r, *self),
            value_ordered(*self) ==> value_ordered(r),
        decreases self,
    {
        let r = match self {
            Value::Bool(b) => Value::Bool(*b),
            Value::PositiveInteger(n) => Value::PositiveInteger(*n),
            Value::Number(n) => Value::Number(*n),
            Value::Text(t) => Value::Text(t.clone()),
            Value::Enum(t) => Value::Enum(t.clone()),
            Value::Product(fields) => {
                let mut out: Vec<(String, Value)> = Vec::new();
                let mut i: usize = 0;
                proof {
                    assert(fields@.take(0) =~= Seq::<(String, Value)>::empty());
                }
                while i < fields.len()
                    invariant
                        i <= fields@.len(),
                        *self == Value::Product(*fields),
                        fields_same(out@, fields@.take(i as int)),
                    decreases fields@.len() - i,
                {
                    proof {
                        let e = fields@[i as int];
                        assert(decreases_to!(*self => (*self)->Product_0));
                        assert(decreases_to!(*fields => e));
                        assert(decreases_to!(e => e.1));
                        assert(decreases_to!(*self => e.1));
                    }
                    let name = fields[i].0.clone();
                    let value = fields[i].1.clone();
                    let ghost before = out@;
                    out.push((name, value));
                    proof {
                        assert(out@.drop_last() =~= before);
                        assert(fields@.take(i + 1).drop_last() =~= fields@.take(i as int));
                    }
                    i = i + 1;
                }
                proof {
                    assert(fields@.take(i as int) =~= fields@);
                }
                Value::Product(out)
            },
            Value::Sequence(items) => {
                let mut out: Vec<Value> = Vec::new();
                let mut i: usize = 0;
                proof {
                    assert(items@.take(0) =~= Seq::<Value>::empty());
                }
                while i < items.len()
                    invariant
                        i <= items@.len(),
                        *self == Value::Sequence(*items),
                        items_same(out@, items@.take(i as int)),
                    decreases items@.len() - i,
                {
                    proof {
                        assert(decreases_to!(*self => (*self)->Sequence_0));
                        assert(decreases_to!(*items => items@[i as int]));
                        assert(decreases_to!(*self => items@[i as int]));
                    }
                    let value = items[i].clone();
                    let ghost before = out@;
                    out.push(value);
                    proof {
                        assert(out@.drop_last() =~= before);
                        assert(items@.take(i + 1).drop_last() =~= items@.take(i as int));
                    }
                    i = i + 1;
                }
                proof {
                    assert(items@.take(i as int) =~= items@);
                }
                Value::Sequence(out)
            },
            Value::AddressReference(a) => Value::AddressReference(a.clone()),
            Value::Absent => Value::Absent,
            Value::Present(inner) => Value::Present(Box::new((**inner).clone())),
            Value::Tagged { tag, value } => Value::Tagged { tag: tag.clone(), value: Box::new((**value).clone()) },
        };
        proof {
            if value_ordered(*self) {
                lemma_same_ordered(r, *self);
            }
        }
        r
    }
}

impl Value {
    /// A product whose fields are the given pairs, in name order; a later
    /// pair replaces an earlier one with the same name.
    pub fn product(fields: Vec<(String, Value)>) -> (v: Value)
        ensures
            v matches Value::Product(e) && strictly_increasing(field_names(e@)) && forall|q: Seq<char>|
                #[trigger] product_lookup(e@, q) == last_value_for(fields@, q),
            fields_ordered(fields@) ==> value_ordered(v),
    {
        let map = OrderedMap::from_pairs(fields);
        let ghost m = map;
        let e = map.into_entries();
        proof {
            assert(field_names(e@) =~= m.keys());
            assert forall|q: Seq<char>| #[trigger] product_lookup(e@, q) == last_value_for(fields@, q) by {
                assert(m.lookup(q) == last_value_for(fields@, q));
                lemma_product_lookup_distinct(e@, q);
            }
            if fields_ordered(fields@) {
                lemma_fields_ordered(fields@);
                assert forall|i: int| 0 <= i < e@.len() implies value_ordered(#[trigger] e@[i].1) by {
                    let names = field_names(e@);
                    let q = e@[i].0@;
                    assert(names[i] == q);
                    assert(names.contains(q));
                    lemma_product_lookup_distinct(e@, q);
                    let k = names.index_of(q);
                    if k != i {
                        if k < i {
                            assert(seq_lt(names[k], names[i]));
                        } else {
                            assert(seq_lt(names[i], names[k]));
                        }
                        lemma_seq_lt_irreflexive(q);
                    }
                    assert(product_lookup(e@, q) == last_value_for(fields@, q));
                    lemma_last_value_ordered(fields@, q);
                }
                lemma_fields_ordered(e@);
            }
        }
        Value::Product(e)
    }
}

} // verus!

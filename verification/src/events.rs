//! The tab-separated resource events format: scenario, flow and charge
//! records, one per line.
use vstd::prelude::*;

use crate::decimal::{all_digits, decimal_text, decimal_value, is_u64_text, parse_u64, push_decimal};
use crate::placement::{blank, is_blank};
use crate::address::{is_address_text, Address};
use crate::resource::{
    assigned_quantity, kind_name, kind_named, kind_repeats_earlier, spells, ResourceBundle, ResourceCharge, ResourceFlow,
    ResourceKind,
};
use crate::text::{
    char_is_digit, char_is_whitespace, chars_of, is_digit, is_whitespace, lemma_seq_lt_asymmetric,
    lemma_seq_lt_irreflexive, lemma_seq_lt_total, lemma_seq_lt_transitive, owned, push_str, seq_lt, str_eq, str_lt,
    string_of,
};

verus! {

/// The pieces of `s` between `sep` characters, as `str::split` yields them.
pub open spec fn split_on(s: Seq<char>, sep: char) -> Seq<Seq<char>>
    decreases s.len(),
{
    if s.len() == 0 {
        seq![Seq::<char>::empty()]
    } else {
        let p = split_on(s.drop_last(), sep);
        if s.last() == sep {
            p.push(Seq::<char>::empty())
        } else {
            p.update(p.len() - 1, p.last().push(s.last()))
        }
    }
}

pub proof fn lemma_split_on_nonempty(s: Seq<char>, sep: char)
    ensures
        split_on(s, sep).len() >= 1,
    decreases s.len(),
{
    if s.len() > 0 {
        lemma_split_on_nonempty(s.drop_last(), sep);
    }
}

/// A line without the carriage return of its line ending.
pub open spec fn strip_cr(l: Seq<char>) -> Seq<char> {
    if l.len() > 0 && l.last() == '\r' {
        l.drop_last()
    } else {
        l
    }
}

/// The lines of `s` as `str::lines` yields them: split at `\n`, each line
/// that ended with `\r\n` without its `\r`, and no empty line after a final
/// line ending.
pub open spec fn event_lines(s: Seq<char>) -> Seq<Seq<char>> {
    let parts = split_on(s, '\n');
    let body = parts.drop_last().map_values(|p: Seq<char>| strip_cr(p));
    if parts.last().len() == 0 {
        body
    } else {
        body.push(parts.last())
    }
}

/// The first character that is not whitespace is `#`.
pub open spec fn is_comment(l: Seq<char>) -> bool {
    exists|i: int| 0 <= i < l.len() && l[i] == '#' && forall|j: int| 0 <= j < i ==> is_whitespace(#[trigger] l[j])
}

/// A quantity as `u64::from_str` reads it: an optional `+`, then digits
/// whose value fits.
pub open spec fn is_quantity_text(s: Seq<char>) -> bool {
    if s.len() > 0 && s[0] == '+' {
        is_u64_text(s.drop_first())
    } else {
        is_u64_text(s)
    }
}

pub open spec fn quantity_value(s: Seq<char>) -> nat {
    if s.len() > 0 && s[0] == '+' {
        decimal_value(s.drop_first())
    } else {
        decimal_value(s)
    }
}

/// A character, lowercased when it is an ASCII capital.
pub open spec fn lower(c: char) -> char {
    if 'A' <= c <= 'Z' {
        ((c as u32) + 32) as char
    } else {
        c
    }
}

pub open spec fn lowered(s: Seq<char>) -> Seq<char> {
    s.map_values(|c: char| lower(c))
}

/// Digits with at most one `.`, and at least one digit.
pub open spec fn is_mantissa(m: Seq<char>) -> bool {
    &&& exists|i: int| 0 <= i < m.len() && is_digit(#[trigger] m[i])
    &&& forall|i: int| 0 <= i < m.len() ==> is_digit(#[trigger] m[i]) || m[i] == '.'
    &&& forall|i: int, j: int| #![trigger m[i], m[j]] 0 <= i < j < m.len() ==> !(m[i] == '.' && m[j] == '.')
}

/// The exponent without its sign.
pub open spec fn unsigned_part(e: Seq<char>) -> Seq<char> {
    if e.len() > 0 && (e[0] == '+' || e[0] == '-') {
        e.drop_first()
    } else {
        e
    }
}

/// An optional sign, then at least one digit.
pub open spec fn is_exponent(e: Seq<char>) -> bool {
    unsigned_part(e).len() > 0 && all_digits(unsigned_part(e))
}

/// A lowercased number: a mantissa, then optionally `e` and an exponent.
pub open spec fn is_number_text(b: Seq<char>) -> bool {
    if exists|p: int| 0 <= p < b.len() && b[p] == 'e' {
        let p = choose|p: int| 0 <= p < b.len() && b[p] == 'e' && forall|q: int| 0 <= q < p ==> b[q] != 'e';
        is_mantissa(b.take(p)) && is_exponent(b.skip(p + 1))
    } else {
        is_mantissa(b)
    }
}

/// Text that `f64::from_str` reads, by the grammar its documentation gives
/// for the lowercased text: an optional sign, then `inf`, `infinity`, `nan`
/// or a number.
pub open spec fn is_float_text(s: Seq<char>) -> bool {
    let t = lowered(s);
    let b = if t.len() > 0 && (t[0] == '+' || t[0] == '-') {
        t.drop_first()
    } else {
        t
    };
    b == "inf"@ || b == "infinity"@ || b == "nan"@ || is_number_text(b)
}

/// A scenario record: its line, name, probability text and assumption.
pub type ScenarioView = (nat, Seq<char>, Seq<char>, Seq<char>);

/// A flow record: its line, scenario, relation, source, destination, kind
/// and quantity.
pub type FlowView = (nat, Seq<char>, Seq<char>, Seq<char>, Seq<char>, ResourceKind, u64);

/// A charge record: its line, scenario, target, kind and quantity.
pub type ChargeView = (nat, Seq<char>, Seq<char>, ResourceKind, u64);

pub type RecordsView = (Seq<ScenarioView>, Seq<FlowView>, Seq<ChargeView>);

/// `events line N: <message>`.
pub open spec fn line_message(n: nat, m: Seq<char>) -> Seq<char> {
    "events line "@ + decimal_text(n) + ": "@ + m
}

pub open spec fn scenario_named(scenarios: Seq<ScenarioView>, name: Seq<char>) -> bool {
    exists|i: int| 0 <= i < scenarios.len() && #[trigger] scenarios[i].1 == name
}

/// What line `n` adds to the records read so far, or why it is refused.
pub open spec fn record_step(st: RecordsView, l: Seq<char>, n: nat) -> Result<RecordsView, Seq<char>> {
    if is_blank(l) || is_comment(l) {
        Ok(st)
    } else {
        let f = split_on(l, '\t');
        if f[0] == "scenario"@ && f.len() == 4 {
            if scenario_named(st.0, f[1]) {
                Err(line_message(n, "scenario is repeated"@))
            } else if !is_float_text(f[2]) {
                Err(line_message(n, "probability is not a number"@))
            } else {
                Ok((st.0.push((n, f[1], f[2], f[3])), st.1, st.2))
            }
        } else if f[0] == "flow"@ && f.len() == 7 {
            match kind_named(f[5]) {
                None => Err(line_message(n, "unknown resource `"@ + f[5] + "`"@)),
                Some(k) => if !is_quantity_text(f[6]) {
                    Err(line_message(n, "quantity is not a nonnegative integer"@))
                } else {
                    Ok((st.0, st.1.push((n, f[1], f[2], f[3], f[4], k, quantity_value(f[6]) as u64)), st.2))
                },
            }
        } else if f[0] == "charge"@ && f.len() == 5 {
            match kind_named(f[3]) {
                None => Err(line_message(n, "unknown resource `"@ + f[3] + "`"@)),
                Some(k) => if !is_quantity_text(f[4]) {
                    Err(line_message(n, "quantity is not a nonnegative integer"@))
                } else {
                    Ok((st.0, st.1, st.2.push((n, f[1], f[2], k, quantity_value(f[4]) as u64))))
                },
            }
        } else {
            Err(line_message(n, "invalid record `"@ + f[0] + "`"@))
        }
    }
}

/// The records of the lines, read in order; the first refused line decides
/// the error.
pub open spec fn read_records(lines: Seq<Seq<char>>) -> Result<RecordsView, Seq<char>>
    decreases lines.len(),
{
    if lines.len() == 0 {
        Ok((Seq::empty(), Seq::empty(), Seq::empty()))
    } else {
        match read_records(lines.drop_last()) {
            Err(m) => Err(m),
            Ok(st) => record_step(st, lines.last(), lines.len()),
        }
    }
}

/// A scenario line.
#[derive(Debug, PartialEq, Eq)]
pub struct ScenarioLine {
    pub line: usize,
    pub name: String,
    pub probability: String,
    pub assumption: String,
}

/// A flow line.
#[derive(Debug, PartialEq, Eq)]
pub struct FlowLine {
    pub line: usize,
    pub scenario: String,
    pub relation: String,
    pub source: String,
    pub destination: String,
    pub kind: ResourceKind,
    pub quantity: u64,
}

/// A charge line.
#[derive(Debug, PartialEq, Eq)]
pub struct ChargeLine {
    pub line: usize,
    pub scenario: String,
    pub target: String,
    pub kind: ResourceKind,
    pub quantity: u64,
}

/// The records of an events file, each kind in line order.
#[derive(Debug, PartialEq, Eq)]
pub struct EventRecords {
    pub scenarios: Vec<ScenarioLine>,
    pub flows: Vec<FlowLine>,
    pub charges: Vec<ChargeLine>,
}

/// Why an events file was refused.
#[derive(Debug, PartialEq, Eq)]
pub struct EventsError {
    pub message: String,
}

impl EventsError {
    /// The error's message.
    pub fn to_string(&self) -> (s: String)
        ensures
            s@ == self.message@,
    {
        owned(self.message.as_str())
    }
}

pub open spec fn scenario_view(s: ScenarioLine) -> ScenarioView {
    (s.line as nat, s.name@, s.probability@, s.assumption@)
}

pub open spec fn flow_view(f: FlowLine) -> FlowView {
    (f.line as nat, f.scenario@, f.relation@, f.source@, f.destination@, f.kind, f.quantity)
}

pub open spec fn charge_view(c: ChargeLine) -> ChargeView {
    (c.line as nat, c.scenario@, c.target@, c.kind, c.quantity)
}

pub open spec fn records_view(r: EventRecords) -> RecordsView {
    (
        r.scenarios@.map_values(|s: ScenarioLine| scenario_view(s)),
        r.flows@.map_values(|f: FlowLine| flow_view(f)),
        r.charges@.map_values(|c: ChargeLine| charge_view(c)),
    )
}

/// The pieces of `s` between `sep` characters.
fn split_chars(s: &Vec<char>, sep: char) -> (r: Vec<Vec<char>>)
    ensures
        r@.map_values(|v: Vec<char>| v@) == split_on(s@, sep),
{
    let mut done: Vec<Vec<char>> = Vec::new();
    let mut cur: Vec<char> = Vec::new();
    let mut i: usize = 0;
    proof {
        assert(s@.take(0) =~= Seq::<char>::empty());
        assert(done@.map_values(|v: Vec<char>| v@).push(cur@) =~= split_on(s@.take(0), sep));
    }
    while i < s.len()
        invariant
            i <= s@.len(),
            done@.map_values(|v: Vec<char>| v@).push(cur@) == split_on(s@.take(i as int), sep),
        decreases s@.len() - i,
    {
        let c = s[i];
        let ghost before = done@.map_values(|v: Vec<char>| v@).push(cur@);
        proof {
            assert(s@.take(i + 1).drop_last() =~= s@.take(i as int));
            assert(s@.take(i + 1).last() == c);
            lemma_split_on_nonempty(s@.take(i as int), sep);
        }
        if c == sep {
            let piece = cur;
            done.push(piece);
            cur = Vec::new();
            proof {
                assert(done@.map_values(|v: Vec<char>| v@).push(cur@) =~= before.push(Seq::<char>::empty()));
            }
        } else {
            cur.push(c);
            proof {
                assert(done@.map_values(|v: Vec<char>| v@).push(cur@) =~= before.update(
                    before.len() - 1,
                    before.last().push(c),
                ));
            }
        }
        i = i + 1;
    }
    proof {
        assert(s@.take(i as int) =~= s@);
    }
    done.push(cur);
    proof {
        assert(done@.map_values(|v: Vec<char>| v@) =~= split_on(s@, sep));
    }
    done
}

/// The lines of the text.
fn text_lines(source: &str) -> (r: Vec<Vec<char>>)
    ensures
        r@.map_values(|v: Vec<char>| v@) == event_lines(source@),
{
    let cs = chars_of(source);
    let parts = split_chars(&cs, '\n');
    let ghost pv = parts@.map_values(|v: Vec<char>| v@);
    proof {
        lemma_split_on_nonempty(source@, '\n');
    }
    let mut lines: Vec<Vec<char>> = Vec::new();
    let mut i: usize = 0;
    while i < parts.len() - 1
        invariant
            pv == parts@.map_values(|v: Vec<char>| v@),
            pv == split_on(source@, '\n'),
            parts@.len() >= 1,
            i + 1 <= parts@.len(),
            lines@.map_values(|v: Vec<char>| v@) == pv.drop_last().take(i as int).map_values(|p: Seq<char>| strip_cr(p)),
        decreases parts@.len() - i,
    {
        let p = &parts[i];
        let mut line: Vec<char> = Vec::new();
        let mut k: usize = 0;
        let end: usize = if p.len() > 0 && p[p.len() - 1] == '\r' {
            p.len() - 1
        } else {
            p.len()
        };
        while k < end
            invariant
                end <= p@.len(),
                k <= end,
                line@ == p@.take(k as int),
            decreases end - k,
        {
            line.push(p[k]);
            proof {
                assert(p@.take(k + 1) =~= p@.take(k as int).push(p@[k as int]));
            }
            k = k + 1;
        }
        let ghost before = lines@.map_values(|v: Vec<char>| v@);
        proof {
            assert(line@ =~= strip_cr(p@));
        }
        lines.push(line);
        proof {
            assert(lines@.map_values(|v: Vec<char>| v@) =~= before.push(strip_cr(pv[i as int])));
            assert(pv.drop_last().take(i + 1).map_values(|q: Seq<char>| strip_cr(q)) =~= pv.drop_last().take(
                i as int,
            ).map_values(|q: Seq<char>| strip_cr(q)).push(strip_cr(pv[i as int])));
        }
        i = i + 1;
    }
    proof {
        assert(pv.drop_last().take(i as int) =~= pv.drop_last());
    }
    let last = &parts[parts.len() - 1];
    if last.len() > 0 {
        let mut copy: Vec<char> = Vec::new();
        let mut k: usize = 0;
        while k < last.len()
            invariant
                k <= last@.len(),
                copy@ == last@.take(k as int),
            decreases last@.len() - k,
        {
            copy.push(last[k]);
            proof {
                assert(last@.take(k + 1) =~= last@.take(k as int).push(last@[k as int]));
            }
            k = k + 1;
        }
        let ghost before = lines@.map_values(|v: Vec<char>| v@);
        proof {
            assert(copy@ =~= last@);
        }
        lines.push(copy);
        proof {
            assert(lines@.map_values(|v: Vec<char>| v@) =~= before.push(pv.last()));
        }
    }
    lines
}

fn blank_chars(l: &Vec<char>) -> (b: bool)
    ensures
        b == is_blank(l@),
{
    let mut i: usize = 0;
    while i < l.len()
        invariant
            i <= l@.len(),
            forall|j: int| 0 <= j < i ==> is_whitespace(#[trigger] l@[j]),
        decreases l@.len() - i,
    {
        if !char_is_whitespace(l[i]) {
            return false;
        }
        i = i + 1;
    }
    true
}

fn comment_chars(l: &Vec<char>) -> (b: bool)
    ensures
        b == is_comment(l@),
{
    let mut i: usize = 0;
    while i < l.len()
        invariant
            i <= l@.len(),
            forall|j: int| 0 <= j < i ==> is_whitespace(#[trigger] l@[j]),
        decreases l@.len() - i,
    {
        if !char_is_whitespace(l[i]) {
            proof {
                if is_comment(l@) {
                    let k = choose|k: int| 0 <= k < l@.len() && l@[k] == '#' && forall|j: int| 0 <= j < k ==> is_whitespace(#[trigger] l@[j]);
                    if k > i {
                        assert(is_whitespace(l@[i as int]));
                    }
                    if k < i {
                        assert(is_whitespace(l@[k]));
                    }
                }
            }
            return l[i] == '#';
        }
        i = i + 1;
    }
    proof {
        if is_comment(l@) {
            let k = choose|k: int| 0 <= k < l@.len() && l@[k] == '#' && forall|j: int| 0 <= j < k ==> is_whitespace(#[trigger] l@[j]);
            assert(is_whitespace(l@[k]));
        }
    }
    false
}

fn quantity_of(s: &Vec<char>) -> (r: Option<u64>)
    ensures
        match r {
            Some(v) => is_quantity_text(s@) && v == quantity_value(s@),
            None => !is_quantity_text(s@),
        },
{
    if s.len() > 0 && s[0] == '+' {
        let all = s.as_slice();
        let rest = &all[1..all.len()];
        proof {
            assert(rest@ =~= s@.drop_first());
        }
        parse_u64(rest)
    } else {
        parse_u64(s.as_slice())
    }
}

fn lower_char(c: char) -> (r: char)
    ensures
        r == lower(c),
{
    if 'A' <= c && c <= 'Z' {
        let b = (c as u8) + 32;
        let r = b as char;
        proof {
            assert((c as u32) < 256);
            assert(r as u32 == (c as u32) + 32);
        }
        r
    } else {
        c
    }
}

fn all_digit_chars(d: &[char]) -> (b: bool)
    ensures
        b == all_digits(d@),
{
    let mut i: usize = 0;
    while i < d.len()
        invariant
            i <= d@.len(),
            forall|j: int| 0 <= j < i ==> is_digit(#[trigger] d@[j]),
        decreases d@.len() - i,
    {
        if !char_is_digit(d[i]) {
            return false;
        }
        i = i + 1;
    }
    true
}

fn mantissa(m: &[char]) -> (b: bool)
    ensures
        b == is_mantissa(m@),
{
    let mut digits = false;
    let mut dots: usize = 0;
    let mut i: usize = 0;
    let mut dot_at: usize = 0;
    while i < m.len()
        invariant
            i <= m@.len(),
            dots <= 1,
            digits == (exists|j: int| 0 <= j < i && is_digit(#[trigger] m@[j])),
            forall|j: int| 0 <= j < i ==> is_digit(#[trigger] m@[j]) || m@[j] == '.',
            dots == 0 ==> forall|j: int| 0 <= j < i ==> #[trigger] m@[j] != '.',
            dots == 1 ==> dot_at < i && m@[dot_at as int] == '.' && forall|j: int| 0 <= j < i && j != dot_at ==> #[trigger] m@[j] != '.',
        decreases m@.len() - i,
    {
        let c = m[i];
        if char_is_digit(c) {
            digits = true;
        } else if c == '.' {
            if dots == 1 {
                proof {
                    assert(m@[dot_at as int] == '.' && m@[i as int] == '.');
                    assert(!is_mantissa(m@));
                }
                return false;
            }
            dots = 1;
            dot_at = i;
        } else {
            proof {
                assert(!(is_digit(m@[i as int]) || m@[i as int] == '.'));
            }
            return false;
        }
        i = i + 1;
    }
    proof {
        if digits {
            let j = choose|j: int| 0 <= j < i && is_digit(#[trigger] m@[j]);
            assert(is_digit(m@[j]));
        }
        assert forall|a: int, b: int| 0 <= a < b < m@.len() implies !(#[trigger] m@[a] == '.' && #[trigger] m@[b] == '.') by {
            if dots == 1 && m@[a] == '.' && m@[b] == '.' {
                assert(a == dot_at && b == dot_at);
            }
        }
    }
    digits
}

fn exponent(e: &[char]) -> (b: bool)
    ensures
        b == is_exponent(e@),
{
    if e.len() > 0 && (e[0] == '+' || e[0] == '-') {
        let d = &e[1..e.len()];
        proof {
            assert(d@ =~= e@.drop_first());
        }
        d.len() > 0 && all_digit_chars(d)
    } else {
        e.len() > 0 && all_digit_chars(e)
    }
}

fn number_chars(b: &[char]) -> (r: bool)
    ensures
        r == is_number_text(b@),
{
    let mut p: usize = 0;
    while p < b.len() && b[p] != 'e'
        invariant
            p <= b@.len(),
            forall|q: int| 0 <= q < p ==> b@[q] != 'e',
        decreases b@.len() - p,
    {
        p = p + 1;
    }
    if p == b.len() {
        proof {
            if exists|q: int| 0 <= q < b@.len() && b@[q] == 'e' {
                let q = choose|q: int| 0 <= q < b@.len() && b@[q] == 'e';
                assert(b@[q] != 'e');
            }
        }
        mantissa(b)
    } else {
        let m = &b[0..p];
        let e = &b[p + 1..b.len()];
        proof {
            assert(m@ =~= b@.take(p as int));
            assert(e@ =~= b@.skip(p + 1));
            let c = choose|c: int| 0 <= c < b@.len() && b@[c] == 'e' && forall|q: int| 0 <= q < c ==> b@[q] != 'e';
            assert(b@[p as int] == 'e');
            if c < p {
                assert(b@[c] != 'e');
            }
            if c > p {
                assert(b@[p as int] != 'e');
            }
            assert(c == p);
        }
        mantissa(m) && exponent(e)
    }
}

fn spells_slice(cs: &[char], lit: &str) -> (b: bool)
    ensures
        b == (cs@ == lit@),
{
    let l = chars_of(lit);
    crate::map::chars_equal(cs, l.as_slice())
}

fn float_chars(s: &Vec<char>) -> (r: bool)
    ensures
        r == is_float_text(s@),
{
    let mut t: Vec<char> = Vec::new();
    let mut i: usize = 0;
    while i < s.len()
        invariant
            i <= s@.len(),
            t@ == lowered(s@.take(i as int)),
        decreases s@.len() - i,
    {
        t.push(lower_char(s[i]));
        proof {
            assert(lowered(s@.take(i + 1)) =~= lowered(s@.take(i as int)).push(lower(s@[i as int])));
        }
        i = i + 1;
    }
    proof {
        assert(s@.take(i as int) =~= s@);
    }
    let body: &[char] = if t.len() > 0 && (t[0] == '+' || t[0] == '-') {
        let all = t.as_slice();
        &all[1..all.len()]
    } else {
        t.as_slice()
    };
    let ghost bv = if t@.len() > 0 && (t@[0] == '+' || t@[0] == '-') {
        t@.drop_first()
    } else {
        t@
    };
    proof {
        assert(body@ =~= bv);
    }
    spells_slice(body, "inf") || spells_slice(body, "infinity") || spells_slice(body, "nan") || number_chars(body)
}

fn line_error(n: usize, message: &str) -> (e: EventsError)
    ensures
        e.message@ == line_message(n as nat, message@),
{
    let mut s = owned("events line ");
    push_decimal(&mut s, n as u64);
    push_str(&mut s, ": ");
    push_str(&mut s, message);
    EventsError { message: s }
}

fn scenario_exists(scenarios: &Vec<ScenarioLine>, name: &Vec<char>) -> (b: bool)
    ensures
        b == scenario_named(scenarios@.map_values(|s: ScenarioLine| scenario_view(s)), name@),
{
    let ghost v = scenarios@.map_values(|s: ScenarioLine| scenario_view(s));
    let mut i: usize = 0;
    while i < scenarios.len()
        invariant
            v == scenarios@.map_values(|s: ScenarioLine| scenario_view(s)),
            i <= scenarios@.len(),
            forall|j: int| 0 <= j < i ==> #[trigger] v[j].1 != name@,
        decreases scenarios@.len() - i,
    {
        let cs = chars_of(scenarios[i].name.as_str());
        if crate::map::chars_equal(cs.as_slice(), name.as_slice()) {
            proof {
                assert(v[i as int].1 == name@);
            }
            return true;
        }
        i = i + 1;
    }
    false
}

/// Reads line `n` into the records.
#[verifier::rlimit(40)]
fn read_line(records: &mut EventRecords, l: &Vec<char>, n: usize) -> (r: Result<(), EventsError>)
    ensures
        match record_step(records_view(*old(records)), l@, n as nat) {
            Ok(v) => r is Ok && records_view(*final(records)) == v,
            Err(m) => r matches Err(e) && e.message@ == m,
        },
{
    if blank_chars(l) || comment_chars(l) {
        return Ok(());
    }
    let f = split_chars(l, '\t');
    let ghost fv = f@.map_values(|v: Vec<char>| v@);
    proof {
        lemma_split_on_nonempty(l@, '\t');
        assert(fv[0] == f@[0]@);
    }
    if spells(&f[0], "scenario") && f.len() == 4 {
        proof {
            assert(fv[1] == f@[1]@ && fv[2] == f@[2]@ && fv[3] == f@[3]@);
        }
        if scenario_exists(&records.scenarios, &f[1]) {
            return Err(line_error(n, "scenario is repeated"));
        }
        if !float_chars(&f[2]) {
            return Err(line_error(n, "probability is not a number"));
        }
        let ghost before = records.scenarios@;
        records.scenarios.push(
            ScenarioLine {
                line: n,
                name: string_of(f[1].as_slice()),
                probability: string_of(f[2].as_slice()),
                assumption: string_of(f[3].as_slice()),
            },
        );
        proof {
            assert(records.scenarios@.map_values(|s: ScenarioLine| scenario_view(s)) =~= before.map_values(
                |s: ScenarioLine| scenario_view(s),
            ).push((n as nat, fv[1], fv[2], fv[3])));
        }
        Ok(())
    } else if spells(&f[0], "flow") && f.len() == 7 {
        proof {
            assert(fv[1] == f@[1]@ && fv[2] == f@[2]@ && fv[3] == f@[3]@ && fv[4] == f@[4]@ && fv[5] == f@[5]@
                && fv[6] == f@[6]@);
        }
        let kind_text = string_of(f[5].as_slice());
        let kind = match ResourceKind::parse(kind_text.as_str()) {
            Some(k) => k,
            None => {
                let mut m = owned("unknown resource `");
                push_str(&mut m, kind_text.as_str());
                push_str(&mut m, "`");
                return Err(line_error(n, m.as_str()));
            },
        };
        let quantity = match quantity_of(&f[6]) {
            Some(q) => q,
            None => {
                return Err(line_error(n, "quantity is not a nonnegative integer"));
            },
        };
        let ghost before = records.flows@;
        records.flows.push(
            FlowLine {
                line: n,
                scenario: string_of(f[1].as_slice()),
                relation: string_of(f[2].as_slice()),
                source: string_of(f[3].as_slice()),
                destination: string_of(f[4].as_slice()),
                kind,
                quantity,
            },
        );
        proof {
            assert(records.flows@.map_values(|f: FlowLine| flow_view(f)) =~= before.map_values(|f: FlowLine| flow_view(f)).push(
                (n as nat, fv[1], fv[2], fv[3], fv[4], kind, quantity),
            ));
        }
        Ok(())
    } else if spells(&f[0], "charge") && f.len() == 5 {
        proof {
            assert(fv[1] == f@[1]@ && fv[2] == f@[2]@ && fv[3] == f@[3]@ && fv[4] == f@[4]@);
        }
        let kind_text = string_of(f[3].as_slice());
        let kind = match ResourceKind::parse(kind_text.as_str()) {
            Some(k) => k,
            None => {
                let mut m = owned("unknown resource `");
                push_str(&mut m, kind_text.as_str());
                push_str(&mut m, "`");
                return Err(line_error(n, m.as_str()));
            },
        };
        let quantity = match quantity_of(&f[4]) {
            Some(q) => q,
            None => {
                return Err(line_error(n, "quantity is not a nonnegative integer"));
            },
        };
        let ghost before = records.charges@;
        records.charges.push(
            ChargeLine {
                line: n,
                scenario: string_of(f[1].as_slice()),
                target: string_of(f[2].as_slice()),
                kind,
                quantity,
            },
        );
        proof {
            assert(records.charges@.map_values(|c: ChargeLine| charge_view(c)) =~= before.map_values(
                |c: ChargeLine| charge_view(c),
            ).push((n as nat, fv[1], fv[2], kind, quantity)));
        }
        Ok(())
    } else {
        let mut m = owned("invalid record `");
        let first = string_of(f[0].as_slice());
        push_str(&mut m, first.as_str());
        push_str(&mut m, "`");
        Err(line_error(n, m.as_str()))
    }
}

proof fn lemma_records_refused(lines: Seq<Seq<char>>, j: int)
    requires
        0 <= j <= lines.len(),
        read_records(lines.take(j)) is Err,
    ensures
        read_records(lines) == read_records(lines.take(j)),
    decreases lines.len(),
{
    if j == lines.len() {
        assert(lines.take(j) =~= lines);
    } else {
        assert(lines.drop_last().take(j) =~= lines.take(j));
        lemma_records_refused(lines.drop_last(), j);
    }
}

/// Reads the records of an events file, line by line; the first refused
/// line decides the error.
pub fn read_event_records(source: &str) -> (r: Result<EventRecords, EventsError>)
    ensures
        match read_records(event_lines(source@)) {
            Ok(v) => r matches Ok(records) && records_view(records) == v,
            Err(m) => r matches Err(e) && e.message@ == m,
        },
{
    let lines = text_lines(source);
    let ghost lv = lines@.map_values(|v: Vec<char>| v@);
    let mut records = EventRecords { scenarios: Vec::new(), flows: Vec::new(), charges: Vec::new() };
    let mut i: usize = 0;
    proof {
        assert(lv.take(0) =~= Seq::<Seq<char>>::empty());
        assert(records_view(records) =~= (Seq::<ScenarioView>::empty(), Seq::<FlowView>::empty(), Seq::<ChargeView>::empty()));
    }
    while i < lines.len()
        invariant
            lv == lines@.map_values(|v: Vec<char>| v@),
            lv == event_lines(source@),
            i <= lines@.len(),
            read_records(lv.take(i as int)) == Ok::<RecordsView, Seq<char>>(records_view(records)),
        decreases lines@.len() - i,
    {
        proof {
            assert(lv.take(i + 1).drop_last() =~= lv.take(i as int));
            assert(lv.take(i + 1).last() == lines@[i as int]@);
        }
        let step = read_line(&mut records, &lines[i], i + 1);
        if let Err(e) = step {
            proof {
                lemma_records_refused(lv, i + 1);
            }
            return Err(e);
        }
        i = i + 1;
    }
    proof {
        assert(lv.take(i as int) =~= lv);
    }
    Ok(records)
}

/// A grouping key: the texts that identify a flow or a charge.
pub type Key = Seq<Seq<char>>;

/// One quantity of one kind.
pub type Entry = (ResourceKind, u64);

/// Keys in lexicographic order of their texts.
pub open spec fn keys_lt(a: Key, b: Key) -> bool
    decreases a.len(),
{
    if b.len() == 0 {
        false
    } else if a.len() == 0 {
        true
    } else if a[0] != b[0] {
        seq_lt(a[0], b[0])
    } else {
        keys_lt(a.drop_first(), b.drop_first())
    }
}

/// `k` added to increasing distinct keys, in its place.
pub open spec fn insert_key(ks: Seq<Key>, k: Key) -> Seq<Key>
    decreases ks.len(),
{
    if ks.len() == 0 {
        seq![k]
    } else if ks[0] == k {
        ks
    } else if keys_lt(k, ks[0]) {
        seq![k] + ks
    } else {
        seq![ks[0]] + insert_key(ks.drop_first(), k)
    }
}

/// The distinct keys, in increasing order.
pub open spec fn sorted_keys(pairs: Seq<(Key, Entry)>) -> Seq<Key>
    decreases pairs.len(),
{
    if pairs.len() == 0 {
        Seq::empty()
    } else {
        insert_key(sorted_keys(pairs.drop_last()), pairs.last().0)
    }
}

/// The entries recorded under `k`, in order.
pub open spec fn grouped(pairs: Seq<(Key, Entry)>, k: Key) -> Seq<Entry>
    decreases pairs.len(),
{
    if pairs.len() == 0 {
        Seq::empty()
    } else if pairs.last().0 == k {
        grouped(pairs.drop_last(), k).push(pairs.last().1)
    } else {
        grouped(pairs.drop_last(), k)
    }
}

pub open spec fn flow_pairs(flows: Seq<FlowView>) -> Seq<(Key, Entry)> {
    flows.map_values(|f: FlowView| (seq![f.1, f.2, f.3, f.4], (f.5, f.6)))
}

pub open spec fn charge_pairs(charges: Seq<ChargeView>) -> Seq<(Key, Entry)> {
    charges.map_values(|c: ChargeView| (seq![c.1, c.2], (c.3, c.4)))
}

/// The first assignment whose kind occurred before.
pub open spec fn first_repeat(entries: Seq<Entry>) -> Option<int>
    decreases entries.len(),
{
    if entries.len() == 0 {
        None
    } else {
        match first_repeat(entries.drop_last()) {
            Some(j) => Some(j),
            None => if exists|i: int| 0 <= i < entries.len() - 1 && #[trigger] entries[i].0 == entries.last().0 {
                Some(entries.len() - 1)
            } else {
                None
            },
        }
    }
}

pub open spec fn address_message(s: Seq<char>) -> Seq<char> {
    "invalid address `"@ + s + "`"@
}

/// What is wrong with one group, if anything: an unknown scenario, a kind
/// given twice, or a text that is not an address, in that order. A flow key
/// holds scenario, relation, source and destination; a charge key scenario
/// and target.
pub open spec fn group_problem(scen: Seq<ScenarioView>, key: Key, entries: Seq<Entry>, what: Seq<char>) -> Option<Seq<char>> {
    if !scenario_named(scen, key[0]) {
        Some(what + " references unknown scenario `"@ + key[0] + "`"@)
    } else {
        match first_repeat(entries) {
            Some(j) => Some("resource bundle repeats `"@ + kind_name(entries[j].0) + "`"@),
            None => if !is_address_text(key[1]) {
                Some(address_message(key[1]))
            } else if key.len() > 2 && !is_address_text(key[2]) {
                Some(address_message(key[2]))
            } else if key.len() > 3 && !is_address_text(key[3]) {
                Some(address_message(key[3]))
            } else {
                None
            },
        }
    }
}

/// The problem of the first group, in key order, that has one.
pub open spec fn first_problem(scen: Seq<ScenarioView>, keys: Seq<Key>, pairs: Seq<(Key, Entry)>, what: Seq<char>) -> Option<
    Seq<char>,
>
    decreases keys.len(),
{
    if keys.len() == 0 {
        None
    } else {
        match group_problem(scen, keys[0], grouped(pairs, keys[0]), what) {
            Some(m) => Some(m),
            None => first_problem(scen, keys.drop_first(), pairs, what),
        }
    }
}

/// What is wrong with the records, if anything: flows are checked before
/// charges.
pub open spec fn events_problem(v: RecordsView) -> Option<Seq<char>> {
    match first_problem(v.0, sorted_keys(flow_pairs(v.1)), flow_pairs(v.1), "flow"@) {
        Some(m) => Some(m),
        None => first_problem(v.0, sorted_keys(charge_pairs(v.2)), charge_pairs(v.2), "charge"@),
    }
}

proof fn lemma_insert_key(ks: Seq<Key>, k: Key, p: int)
    requires
        0 <= p <= ks.len(),
        forall|q: int| 0 <= q < p ==> #[trigger] ks[q] != k && !keys_lt(k, ks[q]),
        p < ks.len() ==> (ks[p] == k || keys_lt(k, ks[p])),
    ensures
        insert_key(ks, k) == if p < ks.len() && ks[p] == k {
            ks
        } else {
            ks.insert(p, k)
        },
    decreases ks.len(),
{
    if ks.len() == 0 {
        assert(ks.insert(p, k) =~= seq![k]);
    } else if p == 0 {
        assert(ks.insert(p, k) =~= seq![k] + ks);
    } else {
        let rest = ks.drop_first();
        assert(ks[0] != k && !keys_lt(k, ks[0]));
        assert forall|q: int| 0 <= q < p - 1 implies #[trigger] rest[q] != k && !keys_lt(k, rest[q]) by {
            assert(rest[q] == ks[q + 1]);
        }
        if p - 1 < rest.len() {
            assert(rest[p - 1] == ks[p]);
        }
        lemma_insert_key(rest, k, p - 1);
        if p < ks.len() && ks[p] == k {
            assert(seq![ks[0]] + rest =~= ks);
        } else {
            assert(ks.insert(p, k) =~= seq![ks[0]] + rest.insert(p - 1, k));
        }
    }
}

proof fn lemma_insert_key_contains(ks: Seq<Key>, k: Key, x: Key)
    ensures
        insert_key(ks, k).contains(x) <==> (ks.contains(x) || x == k),
    decreases ks.len(),
{
    if ks.len() == 0 {
        assert(insert_key(ks, k)[0] == k);
    } else if ks[0] == k {
    } else if keys_lt(k, ks[0]) {
        let r = seq![k] + ks;
        if ks.contains(x) {
            let i = choose|i: int| 0 <= i < ks.len() && ks[i] == x;
            assert(r[i + 1] == x);
        }
        if r.contains(x) && x != k {
            let i = choose|i: int| 0 <= i < r.len() && r[i] == x;
            assert(ks[i - 1] == x);
        }
        assert(r[0] == k);
    } else {
        let rest = ks.drop_first();
        lemma_insert_key_contains(rest, k, x);
        let r = seq![ks[0]] + insert_key(rest, k);
        if ks.contains(x) && x != ks[0] {
            let i = choose|i: int| 0 <= i < ks.len() && ks[i] == x;
            assert(rest[i - 1] == x);
        }
        if rest.contains(x) {
            let i = choose|i: int| 0 <= i < rest.len() && rest[i] == x;
            assert(ks[i + 1] == x);
        }
        if r.contains(x) && x != ks[0] {
            let i = choose|i: int| 0 <= i < r.len() && r[i] == x;
            assert(insert_key(rest, k)[i - 1] == x);
        }
        if insert_key(rest, k).contains(x) {
            let i = choose|i: int| 0 <= i < insert_key(rest, k).len() && insert_key(rest, k)[i] == x;
            assert(r[i + 1] == x);
        }
        assert(r[0] == ks[0]);
    }
}

/// The sorted keys are exactly the keys that occur.
pub proof fn lemma_sorted_keys_contains(pairs: Seq<(Key, Entry)>, x: Key)
    ensures
        sorted_keys(pairs).contains(x) <==> exists|i: int| 0 <= i < pairs.len() && #[trigger] pairs[i].0 == x,
    decreases pairs.len(),
{
    if pairs.len() > 0 {
        lemma_sorted_keys_contains(pairs.drop_last(), x);
        lemma_insert_key_contains(sorted_keys(pairs.drop_last()), pairs.last().0, x);
        if exists|i: int| 0 <= i < pairs.len() && #[trigger] pairs[i].0 == x {
            let i = choose|i: int| 0 <= i < pairs.len() && #[trigger] pairs[i].0 == x;
            if i < pairs.len() - 1 {
                assert(pairs.drop_last()[i].0 == x);
            }
        }
        if exists|i: int| 0 <= i < pairs.len() - 1 && #[trigger] pairs.drop_last()[i].0 == x {
            let i = choose|i: int| 0 <= i < pairs.len() - 1 && #[trigger] pairs.drop_last()[i].0 == x;
            assert(pairs[i].0 == x);
        }
    }
}

/// A key that never occurs has no entries.
proof fn lemma_grouped_absent(pairs: Seq<(Key, Entry)>, k: Key)
    requires
        forall|i: int| 0 <= i < pairs.len() ==> #[trigger] pairs[i].0 != k,
    ensures
        grouped(pairs, k) == Seq::<Entry>::empty(),
    decreases pairs.len(),
{
    if pairs.len() > 0 {
        assert forall|i: int| 0 <= i < pairs.len() - 1 implies #[trigger] pairs.drop_last()[i].0 != k by {
            assert(pairs.drop_last()[i] == pairs[i]);
        }
        lemma_grouped_absent(pairs.drop_last(), k);
    }
}

pub open spec fn key_view(v: Vec<String>) -> Key {
    v@.map_values(|s: String| s@)
}

pub open spec fn keys_view(v: Seq<Vec<String>>) -> Seq<Key> {
    v.map_values(|k: Vec<String>| key_view(k))
}

fn key_less(a: &Vec<String>, b: &Vec<String>) -> (r: bool)
    ensures
        r == keys_lt(key_view(*a), key_view(*b)),
{
    let ghost av = key_view(*a);
    let ghost bv = key_view(*b);
    let mut i: usize = 0;
    proof {
        assert(av.skip(0) =~= av);
        assert(bv.skip(0) =~= bv);
    }
    while i < a.len() && i < b.len() && str_eq(a[i].as_str(), b[i].as_str())
        invariant
            av == key_view(*a),
            bv == key_view(*b),
            i <= a@.len(),
            i <= b@.len(),
            keys_lt(av, bv) == keys_lt(av.skip(i as int), bv.skip(i as int)),
        decreases a@.len() - i,
    {
        proof {
            assert(av.skip(i as int)[0] == av[i as int]);
            assert(bv.skip(i as int)[0] == bv[i as int]);
            assert(av.skip(i as int).drop_first() =~= av.skip(i + 1));
            assert(bv.skip(i as int).drop_first() =~= bv.skip(i + 1));
        }
        i = i + 1;
    }
    proof {
        if i < a.len() {
            assert(av.skip(i as int)[0] == av[i as int]);
        }
        if i < b.len() {
            assert(bv.skip(i as int)[0] == bv[i as int]);
        }
    }
    if i == b.len() {
        false
    } else if i == a.len() {
        true
    } else {
        str_lt(a[i].as_str(), b[i].as_str())
    }
}

fn key_equal(a: &Vec<String>, b: &Vec<String>) -> (r: bool)
    ensures
        r == (key_view(*a) == key_view(*b)),
{
    if a.len() != b.len() {
        proof {
            assert(key_view(*a).len() != key_view(*b).len());
        }
        return false;
    }
    let mut i: usize = 0;
    while i < a.len()
        invariant
            a@.len() == b@.len(),
            i <= a@.len(),
            forall|j: int| 0 <= j < i ==> a@[j]@ == b@[j]@,
        decreases a@.len() - i,
    {
        if !str_eq(a[i].as_str(), b[i].as_str()) {
            proof {
                assert(key_view(*a)[i as int] != key_view(*b)[i as int]);
            }
            return false;
        }
        i = i + 1;
    }
    proof {
        assert(key_view(*a) =~= key_view(*b));
    }
    true
}

fn copy_key(k: &Vec<String>) -> (r: Vec<String>)
    ensures
        key_view(r) == key_view(*k),
{
    let mut out: Vec<String> = Vec::new();
    let mut i: usize = 0;
    while i < k.len()
        invariant
            i <= k@.len(),
            out@.len() == i,
            forall|j: int| 0 <= j < i ==> out@[j]@ == k@[j]@,
        decreases k@.len() - i,
    {
        out.push(k[i].clone());
        i = i + 1;
    }
    proof {
        assert(key_view(out) =~= key_view(*k));
    }
    out
}

proof fn lemma_keys_lt_irreflexive(a: Key)
    ensures
        !keys_lt(a, a),
    decreases a.len(),
{
    if a.len() > 0 {
        lemma_keys_lt_irreflexive(a.drop_first());
    }
}

proof fn lemma_keys_lt_transitive(a: Key, b: Key, c: Key)
    ensures
        keys_lt(a, b) && keys_lt(b, c) ==> keys_lt(a, c),
    decreases a.len(),
{
    if a.len() > 0 && b.len() > 0 && c.len() > 0 {
        lemma_seq_lt_transitive(a[0], b[0], c[0]);
        lemma_seq_lt_irreflexive(a[0]);
        lemma_seq_lt_asymmetric(a[0], b[0]);
        lemma_seq_lt_asymmetric(b[0], c[0]);
        lemma_keys_lt_transitive(a.drop_first(), b.drop_first(), c.drop_first());
    }
}

proof fn lemma_keys_lt_total(a: Key, b: Key)
    ensures
        a != b ==> keys_lt(a, b) || keys_lt(b, a),
    decreases a.len(),
{
    if a.len() > 0 && b.len() > 0 {
        lemma_seq_lt_total(a[0], b[0]);
        if a[0] == b[0] {
            lemma_keys_lt_total(a.drop_first(), b.drop_first());
            if a.drop_first() == b.drop_first() {
                assert(a =~= seq![a[0]] + a.drop_first());
                assert(b =~= seq![b[0]] + b.drop_first());
            }
        }
    } else if a.len() == 0 && b.len() == 0 {
        assert(a =~= b);
    }
}

/// The entries grouped by key, the keys distinct and increasing.
fn group_pairs(pairs: &Vec<(Vec<String>, Entry)>) -> (r: (Vec<Vec<String>>, Vec<Vec<Entry>>))
    ensures
        keys_view(r.0@) == sorted_keys(pairs@.map_values(|p: (Vec<String>, Entry)| (key_view(p.0), p.1))),
        r.1@.len() == r.0@.len(),
        forall|g: int| 0 <= g < r.0@.len() ==> #[trigger] r.1@[g]@ == grouped(
            pairs@.map_values(|p: (Vec<String>, Entry)| (key_view(p.0), p.1)),
            key_view(r.0@[g]),
        ),
{
    let ghost pv = pairs@.map_values(|p: (Vec<String>, Entry)| (key_view(p.0), p.1));
    let mut keys: Vec<Vec<String>> = Vec::new();
    let mut groups: Vec<Vec<Entry>> = Vec::new();
    let mut i: usize = 0;
    proof {
        assert(pv.take(0) =~= Seq::<(Key, Entry)>::empty());
        assert(keys_view(keys@) =~= Seq::<Key>::empty());
    }
    while i < pairs.len()
        invariant
            pv == pairs@.map_values(|p: (Vec<String>, Entry)| (key_view(p.0), p.1)),
            i <= pairs@.len(),
            keys_view(keys@) == sorted_keys(pv.take(i as int)),
            forall|a: int, b: int|
                0 <= a < b < keys@.len() ==> keys_lt(#[trigger] keys_view(keys@)[a], #[trigger] keys_view(keys@)[b]),
            groups@.len() == keys@.len(),
            forall|g: int| 0 <= g < keys@.len() ==> #[trigger] groups@[g]@ == grouped(pv.take(i as int), key_view(keys@[g])),
        decreases pairs@.len() - i,
    {
        let k = &pairs[i].0;
        let e = pairs[i].1;
        let ghost kv = key_view(*k);
        let ghost prior = pv.take(i as int);
        let ghost next = pv.take(i + 1);
        let ghost kvs = keys_view(keys@);
        proof {
            assert(next.drop_last() =~= prior);
            assert(pv[i as int] == (kv, e));
            assert(next.last() == (kv, e));
        }
        let mut p: usize = 0;
        while p < keys.len() && !key_equal(&keys[p], k) && !key_less(k, &keys[p])
            invariant
                kv == key_view(*k),
                kvs == keys_view(keys@),
                p <= keys@.len(),
                forall|q: int| 0 <= q < p ==> #[trigger] kvs[q] != kv && !keys_lt(kv, kvs[q]),
            decreases keys@.len() - p,
        {
            proof {
                assert(kvs[p as int] == key_view(keys@[p as int]));
            }
            p = p + 1;
        }
        proof {
            if p < keys.len() {
                assert(kvs[p as int] == key_view(keys@[p as int]));
            }
            lemma_insert_key(kvs, kv, p as int);
        }
        if p < keys.len() && key_equal(&keys[p], k) {
            let ghost before = groups@;
            let mut g = Vec::new();
            std::mem::swap(&mut g, &mut groups[p]);
            g.push(e);
            groups.set(p, g);
            proof {
                assert forall|h: int| 0 <= h < keys@.len() implies #[trigger] groups@[h]@ == grouped(next, key_view(keys@[h])) by {
                    assert(kvs[h] == key_view(keys@[h]));
                    if h != p {
                        assert(groups@[h] == before[h]);
                        if h < p {
                            assert(keys_lt(kvs[h], kvs[p as int]));
                        } else {
                            assert(keys_lt(kvs[p as int], kvs[h]));
                        }
                        lemma_keys_lt_irreflexive(kv);
                    }
                }
            }
        } else {
            proof {
                lemma_sorted_keys_contains(prior, kv);
                lemma_keys_lt_irreflexive(kv);
                assert forall|j: int| 0 <= j < prior.len() implies #[trigger] prior[j].0 != kv by {
                    if prior[j].0 == kv {
                        assert(sorted_keys(prior).contains(kv));
                        let q = choose|q: int| 0 <= q < kvs.len() && kvs[q] == kv;
                        if q > p as int {
                            lemma_keys_lt_transitive(kv, kvs[p as int], kvs[q]);
                        }
                    }
                }
                lemma_grouped_absent(prior, kv);
            }
            let ghost before_keys = keys@;
            let ghost before_groups = groups@;
            keys.insert(p, copy_key(k));
            let mut fresh: Vec<Entry> = Vec::new();
            fresh.push(e);
            groups.insert(p, fresh);
            proof {
                assert(keys_view(keys@) =~= kvs.insert(p as int, kv));
                let nk = keys_view(keys@);
                assert forall|a: int, b: int| 0 <= a < b < keys@.len() implies keys_lt(#[trigger] nk[a], #[trigger] nk[b]) by {
                    if a < p && b == p {
                        lemma_keys_lt_total(kvs[a], kv);
                    } else if a < p && b > p {
                        assert(nk[b] == kvs[b - 1]);
                    } else if a == p && b > p {
                        assert(nk[b] == kvs[b - 1]);
                        if b - 1 > p {
                            lemma_keys_lt_transitive(kv, kvs[p as int], kvs[b - 1]);
                        }
                    } else if a > p {
                        assert(nk[a] == kvs[a - 1]);
                        assert(nk[b] == kvs[b - 1]);
                    }
                }
                assert forall|h: int| 0 <= h < keys@.len() implies #[trigger] groups@[h]@ == grouped(next, key_view(keys@[h])) by {
                    assert(nk[h] == key_view(keys@[h]));
                    if h < p {
                        assert(keys@[h] == before_keys[h]);
                        assert(groups@[h] == before_groups[h]);
                        assert(nk[p as int] == kv);
                        assert(keys_lt(nk[h], nk[p as int]));
                    } else if h > p {
                        assert(keys@[h] == before_keys[h - 1]);
                        assert(groups@[h] == before_groups[h - 1]);
                        assert(nk[p as int] == kv);
                        assert(keys_lt(nk[p as int], nk[h]));
                    } else {
                        assert(groups@[h]@ =~= seq![e]);
                        assert(Seq::<Entry>::empty().push(e) =~= seq![e]);
                    }
                }
            }
        }
        i = i + 1;
    }
    proof {
        assert(pv.take(i as int) =~= pv);
    }
    (keys, groups)
}

/// A scenario as read: its name, probability text and assumption, with its
/// flows and charges.
#[derive(Debug, PartialEq, Eq)]
pub struct ScenarioInput {
    pub name: String,
    pub probability: String,
    pub assumption: String,
    pub flows: Vec<ResourceFlow>,
    pub charges: Vec<ResourceCharge>,
}

/// The flow built from a group: its relation, source and destination, with
/// the quantities of its entries.
pub open spec fn flow_built(f: ResourceFlow, key: Key, entries: Seq<Entry>) -> bool {
    &&& f.relation@ == key[1]
    &&& f.source@ == key[2]
    &&& f.destination@ == key[3]
    &&& forall|k: ResourceKind| #[trigger] f.resources.quantity_of(k) == assigned_quantity(entries, k)
}

/// The charge built from a group: its target, with the quantities of its
/// entries.
pub open spec fn charge_built(c: ResourceCharge, key: Key, entries: Seq<Entry>) -> bool {
    &&& c.target@ == key[1]
    &&& forall|k: ResourceKind| #[trigger] c.resources.quantity_of(k) == assigned_quantity(entries, k)
}

/// The keys of one scenario, in key order.
pub open spec fn of_scenario(keys: Seq<Key>, name: Seq<char>) -> Seq<Key> {
    keys.filter(|k: Key| k[0] == name)
}

/// A scenario built from the records: a scenario record's name, probability
/// and assumption, with one flow per flow group of that scenario and one
/// charge per charge group, each in key order.
pub open spec fn scenario_built(s: ScenarioInput, v: RecordsView) -> bool {
    let fk = of_scenario(sorted_keys(flow_pairs(v.1)), s.name@);
    let ck = of_scenario(sorted_keys(charge_pairs(v.2)), s.name@);
    &&& exists|j: int|
        0 <= j < v.0.len() && #[trigger] v.0[j].1 == s.name@ && v.0[j].2 == s.probability@ && v.0[j].3
            == s.assumption@
    &&& s.flows@.len() == fk.len()
    &&& forall|m: int| 0 <= m < fk.len() ==> flow_built(#[trigger] s.flows@[m], fk[m], grouped(flow_pairs(v.1), fk[m]))
    &&& s.charges@.len() == ck.len()
    &&& forall|m: int|
        0 <= m < ck.len() ==> charge_built(#[trigger] s.charges@[m], ck[m], grouped(charge_pairs(v.2), ck[m]))
}

proof fn lemma_first_repeat_prefix(e: Seq<Entry>, j: int)
    requires
        0 <= j <= e.len(),
        first_repeat(e.take(j)) is Some,
    ensures
        first_repeat(e) == first_repeat(e.take(j)),
    decreases e.len(),
{
    if j == e.len() {
        assert(e.take(j) =~= e);
    } else {
        assert(e.drop_last().take(j) =~= e.take(j));
        lemma_first_repeat_prefix(e.drop_last(), j);
    }
}

proof fn lemma_no_repeat(e: Seq<Entry>)
    requires
        first_repeat(e) is None,
    ensures
        forall|j: int| 0 <= j < e.len() ==> !kind_repeats_earlier(e, j),
    decreases e.len(),
{
    if e.len() > 0 {
        lemma_no_repeat(e.drop_last());
        assert forall|j: int| 0 <= j < e.len() implies !kind_repeats_earlier(e, j) by {
            if j < e.len() - 1 {
                assert(!kind_repeats_earlier(e.drop_last(), j));
                if kind_repeats_earlier(e, j) {
                    let i = choose|i: int| 0 <= i < j && #[trigger] e[i].0 == e[j].0;
                    assert(e.drop_last()[i].0 == e.drop_last()[j].0);
                }
            } else {
                if kind_repeats_earlier(e, j) {
                    let i = choose|i: int| 0 <= i < j && #[trigger] e[i].0 == e[j].0;
                    assert(e[i].0 == e.last().0);
                }
            }
        }
    }
}

fn repeat_at(e: &Vec<Entry>) -> (r: Option<usize>)
    ensures
        match r {
            Some(j) => first_repeat(e@) == Some(j as int) && j < e@.len(),
            None => first_repeat(e@) is None,
        },
{
    let mut j: usize = 0;
    proof {
        assert(e@.take(0) =~= Seq::<Entry>::empty());
    }
    while j < e.len()
        invariant
            j <= e@.len(),
            first_repeat(e@.take(j as int)) is None,
        decreases e@.len() - j,
    {
        let ghost t = e@.take(j + 1);
        proof {
            assert(t.drop_last() =~= e@.take(j as int));
            assert(t.last() == e@[j as int]);
        }
        let mut i: usize = 0;
        while i < j
            invariant
                i <= j < e@.len(),
                t == e@.take(j + 1),
                t.drop_last() == e@.take(j as int),
                first_repeat(e@.take(j as int)) is None,
                forall|q: int| 0 <= q < i ==> e@[q].0 != e@[j as int].0,
            decreases j - i,
        {
            if e[i].0 == e[j].0 {
                proof {
                    assert(t[i as int].0 == t.last().0);
                    lemma_first_repeat_prefix(e@, j + 1);
                }
                return Some(j);
            }
            i = i + 1;
        }
        proof {
            if exists|q: int| 0 <= q < t.len() - 1 && #[trigger] t[q].0 == t.last().0 {
                let q = choose|q: int| 0 <= q < t.len() - 1 && #[trigger] t[q].0 == t.last().0;
                assert(e@[q].0 == e@[j as int].0);
            }
        }
        j = j + 1;
    }
    proof {
        assert(e@.take(j as int) =~= e@);
    }
    None
}

fn scenario_known(scenarios: &Vec<ScenarioLine>, name: &str) -> (b: bool)
    ensures
        b == scenario_named(scenarios@.map_values(|s: ScenarioLine| scenario_view(s)), name@),
{
    let ghost v = scenarios@.map_values(|s: ScenarioLine| scenario_view(s));
    let mut i: usize = 0;
    while i < scenarios.len()
        invariant
            v == scenarios@.map_values(|s: ScenarioLine| scenario_view(s)),
            i <= scenarios@.len(),
            forall|j: int| 0 <= j < i ==> #[trigger] v[j].1 != name@,
        decreases scenarios@.len() - i,
    {
        if str_eq(scenarios[i].name.as_str(), name) {
            proof {
                assert(v[i as int].1 == name@);
            }
            return true;
        }
        i = i + 1;
    }
    false
}

fn address_error(s: &str) -> (e: EventsError)
    ensures
        e.message@ == address_message(s@),
{
    let mut m = owned("invalid address `");
    push_str(&mut m, s);
    push_str(&mut m, "`");
    EventsError { message: m }
}

/// The problem of one group, if any.
fn group_check(scenarios: &Vec<ScenarioLine>, key: &Vec<String>, entries: &Vec<Entry>, what: &str) -> (r: Result<(), EventsError>)
    requires
        key@.len() >= 2,
    ensures
        match group_problem(scenarios@.map_values(|s: ScenarioLine| scenario_view(s)), key_view(*key), entries@, what@) {
            Some(m) => r matches Err(e) && e.message@ == m,
            None => r is Ok,
        },
{
    let ghost kv = key_view(*key);
    proof {
        assert(kv[0] == key@[0]@ && kv[1] == key@[1]@);
        if key@.len() > 2 {
            assert(kv[2] == key@[2]@);
        }
        if key@.len() > 3 {
            assert(kv[3] == key@[3]@);
        }
    }
    if !scenario_known(scenarios, key[0].as_str()) {
        let mut m = owned(what);
        push_str(&mut m, " references unknown scenario `");
        push_str(&mut m, key[0].as_str());
        push_str(&mut m, "`");
        return Err(EventsError { message: m });
    }
    if let Some(j) = repeat_at(entries) {
        let mut m = owned("resource bundle repeats `");
        push_str(&mut m, entries[j].0.as_str());
        push_str(&mut m, "`");
        return Err(EventsError { message: m });
    }
    if Address::parse(key[1].as_str()).is_err() {
        return Err(address_error(key[1].as_str()));
    }
    if key.len() > 2 && Address::parse(key[2].as_str()).is_err() {
        return Err(address_error(key[2].as_str()));
    }
    if key.len() > 3 && Address::parse(key[3].as_str()).is_err() {
        return Err(address_error(key[3].as_str()));
    }
    Ok(())
}

proof fn lemma_first_problem_skip(scen: Seq<ScenarioView>, keys: Seq<Key>, pairs: Seq<(Key, Entry)>, what: Seq<char>, g: int)
    requires
        0 <= g < keys.len(),
    ensures
        first_problem(scen, keys.skip(g), pairs, what) == match group_problem(scen, keys[g], grouped(pairs, keys[g]), what) {
            Some(m) => Some(m),
            None => first_problem(scen, keys.skip(g + 1), pairs, what),
        },
{
    assert(keys.skip(g)[0] == keys[g]);
    assert(keys.skip(g).drop_first() =~= keys.skip(g + 1));
}

/// The first problem among the groups, in key order.
fn check_groups(
    scenarios: &Vec<ScenarioLine>,
    keys: &Vec<Vec<String>>,
    groups: &Vec<Vec<Entry>>,
    what: &str,
    Ghost(pairs): Ghost<Seq<(Key, Entry)>>,
) -> (r: Result<(), EventsError>)
    requires
        groups@.len() == keys@.len(),
        forall|g: int| 0 <= g < keys@.len() ==> (#[trigger] keys@[g])@.len() >= 2,
        forall|g: int| 0 <= g < keys@.len() ==> #[trigger] groups@[g]@ == grouped(pairs, key_view(keys@[g])),
    ensures
        match first_problem(scenarios@.map_values(|s: ScenarioLine| scenario_view(s)), keys_view(keys@), pairs, what@) {
            Some(m) => r matches Err(e) && e.message@ == m,
            None => r is Ok,
        },
{
    let ghost sv = scenarios@.map_values(|s: ScenarioLine| scenario_view(s));
    let ghost kvs = keys_view(keys@);
    let mut g: usize = 0;
    proof {
        assert(kvs.skip(0) =~= kvs);
    }
    while g < keys.len()
        invariant
            sv == scenarios@.map_values(|s: ScenarioLine| scenario_view(s)),
            kvs == keys_view(keys@),
            groups@.len() == keys@.len(),
            forall|h: int| 0 <= h < keys@.len() ==> (#[trigger] keys@[h])@.len() >= 2,
            forall|h: int| 0 <= h < keys@.len() ==> #[trigger] groups@[h]@ == grouped(pairs, key_view(keys@[h])),
            g <= keys@.len(),
            first_problem(sv, kvs, pairs, what@) == first_problem(sv, kvs.skip(g as int), pairs, what@),
        decreases keys@.len() - g,
    {
        proof {
            lemma_first_problem_skip(sv, kvs, pairs, what@, g as int);
            assert(kvs[g as int] == key_view(keys@[g as int]));
            assert(groups@[g as int]@ == grouped(pairs, kvs[g as int]));
        }
        group_check(scenarios, &keys[g], &groups[g], what)?;
        g = g + 1;
    }
    proof {
        assert(kvs.skip(g as int) =~= Seq::<Key>::empty());
    }
    Ok(())
}

/// No group has a problem when the first one with a problem does not
/// exist.
proof fn lemma_no_problem(scen: Seq<ScenarioView>, keys: Seq<Key>, pairs: Seq<(Key, Entry)>, what: Seq<char>, g: int)
    requires
        first_problem(scen, keys, pairs, what) is None,
        0 <= g < keys.len(),
    ensures
        group_problem(scen, keys[g], grouped(pairs, keys[g]), what) is None,
    decreases keys.len(),
{
    if g > 0 {
        lemma_no_problem(scen, keys.drop_first(), pairs, what, g - 1);
        assert(keys.drop_first()[g - 1] == keys[g]);
    }
}

/// A key that occurs has entries.
proof fn lemma_grouped_present(pairs: Seq<(Key, Entry)>, k: Key, i: int)
    requires
        0 <= i < pairs.len(),
        pairs[i].0 == k,
    ensures
        grouped(pairs, k).len() > 0,
    decreases pairs.len(),
{
    if i < pairs.len() - 1 {
        lemma_grouped_present(pairs.drop_last(), k, i);
    }
}

/// The last assignment of a list has a quantity.
proof fn lemma_assigned_last(entries: Seq<Entry>)
    requires
        entries.len() > 0,
    ensures
        assigned_quantity(entries, entries.last().0) is Some,
{
}

fn copy_entries(e: &Vec<Entry>) -> (r: Vec<Entry>)
    ensures
        r@ == e@,
{
    let mut out: Vec<Entry> = Vec::new();
    let mut i: usize = 0;
    while i < e.len()
        invariant
            i <= e@.len(),
            out@ == e@.take(i as int),
        decreases e@.len() - i,
    {
        out.push(e[i]);
        proof {
            assert(e@.take(i + 1) =~= e@.take(i as int).push(e@[i as int]));
        }
        i = i + 1;
    }
    proof {
        assert(e@.take(i as int) =~= e@);
    }
    out
}

fn parse_known(s: &str) -> (a: Address)
    requires
        is_address_text(s@),
    ensures
        a@ == s@,
{
    match Address::parse(s) {
        Ok(a) => a,
        Err(_) => {
            proof {
                assert(false);
            }
            vstd::pervasive::unreached()
        },
    }
}

fn bundle_of(entries: &Vec<Entry>) -> (b: ResourceBundle)
    requires
        first_repeat(entries@) is None,
        entries@.len() > 0,
    ensures
        forall|k: ResourceKind| #[trigger] b.quantity_of(k) == assigned_quantity(entries@, k),
        !b.spec_is_empty(),
{
    proof {
        lemma_no_repeat(entries@);
        lemma_assigned_last(entries@);
    }
    match ResourceBundle::new(copy_entries(entries)) {
        Ok(b) => {
            proof {
                assert(b.quantity_of(entries@.last().0) is Some);
            }
            b
        },
        Err(_) => {
            proof {
                assert(false);
            }
            vstd::pervasive::unreached()
        },
    }
}

/// The flows of one scenario, one per group of that scenario, in key order.
fn build_flows(
    name: &str,
    keys: &Vec<Vec<String>>,
    groups: &Vec<Vec<Entry>>,
    Ghost(scen): Ghost<Seq<ScenarioView>>,
    Ghost(pairs): Ghost<Seq<(Key, Entry)>>,
) -> (r: Vec<ResourceFlow>)
    requires
        keys_view(keys@) == sorted_keys(pairs),
        forall|i: int| 0 <= i < pairs.len() ==> (#[trigger] pairs[i]).0.len() == 4,
        groups@.len() == keys@.len(),
        forall|g: int| 0 <= g < keys@.len() ==> #[trigger] groups@[g]@ == grouped(pairs, key_view(keys@[g])),
        first_problem(scen, keys_view(keys@), pairs, "flow"@) is None,
    ensures
        r@.len() == of_scenario(keys_view(keys@), name@).len(),
        forall|m: int|
            0 <= m < r@.len() ==> flow_built(
                #[trigger] r@[m],
                of_scenario(keys_view(keys@), name@)[m],
                grouped(pairs, of_scenario(keys_view(keys@), name@)[m]),
            ),
{
    let ghost kvs = keys_view(keys@);
    let ghost pred = |k: Key| k[0] == name@;
    let mut out: Vec<ResourceFlow> = Vec::new();
    let mut g: usize = 0;
    proof {
        assert(kvs.take(0).filter(pred) =~= Seq::<Key>::empty());
    }
    while g < keys.len()
        invariant
            kvs == keys_view(keys@),
            kvs == sorted_keys(pairs),
            pred == (|k: Key| k[0] == name@),
            forall|i: int| 0 <= i < pairs.len() ==> (#[trigger] pairs[i]).0.len() == 4,
            groups@.len() == keys@.len(),
            forall|h: int| 0 <= h < keys@.len() ==> #[trigger] groups@[h]@ == grouped(pairs, key_view(keys@[h])),
            first_problem(scen, kvs, pairs, "flow"@) is None,
            g <= keys@.len(),
            out@.len() == kvs.take(g as int).filter(pred).len(),
            forall|m: int|
                0 <= m < out@.len() ==> flow_built(
                    #[trigger] out@[m],
                    kvs.take(g as int).filter(pred)[m],
                    grouped(pairs, kvs.take(g as int).filter(pred)[m]),
                ),
        decreases keys@.len() - g,
    {
        let ghost kg = kvs[g as int];
        proof {
            assert(kg == key_view(keys@[g as int]));
            assert(kvs.take(g + 1) =~= kvs.take(g as int).push(kg));
            kvs.take(g as int).lemma_filter_push(kg, pred);
            lemma_sorted_keys_contains(pairs, kg);
            assert(kvs.contains(kg));
            let i = choose|i: int| 0 <= i < pairs.len() && #[trigger] pairs[i].0 == kg;
            assert(pairs[i].0.len() == 4);
            lemma_grouped_present(pairs, kg, i);
            lemma_no_problem(scen, kvs, pairs, "flow"@, g as int);
            assert(keys@[g as int]@.len() == 4);
            assert(kg[0] == keys@[g as int]@[0]@);
            assert(kg[1] == keys@[g as int]@[1]@);
            assert(kg[2] == keys@[g as int]@[2]@);
            assert(kg[3] == keys@[g as int]@[3]@);
        }
        let key = &keys[g];
        if str_eq(key[0].as_str(), name) {
            let relation = parse_known(key[1].as_str());
            let source = parse_known(key[2].as_str());
            let destination = parse_known(key[3].as_str());
            let bundle = bundle_of(&groups[g]);
            match ResourceFlow::new(relation, source, destination, bundle) {
                Ok(f) => {
                    out.push(f);
                },
                Err(_) => {
                    proof {
                        assert(false);
                    }
                },
            }
        }
        g = g + 1;
    }
    proof {
        assert(kvs.take(g as int) =~= kvs);
    }
    out
}

/// The charges of one scenario, one per group of that scenario, in key
/// order.
fn build_charges(
    name: &str,
    keys: &Vec<Vec<String>>,
    groups: &Vec<Vec<Entry>>,
    Ghost(scen): Ghost<Seq<ScenarioView>>,
    Ghost(pairs): Ghost<Seq<(Key, Entry)>>,
) -> (r: Vec<ResourceCharge>)
    requires
        keys_view(keys@) == sorted_keys(pairs),
        forall|i: int| 0 <= i < pairs.len() ==> (#[trigger] pairs[i]).0.len() == 2,
        groups@.len() == keys@.len(),
        forall|g: int| 0 <= g < keys@.len() ==> #[trigger] groups@[g]@ == grouped(pairs, key_view(keys@[g])),
        first_problem(scen, keys_view(keys@), pairs, "charge"@) is None,
    ensures
        r@.len() == of_scenario(keys_view(keys@), name@).len(),
        forall|m: int|
            0 <= m < r@.len() ==> charge_built(
                #[trigger] r@[m],
                of_scenario(keys_view(keys@), name@)[m],
                grouped(pairs, of_scenario(keys_view(keys@), name@)[m]),
            ),
{
    let ghost kvs = keys_view(keys@);
    let ghost pred = |k: Key| k[0] == name@;
    let mut out: Vec<ResourceCharge> = Vec::new();
    let mut g: usize = 0;
    proof {
        assert(kvs.take(0).filter(pred) =~= Seq::<Key>::empty());
    }
    while g < keys.len()
        invariant
            kvs == keys_view(keys@),
            kvs == sorted_keys(pairs),
            pred == (|k: Key| k[0] == name@),
            forall|i: int| 0 <= i < pairs.len() ==> (#[trigger] pairs[i]).0.len() == 2,
            groups@.len() == keys@.len(),
            forall|h: int| 0 <= h < keys@.len() ==> #[trigger] groups@[h]@ == grouped(pairs, key_view(keys@[h])),
            first_problem(scen, kvs, pairs, "charge"@) is None,
            g <= keys@.len(),
            out@.len() == kvs.take(g as int).filter(pred).len(),
            forall|m: int|
                0 <= m < out@.len() ==> charge_built(
                    #[trigger] out@[m],
                    kvs.take(g as int).filter(pred)[m],
                    grouped(pairs, kvs.take(g as int).filter(pred)[m]),
                ),
        decreases keys@.len() - g,
    {
        let ghost kg = kvs[g as int];
        proof {
            assert(kg == key_view(keys@[g as int]));
            assert(kvs.take(g + 1) =~= kvs.take(g as int).push(kg));
            kvs.take(g as int).lemma_filter_push(kg, pred);
            lemma_sorted_keys_contains(pairs, kg);
            assert(kvs.contains(kg));
            let i = choose|i: int| 0 <= i < pairs.len() && #[trigger] pairs[i].0 == kg;
            assert(pairs[i].0.len() == 2);
            lemma_grouped_present(pairs, kg, i);
            lemma_no_problem(scen, kvs, pairs, "charge"@, g as int);
            assert(keys@[g as int]@.len() == 2);
            assert(kg[0] == keys@[g as int]@[0]@);
            assert(kg[1] == keys@[g as int]@[1]@);
        }
        let key = &keys[g];
        if str_eq(key[0].as_str(), name) {
            let target = parse_known(key[1].as_str());
            let bundle = bundle_of(&groups[g]);
            match ResourceCharge::new(target, bundle) {
                Ok(c) => {
                    out.push(c);
                },
                Err(_) => {
                    proof {
                        assert(false);
                    }
                },
            }
        }
        g = g + 1;
    }
    proof {
        assert(kvs.take(g as int) =~= kvs);
    }
    out
}

pub open spec fn pair_views(v: Seq<(Vec<String>, Entry)>) -> Seq<(Key, Entry)> {
    v.map_values(|p: (Vec<String>, Entry)| (key_view(p.0), p.1))
}

fn flow_keys(flows: &Vec<FlowLine>) -> (r: Vec<(Vec<String>, Entry)>)
    ensures
        pair_views(r@) == flow_pairs(flows@.map_values(|f: FlowLine| flow_view(f))),
{
    let ghost fv = flows@.map_values(|f: FlowLine| flow_view(f));
    let mut out: Vec<(Vec<String>, Entry)> = Vec::new();
    let mut i: usize = 0;
    while i < flows.len()
        invariant
            fv == flows@.map_values(|f: FlowLine| flow_view(f)),
            i <= flows@.len(),
            pair_views(out@) == flow_pairs(fv.take(i as int)),
        decreases flows@.len() - i,
    {
        let f = &flows[i];
        let mut key: Vec<String> = Vec::new();
        key.push(f.scenario.clone());
        key.push(f.relation.clone());
        key.push(f.source.clone());
        key.push(f.destination.clone());
        let ghost before = out@;
        out.push((key, (f.kind, f.quantity)));
        proof {
            assert(key_view(key) =~= seq![f.scenario@, f.relation@, f.source@, f.destination@]);
            assert(fv.take(i + 1) =~= fv.take(i as int).push(fv[i as int]));
            assert(fv[i as int] == flow_view(flows@[i as int]));
            assert(pair_views(out@) =~= pair_views(before).push((key_view(key), (f.kind, f.quantity))));
            assert(flow_pairs(fv.take(i + 1)) =~= flow_pairs(fv.take(i as int)).push(
                (seq![f.scenario@, f.relation@, f.source@, f.destination@], (f.kind, f.quantity)),
            ));
            assert(pair_views(out@) =~= flow_pairs(fv.take(i + 1)));
        }
        i = i + 1;
    }
    proof {
        assert(fv.take(i as int) =~= fv);
    }
    out
}

fn charge_keys(charges: &Vec<ChargeLine>) -> (r: Vec<(Vec<String>, Entry)>)
    ensures
        pair_views(r@) == charge_pairs(charges@.map_values(|c: ChargeLine| charge_view(c))),
{
    let ghost cv = charges@.map_values(|c: ChargeLine| charge_view(c));
    let mut out: Vec<(Vec<String>, Entry)> = Vec::new();
    let mut i: usize = 0;
    while i < charges.len()
        invariant
            cv == charges@.map_values(|c: ChargeLine| charge_view(c)),
            i <= charges@.len(),
            pair_views(out@) == charge_pairs(cv.take(i as int)),
        decreases charges@.len() - i,
    {
        let c = &charges[i];
        let mut key: Vec<String> = Vec::new();
        key.push(c.scenario.clone());
        key.push(c.target.clone());
        let ghost before = out@;
        out.push((key, (c.kind, c.quantity)));
        proof {
            assert(key_view(key) =~= seq![c.scenario@, c.target@]);
            assert(cv.take(i + 1) =~= cv.take(i as int).push(cv[i as int]));
            assert(cv[i as int] == charge_view(charges@[i as int]));
            assert(pair_views(out@) =~= pair_views(before).push((key_view(key), (c.kind, c.quantity))));
            assert(charge_pairs(cv.take(i + 1)) =~= charge_pairs(cv.take(i as int)).push(
                (seq![c.scenario@, c.target@], (c.kind, c.quantity)),
            ));
            assert(pair_views(out@) =~= charge_pairs(cv.take(i + 1)));
        }
        i = i + 1;
    }
    proof {
        assert(cv.take(i as int) =~= cv);
    }
    out
}

/// Read records never name a scenario twice.
proof fn lemma_scenarios_distinct(lines: Seq<Seq<char>>)
    ensures
        read_records(lines) matches Ok(v) ==> forall|a: int, b: int|
            0 <= a < b < v.0.len() ==> #[trigger] v.0[a].1 != #[trigger] v.0[b].1,
    decreases lines.len(),
{
    if lines.len() > 0 {
        lemma_scenarios_distinct(lines.drop_last());
        if let Ok(v) = read_records(lines) {
            let st = read_records(lines.drop_last())->Ok_0;
            assert forall|a: int, b: int| 0 <= a < b < v.0.len() implies #[trigger] v.0[a].1 != #[trigger] v.0[b].1 by {
                if v.0.len() > st.0.len() && b == v.0.len() - 1 {
                    assert(v.0[a] == st.0[a]);
                    if v.0[a].1 == v.0[b].1 {
                        assert(scenario_named(st.0, v.0[b].1));
                    }
                } else if v.0.len() > st.0.len() {
                    assert(v.0[a] == st.0[a]);
                    assert(v.0[b] == st.0[b]);
                }
            }
        }
    }
}

/// Reads an events file into its scenarios, in name order. Lines are read
/// first; then flow groups (flows with the same scenario, relation, source
/// and destination) are checked in key order, then charge groups (same
/// scenario and target); each group becomes one flow or charge of its
/// scenario.
pub fn parse_events(source: &str) -> (r: Result<Vec<ScenarioInput>, EventsError>)
    ensures
        match read_records(event_lines(source@)) {
            Err(m) => r matches Err(e) && e.message@ == m,
            Ok(v) => match events_problem(v) {
                Some(m) => r matches Err(e) && e.message@ == m,
                None => r matches Ok(out) && out@.len() == v.0.len() && (forall|a: int, b: int|
                    0 <= a < b < out@.len() ==> seq_lt(#[trigger] out@[a].name@, #[trigger] out@[b].name@)) && (
                forall|i: int| 0 <= i < out@.len() ==> scenario_built(#[trigger] out@[i], v)),
            },
        },
{
    let records = read_event_records(source)?;
    let ghost v = records_view(records);
    proof {
        lemma_scenarios_distinct(event_lines(source@));
    }
    let fp = flow_keys(&records.flows);
    let (fkeys, fgroups) = group_pairs(&fp);
    let ghost fpv = pair_views(fp@);
    proof {
        assert(fpv == flow_pairs(v.1));
        assert forall|i: int| 0 <= i < fpv.len() implies (#[trigger] fpv[i]).0.len() == 4 by {
            assert(fpv[i] == flow_pairs(v.1)[i]);
        }
        assert forall|g: int| 0 <= g < fkeys@.len() implies (#[trigger] fkeys@[g])@.len() >= 2 by {
            assert(keys_view(fkeys@)[g] == key_view(fkeys@[g]));
            lemma_sorted_keys_contains(fpv, key_view(fkeys@[g]));
            assert(sorted_keys(fpv).contains(keys_view(fkeys@)[g]));
        }
    }
    check_groups(&records.scenarios, &fkeys, &fgroups, "flow", Ghost(fpv))?;
    let cp = charge_keys(&records.charges);
    let (ckeys, cgroups) = group_pairs(&cp);
    let ghost cpv = pair_views(cp@);
    proof {
        assert(cpv == charge_pairs(v.2));
        assert forall|i: int| 0 <= i < cpv.len() implies (#[trigger] cpv[i]).0.len() == 2 by {
            assert(cpv[i] == charge_pairs(v.2)[i]);
        }
        assert forall|g: int| 0 <= g < ckeys@.len() implies (#[trigger] ckeys@[g])@.len() >= 2 by {
            assert(keys_view(ckeys@)[g] == key_view(ckeys@[g]));
            lemma_sorted_keys_contains(cpv, key_view(ckeys@[g]));
            assert(sorted_keys(cpv).contains(keys_view(ckeys@)[g]));
        }
    }
    check_groups(&records.scenarios, &ckeys, &cgroups, "charge", Ghost(cpv))?;
    let ghost sv = v.0;
    let mut out: Vec<ScenarioInput> = Vec::new();
    let mut i: usize = 0;
    while i < records.scenarios.len()
        invariant
            v == records_view(records),
            sv == v.0,
            fpv == flow_pairs(v.1),
            cpv == charge_pairs(v.2),
            events_problem(v) is None,
            forall|a: int, b: int| 0 <= a < b < sv.len() ==> #[trigger] sv[a].1 != #[trigger] sv[b].1,
            keys_view(fkeys@) == sorted_keys(fpv),
            keys_view(ckeys@) == sorted_keys(cpv),
            forall|k: int| 0 <= k < fpv.len() ==> (#[trigger] fpv[k]).0.len() == 4,
            forall|k: int| 0 <= k < cpv.len() ==> (#[trigger] cpv[k]).0.len() == 2,
            fgroups@.len() == fkeys@.len(),
            cgroups@.len() == ckeys@.len(),
            forall|g: int| 0 <= g < fkeys@.len() ==> #[trigger] fgroups@[g]@ == grouped(fpv, key_view(fkeys@[g])),
            forall|g: int| 0 <= g < ckeys@.len() ==> #[trigger] cgroups@[g]@ == grouped(cpv, key_view(ckeys@[g])),
            i <= sv.len(),
            out@.len() == i,
            forall|a: int, b: int| 0 <= a < b < out@.len() ==> seq_lt(#[trigger] out@[a].name@, #[trigger] out@[b].name@),
            forall|q: int|
                0 <= q < out@.len() ==> exists|j: int| 0 <= j < i && #[trigger] sv[j].1 == (#[trigger] out@[q]).name@,
            forall|q: int| 0 <= q < out@.len() ==> scenario_built(#[trigger] out@[q], v),
        decreases sv.len() - i,
    {
        let s = &records.scenarios[i];
        proof {
            assert(sv[i as int] == scenario_view(records.scenarios@[i as int]));
        }
        let flows = build_flows(s.name.as_str(), &fkeys, &fgroups, Ghost(sv), Ghost(fpv));
        let charges = build_charges(s.name.as_str(), &ckeys, &cgroups, Ghost(sv), Ghost(cpv));
        let input = ScenarioInput {
            name: s.name.clone(),
            probability: s.probability.clone(),
            assumption: s.assumption.clone(),
            flows,
            charges,
        };
        proof {
            assert(sv[i as int].1 == input.name@);
            assert(scenario_built(input, v));
        }
        let mut p: usize = 0;
        while p < out.len() && str_lt(out[p].name.as_str(), input.name.as_str())
            invariant
                p <= out@.len(),
                forall|q: int| 0 <= q < p ==> seq_lt(#[trigger] out@[q].name@, input.name@),
            decreases out@.len() - p,
        {
            p = p + 1;
        }
        let ghost before = out@;
        proof {
            if p < out@.len() {
                let j = choose|j: int| 0 <= j < i && #[trigger] sv[j].1 == (#[trigger] before[p as int]).name@;
                assert(sv[j].1 != sv[i as int].1);
                lemma_seq_lt_total(before[p as int].name@, input.name@);
            }
        }
        out.insert(p, input);
        proof {
            assert forall|a: int, b: int| 0 <= a < b < out@.len() implies seq_lt(#[trigger] out@[a].name@, #[trigger] out@[b].name@) by {
                if a < p && b == p {
                } else if a < p && b > p {
                    assert(out@[b] == before[b - 1]);
                } else if a == p && b > p {
                    assert(out@[b] == before[b - 1]);
                    if b - 1 > p {
                        lemma_seq_lt_transitive(input.name@, before[p as int].name@, before[b - 1].name@);
                    }
                } else if a > p {
                    assert(out@[a] == before[a - 1]);
                    assert(out@[b] == before[b - 1]);
                }
            }
            assert forall|q: int| 0 <= q < out@.len() implies exists|j: int| 0 <= j < i + 1 && #[trigger] sv[j].1 == (#[trigger] out@[q]).name@ by {
                if q < p {
                    assert(out@[q] == before[q]);
                    let j = choose|j: int| 0 <= j < i && #[trigger] sv[j].1 == (#[trigger] before[q]).name@;
                    assert(sv[j].1 == out@[q].name@);
                } else if q > p {
                    assert(out@[q] == before[q - 1]);
                    let j = choose|j: int| 0 <= j < i && #[trigger] sv[j].1 == (#[trigger] before[q - 1]).name@;
                    assert(sv[j].1 == out@[q].name@);
                } else {
                    assert(sv[i as int].1 == out@[q].name@);
                }
            }
            assert forall|q: int| 0 <= q < out@.len() implies scenario_built(#[trigger] out@[q], v) by {
                if q < p {
                    assert(out@[q] == before[q]);
                } else if q > p {
                    assert(out@[q] == before[q - 1]);
                }
            }
        }
        i = i + 1;
    }
    Ok(out)
}

} // verus!

//! Versions: `MAJOR.MINOR.PATCH` with unsigned decimal components.
use vstd::prelude::*;

use crate::decimal::{decimal_text, decimal_value, is_u64_text, lemma_decimal_text, parse_u64, push_decimal};
use crate::text::{chars_of, owned, push_char, push_str};

verus! {

/// A semantic version triple.
#[derive(Clone, Copy, Debug, PartialEq, Eq, Hash, PartialOrd, Ord)]
pub struct Version {
    major: u64,
    minor: u64,
    patch: u64,
}

/// An input that is not a version.
#[derive(Debug, PartialEq, Eq)]
pub struct VersionError {
    input: String,
}

/// The pieces of `s` between `.` separators, as `str::split('.')` yields
/// them (empty pieces included).
pub open spec fn split_dots(s: Seq<char>) -> Seq<Seq<char>>
    decreases s.len(),
{
    if s.len() == 0 {
        seq![Seq::<char>::empty()]
    } else {
        let p = split_dots(s.drop_last());
        if s.last() == '.' {
            p.push(Seq::<char>::empty())
        } else {
            p.update(p.len() - 1, p.last().push(s.last()))
        }
    }
}

/// Exactly three pieces, each a run of digits that fits in a `u64`.
pub open spec fn parse_version_spec(s: Seq<char>) -> Option<(u64, u64, u64)> {
    let p = split_dots(s);
    if p.len() == 3 && is_u64_text(p[0]) && is_u64_text(p[1]) && is_u64_text(p[2]) {
        Some((decimal_value(p[0]) as u64, decimal_value(p[1]) as u64, decimal_value(p[2]) as u64))
    } else {
        None
    }
}

/// The canonical text `major.minor.patch`.
pub open spec fn version_text(major: u64, minor: u64, patch: u64) -> Seq<char> {
    decimal_text(major as nat) + seq!['.'] + decimal_text(minor as nat) + seq!['.'] + decimal_text(
        patch as nat,
    )
}

pub proof fn lemma_split_dots_nonempty(s: Seq<char>)
    ensures
        split_dots(s).len() >= 1,
    decreases s.len(),
{
    if s.len() > 0 {
        lemma_split_dots_nonempty(s.drop_last());
    }
}

/// A text without dots is a single piece.
pub proof fn lemma_split_dots_single(t: Seq<char>)
    requires
        !t.contains('.'),
    ensures
        split_dots(t) == seq![t],
    decreases t.len(),
{
    if t.len() > 0 {
        assert(!t.drop_last().contains('.')) by {
            if t.drop_last().contains('.') {
                let i = choose|i: int| 0 <= i < t.drop_last().len() && t.drop_last()[i] == '.';
                assert(t[i] == '.');
            }
        }
        lemma_split_dots_single(t.drop_last());
        assert(t.last() != '.') by {
            assert(t[t.len() - 1] == t.last());
        }
        assert(t.drop_last().push(t.last()) =~= t);
    } else {
        assert(t =~= Seq::<char>::empty());
    }
}

/// Splitting around one dot splits each side.
pub proof fn lemma_split_dots_join(a: Seq<char>, b: Seq<char>)
    ensures
        split_dots(a + seq!['.'] + b) == split_dots(a) + split_dots(b),
    decreases b.len(),
{
    let x = a + seq!['.'] + b;
    if b.len() == 0 {
        assert(x.drop_last() =~= a);
        assert(split_dots(b) =~= seq![Seq::<char>::empty()]);
        assert(split_dots(x) =~= split_dots(a) + split_dots(b));
    } else {
        let b1 = b.drop_last();
        assert(x.drop_last() =~= a + seq!['.'] + b1);
        assert(x.last() == b.last());
        lemma_split_dots_join(a, b1);
        lemma_split_dots_nonempty(b1);
        lemma_split_dots_nonempty(a);
        let pa = split_dots(a);
        let pb = split_dots(b1);
        if b.last() == '.' {
            assert(split_dots(x) =~= split_dots(a) + split_dots(b));
        } else {
            assert((pa + pb).last() == pb.last());
            assert((pa + pb).update((pa + pb).len() - 1, pb.last().push(b.last())) =~= pa + pb.update(
                pb.len() - 1,
                pb.last().push(b.last()),
            ));
            assert(split_dots(x) =~= split_dots(a) + split_dots(b));
        }
    }
}

impl View for VersionError {
    type V = Seq<char>;

    closed spec fn view(&self) -> Seq<char> {
        self.input@
    }
}

impl Clone for VersionError {
    fn clone(&self) -> (r: Self)
        ensures
            r == *self,
    {
        VersionError { input: self.input.clone() }
    }
}

impl VersionError {
    /// `invalid version `<input>``.
    pub fn to_string(&self) -> (s: String)
        ensures
            s@ == "invalid version `"@ + self@ + "`"@,
    {
        let mut s = owned("invalid version `");
        push_str(&mut s, self.input.as_str());
        push_str(&mut s, "`");
        s
    }
}

/// Splits `cs` at every `.`.
fn split_on_dots(cs: &Vec<char>) -> (parts: Vec<Vec<char>>)
    ensures
        parts@.map_values(|v: Vec<char>| v@) == split_dots(cs@),
{
    let mut done: Vec<Vec<char>> = Vec::new();
    let mut cur: Vec<char> = Vec::new();
    let mut i: usize = 0;
    proof {
        assert(cs@.take(0) =~= Seq::<char>::empty());
        assert(done@.map_values(|v: Vec<char>| v@).push(cur@) =~= split_dots(cs@.take(0)));
    }
    while i < cs.len()
        invariant
            i <= cs@.len(),
            done@.map_values(|v: Vec<char>| v@).push(cur@) == split_dots(cs@.take(i as int)),
        decreases cs@.len() - i,
    {
        let c = cs[i];
        proof {
            assert(cs@.take(i + 1).drop_last() =~= cs@.take(i as int));
            assert(cs@.take(i + 1).last() == c);
            lemma_split_dots_nonempty(cs@.take(i as int));
        }
        let ghost before = done@.map_values(|v: Vec<char>| v@);
        let ghost cur_before = cur@;
        if c == '.' {
            let finished = cur;
            done.push(finished);
            cur = Vec::new();
            proof {
                assert(done@.map_values(|v: Vec<char>| v@) =~= before.push(cur_before));
                assert(done@.map_values(|v: Vec<char>| v@).push(cur@) =~= split_dots(
                    cs@.take(i + 1),
                ));
            }
        } else {
            cur.push(c);
            proof {
                assert(done@.map_values(|v: Vec<char>| v@).push(cur@) =~= split_dots(
                    cs@.take(i + 1),
                ));
            }
        }
        i = i + 1;
    }
    done.push(cur);
    proof {
        assert(cs@.take(i as int) =~= cs@);
    }
    done
}

impl Version {
    pub closed spec fn major_spec(self) -> u64 {
        self.major
    }

    pub closed spec fn minor_spec(self) -> u64 {
        self.minor
    }

    pub closed spec fn patch_spec(self) -> u64 {
        self.patch
    }

    /// The canonical text of this version.
    pub open spec fn text(self) -> Seq<char> {
        version_text(self.major_spec(), self.minor_spec(), self.patch_spec())
    }

    /// Accepts exactly three dot-separated unsigned decimal components.
    pub fn parse(input: &str) -> (r: Result<Version, VersionError>)
        ensures
            match r {
                Ok(v) => parse_version_spec(input@) == Some((v.major_spec(), v.minor_spec(), v.patch_spec())),
                Err(e) => parse_version_spec(input@) is None && e@ == input@,
            },
    {
        let cs = chars_of(input);
        let parts = split_on_dots(&cs);
        proof {
            assert(parts@.len() == split_dots(input@).len());
        }
        if parts.len() != 3 {
            return Err(VersionError { input: owned(input) });
        }
        proof {
            assert(parts@[0]@ == split_dots(input@)[0]);
            assert(parts@[1]@ == split_dots(input@)[1]);
            assert(parts@[2]@ == split_dots(input@)[2]);
        }
        let major = parse_u64(parts[0].as_slice());
        let minor = parse_u64(parts[1].as_slice());
        let patch = parse_u64(parts[2].as_slice());
        match (major, minor, patch) {
            (Some(major), Some(minor), Some(patch)) => Ok(Version { major, minor, patch }),
            _ => Err(VersionError { input: owned(input) }),
        }
    }

    pub fn new(major: u64, minor: u64, patch: u64) -> (v: Version)
        ensures
            v.major_spec() == major,
            v.minor_spec() == minor,
            v.patch_spec() == patch,
    {
        Version { major, minor, patch }
    }

    pub fn major(self) -> (r: u64)
        ensures
            r == self.major_spec(),
    {
        self.major
    }

    pub fn minor(self) -> (r: u64)
        ensures
            r == self.minor_spec(),
    {
        self.minor
    }

    pub fn patch(self) -> (r: u64)
        ensures
            r == self.patch_spec(),
    {
        self.patch
    }

    /// Whether two versions are the same.
    pub fn same(self, other: Version) -> (b: bool)
        ensures
            b == (self == other),
    {
        self.major == other.major && self.minor == other.minor && self.patch == other.patch
    }

    /// Whether `self` orders before `other`, component by component.
    pub fn before(self, other: Version) -> (b: bool)
        ensures
            b == (self.major_spec() < other.major_spec() || (self.major_spec() == other.major_spec()
                && (self.minor_spec() < other.minor_spec() || (self.minor_spec() == other.minor_spec()
                && self.patch_spec() < other.patch_spec())))),
    {
        self.major < other.major || (self.major == other.major && (self.minor < other.minor || (
        self.minor == other.minor && self.patch < other.patch)))
    }

    /// Appends the canonical text of this version.
    pub fn write_to(self, s: &mut String)
        ensures
            final(s)@ == old(s)@ + self.text(),
    {
        push_decimal(s, self.major);
        push_char(s, '.');
        push_decimal(s, self.minor);
        push_char(s, '.');
        push_decimal(s, self.patch);
        proof {
            assert(final(s)@ =~= old(s)@ + self.text());
        }
    }

    /// The canonical text `major.minor.patch`.
    pub fn to_string(self) -> (s: String)
        ensures
            s@ == self.text(),
    {
        let mut s = String::new();
        self.write_to(&mut s);
        proof {
            assert(s@ =~= self.text());
        }
        s
    }
}

/// The canonical text of three numbers parses back to them.
pub proof fn lemma_version_text_parses(x: u64, y: u64, z: u64)
    ensures
        parse_version_spec(version_text(x, y, z)) == Some((x, y, z)),
        crate::decimal::all_digits(decimal_text(x as nat)) && decimal_text(x as nat).len() > 0,
        crate::decimal::all_digits(decimal_text(y as nat)) && decimal_text(y as nat).len() > 0,
        crate::decimal::all_digits(decimal_text(z as nat)) && decimal_text(z as nat).len() > 0,
{
    let a = decimal_text(x as nat);
    let b = decimal_text(y as nat);
    let c = decimal_text(z as nat);
    lemma_decimal_text(x as nat);
    lemma_decimal_text(y as nat);
    lemma_decimal_text(z as nat);
    lemma_split_dots_single(a);
    lemma_split_dots_single(b);
    lemma_split_dots_single(c);
    lemma_split_dots_join(a, b);
    let ab = a + seq!['.'] + b;
    lemma_split_dots_join(ab, c);
    assert(version_text(x, y, z) == ab + seq!['.'] + c);
    assert(split_dots(version_text(x, y, z)) =~= seq![a, b, c]);
}

/// The canonical text of a version parses back to the same version.
pub proof fn version_text_round_trip(v: Version)
    ensures
        parse_version_spec(v.text()) == Some((v.major_spec(), v.minor_spec(), v.patch_spec())),
{
    let a = decimal_text(v.major_spec() as nat);
    let b = decimal_text(v.minor_spec() as nat);
    let c = decimal_text(v.patch_spec() as nat);
    lemma_decimal_text(v.major_spec() as nat);
    lemma_decimal_text(v.minor_spec() as nat);
    lemma_decimal_text(v.patch_spec() as nat);
    lemma_split_dots_single(a);
    lemma_split_dots_single(b);
    lemma_split_dots_single(c);
    lemma_split_dots_join(a, b);
    let ab = a + seq!['.'] + b;
    lemma_split_dots_join(ab, c);
    assert(v.text() == ab + seq!['.'] + c);
    assert(split_dots(v.text()) =~= seq![a, b, c]);
}

} // verus!

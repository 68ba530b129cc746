//! Addresses: the flat, exact identifiers of description elements.
use vstd::prelude::*;

use crate::map::MapKey;
use crate::text::{char_is_alnum, chars_of, is_alnum, owned, push_str};

verus! {

/// An address such as `@system/vision-encoder`.
#[derive(Debug, PartialEq, Eq, PartialOrd, Ord, Hash)]
pub struct Address {
    text: String,
}

/// An input that is not an address.
#[derive(Debug, PartialEq, Eq)]
pub struct AddressError {
    input: String,
}

/// A character allowed inside an address segment.
pub open spec fn is_segment_char(c: char) -> bool {
    is_alnum(c) || c == '_' || c == '-'
}

/// `@` followed by one or more `/`-separated segments, each a nonempty run of
/// ASCII letters, digits, `_` and `-`.
pub open spec fn is_address_text(s: Seq<char>) -> bool {
    &&& s.len() >= 2
    &&& s[0] == '@'
    &&& forall|i: int| 1 <= i < s.len() ==> is_segment_char(#[trigger] s[i]) || s[i] == '/'
    &&& s[1] != '/'
    &&& s.last() != '/'
    &&& forall|i: int| 1 <= i < s.len() - 1 ==> !(#[trigger] s[i] == '/' && s[i + 1] == '/')
}

impl Address {
    /// An address always holds text of the address grammar.
    #[verifier::type_invariant]
    spec fn grammatical(self) -> bool {
        is_address_text(self.text@)
    }
}

impl View for Address {
    type V = Seq<char>;

    closed spec fn view(&self) -> Seq<char> {
        self.text@
    }
}

impl AddressError {
    /// The text that was refused.
    pub closed spec fn input(&self) -> Seq<char> {
        self.input@
    }

    /// `invalid address `<input>``.
    pub fn to_string(&self) -> (s: String)
        ensures
            s@ == "invalid address `"@ + self.input() + "`"@,
    {
        let mut s = owned("invalid address `");
        push_str(&mut s, self.input.as_str());
        push_str(&mut s, "`");
        s
    }
}

impl Clone for AddressError {
    fn clone(&self) -> (r: Self)
        ensures
            r == *self,
    {
        AddressError { input: self.input.clone() }
    }
}

impl Clone for Address {
    fn clone(&self) -> (r: Self)
        ensures
            r == *self,
    {
        proof {
            use_type_invariant(self);
        }
        Address { text: self.text.clone() }
    }
}

impl MapKey for Address {
    open spec fn key(&self) -> Seq<char> {
        self@
    }

    fn key_chars(&self) -> (r: Vec<char>) {
        chars_of(self.as_str())
    }

    fn duplicate(&self) -> (r: Self) {
        self.clone()
    }
}

impl Address {
    /// Accepts exactly the address grammar.
    pub fn parse(input: &str) -> (r: Result<Address, AddressError>)
        ensures
            match r {
                Ok(a) => is_address_text(input@) && a@ == input@,
                Err(e) => !is_address_text(input@) && e.input() == input@,
            },
    {
        let cs = chars_of(input);
        let n = cs.len();
        let mut valid = n >= 2 && cs[0] == '@' && cs[1] != '/' && cs[n - 1] != '/';
        let mut i: usize = 1;
        while valid && i < n
            invariant
                cs@ == input@,
                n == cs@.len(),
                1 <= i,
                valid ==> i <= n,
                valid ==> n >= 2 && cs@[0] == '@' && cs@[1] != '/' && cs@[n - 1] != '/',
                valid ==> forall|j: int| 1 <= j < i ==> is_segment_char(#[trigger] cs@[j]) || cs@[j] == '/',
                valid ==> forall|j: int| 1 <= j < i && j < n - 1 ==> !(#[trigger] cs@[j] == '/' && cs@[j + 1] == '/'),
                !valid ==> !is_address_text(input@),
            decreases (if valid { n - i + 1 } else { 0 }),
        {
            let c = cs[i];
            if !(char_is_alnum(c) || c == '_' || c == '-' || c == '/') {
                valid = false;
            } else if c == '/' && i + 1 < n && cs[i + 1] == '/' {
                valid = false;
            } else {
                i = i + 1;
            }
        }
        if valid {
            Ok(Address { text: owned(input) })
        } else {
            Err(AddressError { input: owned(input) })
        }
    }

    /// The address's text, which `parse` reads back as the same address.
    pub fn as_str(&self) -> (s: &str)
        ensures
            s@ == self@,
            is_address_text(s@),
    {
        proof {
            use_type_invariant(self);
        }
        self.text.as_str()
    }

    /// Whether two addresses are the same.
    pub fn same(&self, other: &Address) -> (b: bool)
        ensures
            b == (self@ == other@),
    {
        self.text == other.text
    }
}

} // verus!

//! Extension namespaces: exact `https://` identifiers.
use vstd::prelude::*;

use crate::text::{
    char_is_ascii, char_is_ascii_control, char_is_ascii_whitespace, chars_of, is_ascii_char,
    is_ascii_control, is_ascii_whitespace, owned, push_str, starts_with,
};

verus! {

/// An extension namespace such as
/// `https://github.com/goldenwitch/grimoire/extension/shapes`.
#[derive(Debug, PartialEq, Eq, PartialOrd, Ord, Hash)]
pub struct Namespace {
    text: String,
}

/// An input that is not a namespace.
#[derive(Debug, PartialEq, Eq)]
pub struct NamespaceError {
    input: String,
}

/// The scheme every namespace starts with.
pub open spec fn https_prefix() -> Seq<char> {
    seq!['h', 't', 't', 'p', 's', ':', '/', '/']
}

/// `https://`, a nonempty authority (the text before the next `/`), and only
/// ASCII characters that are neither control characters nor whitespace.
pub open spec fn is_namespace_text(s: Seq<char>) -> bool {
    &&& starts_with(s, https_prefix())
    &&& s.len() > 8
    &&& s[8] != '/'
    &&& forall|i: int|
        0 <= i < s.len() ==> is_ascii_char(#[trigger] s[i]) && !is_ascii_control(s[i])
            && !is_ascii_whitespace(s[i])
}

impl Namespace {
    /// A namespace always holds text of the namespace grammar.
    #[verifier::type_invariant]
    spec fn grammatical(self) -> bool {
        is_namespace_text(self.text@)
    }
}

impl View for Namespace {
    type V = Seq<char>;

    closed spec fn view(&self) -> Seq<char> {
        self.text@
    }
}

impl Clone for Namespace {
    fn clone(&self) -> (r: Self)
        ensures
            r == *self,
    {
        proof {
            use_type_invariant(self);
        }
        Namespace { text: self.text.clone() }
    }
}

impl Clone for NamespaceError {
    fn clone(&self) -> (r: Self)
        ensures
            r == *self,
    {
        NamespaceError { input: self.input.clone() }
    }
}

impl NamespaceError {
    /// The text that was refused.
    pub closed spec fn input(&self) -> Seq<char> {
        self.input@
    }

    /// `invalid extension namespace `<input>``.
    pub fn to_string(&self) -> (s: String)
        ensures
            s@ == "invalid extension namespace `"@ + self.input() + "`"@,
    {
        let mut s = owned("invalid extension namespace `");
        push_str(&mut s, self.input.as_str());
        push_str(&mut s, "`");
        s
    }
}

/// Whether `cs` starts with `https://`.
fn has_https_prefix(cs: &Vec<char>) -> (b: bool)
    ensures
        b == starts_with(cs@, https_prefix()),
{
    let p = ['h', 't', 't', 'p', 's', ':', '/', '/'];
    proof {
        assert(p@ == https_prefix());
    }
    if cs.len() < 8 {
        return false;
    }
    let mut i: usize = 0;
    while i < 8
        invariant
            cs@.len() >= 8,
            p@ == https_prefix(),
            i <= 8,
            forall|j: int| 0 <= j < i ==> cs@[j] == p@[j],
        decreases 8 - i,
    {
        if cs[i] != p[i] {
            proof {
                assert(cs@.take(8)[i as int] != https_prefix()[i as int]);
            }
            return false;
        }
        i = i + 1;
    }
    proof {
        assert(cs@.take(8) =~= https_prefix());
    }
    true
}

impl Namespace {
    /// Accepts exactly the namespace grammar.
    pub fn parse(input: &str) -> (r: Result<Namespace, NamespaceError>)
        ensures
            match r {
                Ok(ns) => is_namespace_text(input@) && ns@ == input@,
                Err(e) => !is_namespace_text(input@) && e.input() == input@,
            },
    {
        let cs = chars_of(input);
        let mut valid = has_https_prefix(&cs) && cs.len() > 8 && cs[8] != '/';
        let mut i: usize = 0;
        while valid && i < cs.len()
            invariant
                cs@ == input@,
                valid ==> i <= cs@.len(),
                valid ==> starts_with(cs@, https_prefix()) && cs@.len() > 8 && cs@[8] != '/',
                valid ==> forall|j: int|
                    0 <= j < i ==> is_ascii_char(#[trigger] cs@[j]) && !is_ascii_control(cs@[j])
                        && !is_ascii_whitespace(cs@[j]),
                !valid ==> !is_namespace_text(input@),
            decreases (if valid { cs@.len() - i + 1 } else { 0 }),
        {
            let c = cs[i];
            if char_is_ascii(c) && !char_is_ascii_control(c) && !char_is_ascii_whitespace(c) {
                i = i + 1;
            } else {
                valid = false;
            }
        }
        if valid {
            Ok(Namespace { text: owned(input) })
        } else {
            Err(NamespaceError { input: owned(input) })
        }
    }

    /// The namespace's text, which `parse` reads back as the same namespace.
    pub fn as_str(&self) -> (s: &str)
        ensures
            s@ == self@,
            is_namespace_text(s@),
    {
        proof {
            use_type_invariant(self);
        }
        self.text.as_str()
    }

    /// Whether two namespaces are the same.
    pub fn same(&self, other: &Namespace) -> (b: bool)
        ensures
            b == (self@ == other@),
    {
        self.text == other.text
    }
}

} // verus!

//! How canonical text reads back: where a text of known layout stands in a
//! document, which tokens the lexer finds in it.
use vstd::prelude::*;

use crate::lexer::{blanks, is_word_char, punctuation, string_from, token_fits, word_at, TokenKind};
use crate::serialize::indentation;
use crate::text::is_whitespace;

verus! {

/// `t` stands in `s` from position `p`.
pub open spec fn text_at(s: Seq<char>, p: int, t: Seq<char>) -> bool {
    &&& 0 <= p
    &&& p + t.len() <= s.len()
    &&& s.subrange(p, p + t.len()) == t
}

/// A word that reads as one token wherever a character that is not a word
/// character follows it.
pub open spec fn plain_word(w: Seq<char>) -> bool {
    &&& w.len() > 0
    &&& forall|i: int| 0 <= i < w.len() ==> is_word_char(#[trigger] w[i])
    &&& w.last() != '-'
}

/// Nothing but whitespace.
pub open spec fn all_blank(w: Seq<char>) -> bool {
    forall|i: int| 0 <= i < w.len() ==> is_whitespace(#[trigger] w[i])
}

/// The end of `s`, or a character that ends a word, stands at `q`.
pub open spec fn word_ends(s: Seq<char>, q: int) -> bool {
    q == s.len() || (0 <= q < s.len() && !is_word_char(s[q]))
}

pub proof fn lemma_text_split(s: Seq<char>, p: int, a: Seq<char>, b: Seq<char>)
    requires
        text_at(s, p, a + b),
    ensures
        text_at(s, p, a),
        text_at(s, p + a.len(), b),
{
    let whole = s.subrange(p, p + (a + b).len());
    assert(whole == a + b);
    assert forall|i: int| 0 <= i < a.len() implies s.subrange(p, p + a.len())[i] == a[i] by {
        assert(whole[i] == (a + b)[i]);
    }
    assert(s.subrange(p, p + a.len()) =~= a);
    assert forall|i: int| 0 <= i < b.len() implies s.subrange(p + a.len(), p + a.len() + b.len())[i] == b[i] by {
        assert(whole[a.len() + i] == (a + b)[a.len() + i]);
    }
    assert(s.subrange(p + a.len(), p + a.len() + b.len()) =~= b);
}

pub proof fn lemma_text_char(s: Seq<char>, p: int, t: Seq<char>, i: int)
    requires
        text_at(s, p, t),
        0 <= i < t.len(),
    ensures
        s[p + i] == t[i],
{
    assert(s.subrange(p, p + t.len())[i] == s[p + i]);
}

/// Blank text stands as blanks.
pub proof fn lemma_blank_text(s: Seq<char>, p: int, w: Seq<char>)
    requires
        text_at(s, p, w),
        all_blank(w),
    ensures
        blanks(s, p, p + w.len()),
{
    assert forall|j: int| p <= j < p + w.len() implies is_whitespace(#[trigger] s[j]) by {
        lemma_text_char(s, p, w, j - p);
    }
}

pub proof fn lemma_blanks_join(s: Seq<char>, a: int, b: int, c: int)
    requires
        blanks(s, a, b),
        blanks(s, b, c),
    ensures
        blanks(s, a, c),
{
}

/// Indentation is blank.
pub proof fn lemma_indentation_blank(n: nat)
    ensures
        all_blank(indentation(n)),
    decreases n,
{
    reveal_strlit("    ");
    if n > 0 {
        lemma_indentation_blank((n - 1) as nat);
        let a = indentation((n - 1) as nat);
        assert forall|i: int| 0 <= i < indentation(n).len() implies is_whitespace(#[trigger] indentation(n)[i]) by {
            if i < a.len() {
                assert(indentation(n)[i] == a[i]);
            } else {
                assert(indentation(n)[i] == "    "@[i - a.len()]);
            }
        }
    }
}

/// A plain word after blanks is the token read there.
pub proof fn lemma_word_token(s: Seq<char>, pos: int, p: int, w: Seq<char>, t: Option<(TokenKind, Seq<char>, int, int)>)
    requires
        blanks(s, pos, p),
        text_at(s, p, w),
        plain_word(w),
        word_ends(s, p + w.len()),
        token_fits(s, pos, t),
    ensures
        t == Some((TokenKind::Word, w, p, p + w.len())),
{
    reveal(token_fits);
    let q = p + w.len();
    assert forall|j: int| p <= j < q implies is_word_char(#[trigger] s[j]) by {
        lemma_text_char(s, p, w, j - p);
    }
    assert forall|j: int| p < j < q implies !(#[trigger] s[j] == '-' && j + 1 < s.len() && s[j + 1] == '>') by {
        if j + 1 < q {
            lemma_text_char(s, p, w, j + 1 - p);
            assert(is_word_char(s[j + 1]));
            assert(punctuation('>') is Some);
        } else {
            lemma_text_char(s, p, w, j - p);
            assert(w[w.len() - 1] == w.last());
        }
    }
    if w.len() > 1 {
        lemma_text_char(s, p, w, 1);
        assert(is_word_char(s[p + 1]));
        assert(punctuation('>') is Some);
    } else {
        lemma_text_char(s, p, w, 0);
        assert(w[0] == w.last());
    }
    assert(word_at(s, p, q));
}

/// A punctuation character after blanks is the token read there.
pub proof fn lemma_punct_token(s: Seq<char>, pos: int, p: int, t: Option<(TokenKind, Seq<char>, int, int)>)
    requires
        blanks(s, pos, p),
        p < s.len(),
        punctuation(s[p]) is Some,
        token_fits(s, pos, t),
    ensures
        t == Some((punctuation(s[p])->0, Seq::<char>::empty(), p, p + 1)),
{
    reveal(token_fits);
}

/// Only blanks to the end: the token read is the end.
pub proof fn lemma_forces_end(s: Seq<char>, pos: int)
    requires
        blanks(s, pos, s.len() as int),
    ensures
        forall|t: Option<(TokenKind, Seq<char>, int, int)>|
            #[trigger] token_fits(s, pos, t) ==> t == Some((TokenKind::End, Seq::<char>::empty(), s.len() as int, s.len() as int)),
{
    reveal(token_fits);
}

/// A string after blanks is the token read there.
pub proof fn lemma_forces_text(s: Seq<char>, pos: int, p: int)
    requires
        blanks(s, pos, p),
        p < s.len(),
        s[p] == '"',
        string_from(s, p + 1) is Some,
    ensures
        forall|t: Option<(TokenKind, Seq<char>, int, int)>|
            #[trigger] token_fits(s, pos, t) ==> t == Some(
                (TokenKind::Text, (string_from(s, p + 1)->0).0, p, (string_from(s, p + 1)->0).1),
            ),
{
    reveal(token_fits);
}

} // verus!

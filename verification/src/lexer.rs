//! Tokens of the document grammars: words, quoted strings and punctuation,
//! with whitespace and `#` comments between them.
use vstd::prelude::*;

use crate::text::{char_is_control, char_is_hex_digit, char_is_whitespace, is_control, is_hex_digit, is_whitespace, owned, push_str, str_eq, string_of};

verus! {

#[derive(Clone, Copy, Debug, PartialEq, Eq, Structural)]
pub enum TokenKind {
    Word,
    Text,
    Arrow,
    LeftBrace,
    RightBrace,
    Comma,
    Semicolon,
    Colon,
    LeftAngle,
    RightAngle,
    Equals,
    LeftBracket,
    RightBracket,
    LeftParen,
    RightParen,
    End,
}

/// A token: its kind, its text (a word's characters or a string's decoded
/// contents) and the character positions it spans.
#[derive(Debug)]
pub struct Token {
    pub kind: TokenKind,
    pub text: Vec<char>,
    pub start: usize,
    pub end: usize,
}

/// A failure at a character position.
#[derive(Debug)]
pub struct Failure {
    pub at: usize,
    pub message: String,
}

/// The token a punctuation character stands for.
pub open spec fn punctuation(c: char) -> Option<TokenKind> {
    if c == '{' {
        Some(TokenKind::LeftBrace)
    } else if c == '}' {
        Some(TokenKind::RightBrace)
    } else if c == ',' {
        Some(TokenKind::Comma)
    } else if c == ';' {
        Some(TokenKind::Semicolon)
    } else if c == ':' {
        Some(TokenKind::Colon)
    } else if c == '<' {
        Some(TokenKind::LeftAngle)
    } else if c == '>' {
        Some(TokenKind::RightAngle)
    } else if c == '=' {
        Some(TokenKind::Equals)
    } else if c == '[' {
        Some(TokenKind::LeftBracket)
    } else if c == ']' {
        Some(TokenKind::RightBracket)
    } else if c == '(' {
        Some(TokenKind::LeftParen)
    } else if c == ')' {
        Some(TokenKind::RightParen)
    } else {
        None
    }
}

/// A character that may stand inside a word.
pub open spec fn is_word_char(c: char) -> bool {
    !is_whitespace(c) && punctuation(c) is None && c != '"' && c != '#'
}

fn punctuation_of(c: char) -> (r: Option<TokenKind>)
    ensures
        r == punctuation(c),
{
    if c == '{' {
        Some(TokenKind::LeftBrace)
    } else if c == '}' {
        Some(TokenKind::RightBrace)
    } else if c == ',' {
        Some(TokenKind::Comma)
    } else if c == ';' {
        Some(TokenKind::Semicolon)
    } else if c == ':' {
        Some(TokenKind::Colon)
    } else if c == '<' {
        Some(TokenKind::LeftAngle)
    } else if c == '>' {
        Some(TokenKind::RightAngle)
    } else if c == '=' {
        Some(TokenKind::Equals)
    } else if c == '[' {
        Some(TokenKind::LeftBracket)
    } else if c == ']' {
        Some(TokenKind::RightBracket)
    } else if c == '(' {
        Some(TokenKind::LeftParen)
    } else if c == ')' {
        Some(TokenKind::RightParen)
    } else {
        None
    }
}

/// How a token kind is named in messages.
pub open spec fn token_kind_name(kind: TokenKind) -> Seq<char> {
    match kind {
        TokenKind::Word => "word"@,
        TokenKind::Text => "string"@,
        TokenKind::Arrow => "`->`"@,
        TokenKind::LeftBrace => "`{`"@,
        TokenKind::RightBrace => "`}`"@,
        TokenKind::Comma => "`,`"@,
        TokenKind::Semicolon => "`;`"@,
        TokenKind::Colon => "`:`"@,
        TokenKind::LeftAngle => "`<`"@,
        TokenKind::RightAngle => "`>`"@,
        TokenKind::Equals => "`=`"@,
        TokenKind::LeftBracket => "`[`"@,
        TokenKind::RightBracket => "`]`"@,
        TokenKind::LeftParen => "`(`"@,
        TokenKind::RightParen => "`)`"@,
        TokenKind::End => "end of input"@,
    }
}

/// How a token kind is named in messages.
pub fn token_name(kind: TokenKind) -> (s: &'static str)
    ensures
        s@ == token_kind_name(kind),
{
    proof {
        reveal_strlit("word");
        reveal_strlit("string");
        reveal_strlit("`->`");
        reveal_strlit("`{`");
        reveal_strlit("`}`");
        reveal_strlit("`,`");
        reveal_strlit("`;`");
        reveal_strlit("`:`");
        reveal_strlit("`<`");
        reveal_strlit("`>`");
        reveal_strlit("`=`");
        reveal_strlit("`[`");
        reveal_strlit("`]`");
        reveal_strlit("`(`");
        reveal_strlit("`)`");
        reveal_strlit("end of input");
    }
    match kind {
        TokenKind::Word => "word",
        TokenKind::Text => "string",
        TokenKind::Arrow => "`->`",
        TokenKind::LeftBrace => "`{`",
        TokenKind::RightBrace => "`}`",
        TokenKind::Comma => "`,`",
        TokenKind::Semicolon => "`;`",
        TokenKind::Colon => "`:`",
        TokenKind::LeftAngle => "`<`",
        TokenKind::RightAngle => "`>`",
        TokenKind::Equals => "`=`",
        TokenKind::LeftBracket => "`[`",
        TokenKind::RightBracket => "`]`",
        TokenKind::LeftParen => "`(`",
        TokenKind::RightParen => "`)`",
        TokenKind::End => "end of input",
    }
}

pub fn failure(at: usize, message: &str) -> (f: Failure)
    ensures
        f.at == at,
        f.message@ == message@,
{
    Failure { at, message: owned(message) }
}

/// Only whitespace stands from `from` up to `to`.
pub open spec fn blanks(s: Seq<char>, from: int, to: int) -> bool {
    &&& 0 <= from <= to <= s.len()
    &&& forall|j: int| from <= j < to ==> is_whitespace(#[trigger] s[j])
}

/// A word stands from `p` up to `q`: word characters that do not run into
/// `->`, followed by the end or by a character that is not a word character.
pub open spec fn word_at(s: Seq<char>, p: int, q: int) -> bool {
    &&& 0 <= p < q <= s.len()
    &&& forall|j: int| p <= j < q ==> is_word_char(#[trigger] s[j])
    &&& !(s[p] == '-' && p + 1 < s.len() && s[p + 1] == '>')
    &&& forall|j: int| p < j < q ==> !(#[trigger] s[j] == '-' && j + 1 < s.len() && s[j + 1] == '>')
    &&& (q == s.len() || !is_word_char(s[q]))
}

/// What a token read from `pos` is, where the text makes it plain: after
/// blanks, a punctuation character, a word, a string, or the end. `t` is the
/// token read, as kind, text, start and end, or `None` when reading failed.
#[verifier::opaque]
pub open spec fn token_fits(s: Seq<char>, pos: int, t: Option<(TokenKind, Seq<char>, int, int)>) -> bool {
    &&& forall|p: int|
        #[trigger] blanks(s, pos, p) && p < s.len() && punctuation(s[p]) is Some ==> t == Some(
            (punctuation(s[p])->0, Seq::<char>::empty(), p, p + 1),
        )
    &&& forall|p: int, q: int|
        #[trigger] blanks(s, pos, p) && #[trigger] word_at(s, p, q) ==> t == Some((TokenKind::Word, s.subrange(p, q), p, q))
    &&& forall|p: int|
        #[trigger] blanks(s, pos, p) && p < s.len() && s[p] == '"' && string_from(s, p + 1) is Some ==> t == Some(
            (TokenKind::Text, (string_from(s, p + 1)->0).0, p, (string_from(s, p + 1)->0).1),
        )
    &&& blanks(s, pos, s.len() as int) ==> t == Some((TokenKind::End, Seq::<char>::empty(), s.len() as int, s.len() as int))
}

/// The first position at or after `pos` that is neither whitespace nor
/// inside a comment.
fn skip_ignored(chars: &Vec<char>, pos: usize) -> (r: usize)
    requires
        pos <= chars@.len(),
    ensures
        pos <= r <= chars@.len(),
        r < chars@.len() ==> !is_whitespace(chars@[r as int]) && chars@[r as int] != '#',
        pos < chars@.len() && !is_whitespace(chars@[pos as int]) && chars@[pos as int] != '#' ==> r == pos,
        forall|p: int|
            #[trigger] blanks(chars@, pos as int, p) && (p == chars@.len() || (!is_whitespace(chars@[p]) && chars@[p] != '#')) ==> r == p,
{
    let n = chars.len();
    let mut i = pos;
    while i < n
        invariant
            pos <= i <= n,
            n == chars@.len(),
            pos < n && !is_whitespace(chars@[pos as int]) && chars@[pos as int] != '#' ==> i == pos,
            forall|p: int|
                #[trigger] blanks(chars@, pos as int, p) && (p == chars@.len() || (!is_whitespace(chars@[p]) && chars@[p] != '#')) ==> i <= p,
        decreases n - i,
    {
        let c = chars[i];
        if char_is_whitespace(c) {
            i = i + 1;
        } else if c == '#' {
            let ghost before = i;
            i = i + 1;
            while i < n && chars[i] != '\n'
                invariant
                    before < i <= n,
                    pos <= before,
                    n == chars@.len(),
                decreases n - i,
            {
                i = i + 1;
            }
        } else {
            return i;
        }
    }
    i
}

/// The value of a hexadecimal digit.
pub open spec fn hex_digit_value(c: char) -> nat {
    let u = c as u32;
    if '0' <= c && c <= '9' {
        (u - 48) as nat
    } else if 'a' <= c && c <= 'f' {
        (u - 87) as nat
    } else {
        (u - 55) as nat
    }
}

/// The code written by the four hexadecimal digits at `i`.
pub open spec fn hex4_value(s: Seq<char>, i: int) -> nat {
    hex_digit_value(s[i]) * 4096 + hex_digit_value(s[i + 1]) * 256 + hex_digit_value(s[i + 2]) * 16
        + hex_digit_value(s[i + 3])
}

/// A Unicode scalar value: a code point that is not a surrogate.
pub open spec fn is_scalar_code(code: nat) -> bool {
    code < 0xD800 || (0xE000 <= code && code <= 0x10FFFF)
}

/// The escape whose letter is at `pos` (just after a backslash): the
/// character it stands for and the position after it.
pub open spec fn escape_at(s: Seq<char>, pos: int) -> Option<(char, int)> {
    if pos < 0 || pos >= s.len() {
        None
    } else {
        let e = s[pos];
        if e == '"' {
            Some(('"', pos + 1))
        } else if e == '\\' {
            Some(('\\', pos + 1))
        } else if e == '/' {
            Some(('/', pos + 1))
        } else if e == 'b' {
            Some(('\x08', pos + 1))
        } else if e == 'f' {
            Some(('\x0C', pos + 1))
        } else if e == 'n' {
            Some(('\n', pos + 1))
        } else if e == 'r' {
            Some(('\r', pos + 1))
        } else if e == 't' {
            Some(('\t', pos + 1))
        } else if e == 'u' {
            if pos + 5 <= s.len() && (forall|k: int| pos + 1 <= k < pos + 5 ==> is_hex_digit(#[trigger] s[k]))
                && is_scalar_code(hex4_value(s, pos + 1)) {
                Some(((hex4_value(s, pos + 1) as u32) as char, pos + 5))
            } else {
                None
            }
        } else {
            None
        }
    }
}

/// `prefix` before the contents of a read, if it succeeded.
pub open spec fn prefixed(prefix: Seq<char>, r: Option<(Seq<char>, int)>) -> Option<(Seq<char>, int)> {
    match r {
        Some((v, p)) => Some((prefix + v, p)),
        None => None,
    }
}

/// The decoded contents of a quoted string read from `i`, just after its
/// opening quote, and the position after its closing quote; `None` when the
/// string is unterminated, holds a raw control character or a bad escape.
pub open spec fn string_from(s: Seq<char>, i: int) -> Option<(Seq<char>, int)>
    decreases s.len() - i,
{
    if i < 0 || i >= s.len() {
        None
    } else if s[i] == '"' {
        Some((Seq::empty(), i + 1))
    } else if s[i] == '\\' {
        match escape_at(s, i + 1) {
            Some((c, next)) => if i < next <= s.len() {
                prefixed(seq![c], string_from(s, next))
            } else {
                None
            },
            None => None,
        }
    } else if is_control(s[i]) {
        None
    } else {
        prefixed(seq![s[i]], string_from(s, i + 1))
    }
}

/// The value of one hexadecimal digit.
fn hex_value(c: char) -> (v: u32)
    requires
        is_hex_digit(c),
    ensures
        v < 16,
        v == hex_digit_value(c),
{
    let u = c as u32;
    if '0' <= c && c <= '9' {
        u - 48
    } else if 'a' <= c && c <= 'f' {
        u - 87
    } else {
        u - 55
    }
}

/// The character with code point `code`, when it is a Unicode scalar value.
#[verifier::external_body]
fn char_from_code(code: u32) -> (r: Option<char>)
    ensures
        r is Some <==> (code < 0xD800 || (0xE000 <= code && code <= 0x10FFFF)),
        r matches Some(c) ==> c as u32 == code,
{
    char::from_u32(code)
}

/// Reads the escape whose letter is at `pos`; returns the character and
/// the position after the escape.
fn read_escape(chars: &Vec<char>, start: usize, pos: usize) -> (r: Result<(char, usize), Failure>)
    requires
        start < pos <= chars@.len(),
    ensures
        r matches Ok((c, p)) ==> pos < p <= chars@.len() && escape_at(chars@, pos as int) == Some((c, p as int)),
        r is Err ==> escape_at(chars@, pos as int) is None,
        r matches Err(f) ==> f.at <= chars@.len(),
{
    let n = chars.len();
    if pos >= n {
        return Err(failure(start, "unterminated escape"));
    }
    let e = chars[pos];
    if e == '"' {
        Ok(('"', pos + 1))
    } else if e == '\\' {
        Ok(('\\', pos + 1))
    } else if e == '/' {
        Ok(('/', pos + 1))
    } else if e == 'b' {
        Ok(('\x08', pos + 1))
    } else if e == 'f' {
        Ok(('\x0C', pos + 1))
    } else if e == 'n' {
        Ok(('\n', pos + 1))
    } else if e == 'r' {
        Ok(('\r', pos + 1))
    } else if e == 't' {
        Ok(('\t', pos + 1))
    } else if e == 'u' {
        let first = pos + 1;
        if n - first < 4 {
            return Err(failure(first, "short unicode escape"));
        }
        let ghost s = chars@;
        let mut code: u32 = 0;
        let mut i: usize = first;
        while i < first + 4
            invariant
                first <= i <= first + 4,
                first + 4 <= n,
                n == chars@.len(),
                s == chars@,
                first == pos + 1,
                s[pos as int] == 'u',
                forall|k: int| first <= k < i ==> is_hex_digit(#[trigger] s[k]),
                i - first == 0 ==> code == 0,
                i - first == 1 ==> code == hex_digit_value(s[first as int]),
                i - first == 2 ==> code == hex_digit_value(s[first as int]) * 16 + hex_digit_value(s[first + 1]),
                i - first == 3 ==> code == hex_digit_value(s[first as int]) * 256 + hex_digit_value(s[first + 1]) * 16
                    + hex_digit_value(s[first + 2]),
                i - first == 4 ==> code == hex4_value(s, first as int),
            decreases first + 4 - i,
        {
            let c = chars[i];
            if !char_is_hex_digit(c) {
                proof {
                    assert(!is_hex_digit(s[i as int]));
                }
                return Err(failure(i, "invalid unicode escape"));
            }
            code = code * 16 + hex_value(c);
            i = i + 1;
        }
        match char_from_code(code) {
            Some(c) => {
                proof {
                    vstd::utf8::char_u32_cast(c, code);
                }
                Ok((c, first + 4))
            },
            None => Err(failure(first, "invalid unicode scalar")),
        }
    } else {
        Err(failure(pos, "invalid string escape"))
    }
}

/// Reads a quoted string whose opening quote is at `start`.
fn read_string(chars: &Vec<char>, start: usize) -> (r: Result<(Vec<char>, usize), Failure>)
    requires
        start < chars@.len(),
        chars@[start as int] == '"',
    ensures
        r matches Ok((v, p)) ==> start < p <= chars@.len() && string_from(chars@, start + 1) == Some((v@, p as int)),
        r is Err ==> string_from(chars@, start + 1) is None,
        r matches Err(f) ==> f.at <= chars@.len(),
{
    let n = chars.len();
    let mut value: Vec<char> = Vec::new();
    let mut i = start + 1;
    while i < n
        invariant
            start < i <= n,
            n == chars@.len(),
            string_from(chars@, start + 1) == prefixed(value@, string_from(chars@, i as int)),
        decreases n - i,
    {
        let c = chars[i];
        if c == '"' {
            proof {
                assert(value@ + Seq::<char>::empty() =~= value@);
            }
            return Ok((value, i + 1));
        } else if c == '\\' {
            let (e, next) = match read_escape(chars, start, i + 1) {
                Ok(found) => found,
                Err(f) => {
                    return Err(f);
                },
            };
            proof {
                let rest = string_from(chars@, next as int);
                if let Some((v, p)) = rest {
                    assert(value@ + (seq![e] + v) =~= value@.push(e) + v);
                }
            }
            value.push(e);
            i = next;
        } else if char_is_control(c) {
            return Err(failure(i, "control character in string"));
        } else {
            proof {
                let rest = string_from(chars@, i + 1);
                if let Some((v, p)) = rest {
                    assert(value@ + (seq![c] + v) =~= value@.push(c) + v);
                }
            }
            value.push(c);
            i = i + 1;
        }
    }
    Err(failure(start, "unterminated string"))
}

/// Reads a word starting at `start`: the longest run of word characters
/// that does not run into `->`.
fn read_word(chars: &Vec<char>, start: usize) -> (r: usize)
    requires
        start < chars@.len(),
        is_word_char(chars@[start as int]),
    ensures
        start < r <= chars@.len(),
        forall|i: int| start <= i < r ==> is_word_char(#[trigger] chars@[i]),
        forall|q: int| #[trigger] word_at(chars@, start as int, q) ==> r == q,
{
    let n = chars.len();
    let mut i = start + 1;
    while i < n
        invariant
            start < i <= n,
            n == chars@.len(),
            forall|j: int| start <= j < i ==> is_word_char(#[trigger] chars@[j]),
            forall|q: int| #[trigger] word_at(chars@, start as int, q) ==> i <= q,
        decreases n - i,
    {
        let c = chars[i];
        if char_is_whitespace(c) || punctuation_of(c).is_some() || c == '"' || c == '#' {
            return i;
        }
        if c == '-' && i + 1 < n && chars[i + 1] == '>' {
            return i;
        }
        i = i + 1;
    }
    i
}

/// The next token at or after `pos`.
pub fn next_token(chars: &Vec<char>, pos: usize) -> (r: Result<Token, Failure>)
    requires
        pos <= chars@.len(),
    ensures
        r matches Ok(t) ==> {
            &&& pos <= t.start <= t.end <= chars@.len()
            &&& (t.kind == TokenKind::End <==> t.start == chars@.len())
            &&& t.kind == TokenKind::End ==> t.end == t.start
            &&& t.kind != TokenKind::End ==> t.start < t.end
            &&& t.kind == TokenKind::Word ==> t.text@ == chars@.subrange(t.start as int, t.end as int)
            &&& t.kind == TokenKind::Text ==> string_from(chars@, t.start + 1) == Some((t.text@, t.end as int))
        },
        pos < chars@.len() && chars@[pos as int] == '"' ==> match r {
            Ok(t) => t.kind == TokenKind::Text && t.start == pos,
            Err(_) => string_from(chars@, pos + 1) is None,
        },
        r matches Err(f) ==> f.at <= chars@.len(),
        token_fits(
            chars@,
            pos as int,
            match r {
                Ok(t) => Some((t.kind, t.text@, t.start as int, t.end as int)),
                Err(_) => None,
            },
        ),
{
    proof {
        reveal(token_fits);
    }
    let n = chars.len();
    let start = skip_ignored(chars, pos);
    if start == n {
        return Ok(Token { kind: TokenKind::End, text: Vec::new(), start, end: start });
    }
    let c = chars[start];
    if let Some(kind) = punctuation_of(c) {
        return Ok(Token { kind, text: Vec::new(), start, end: start + 1 });
    }
    if c == '-' && start + 1 < n && chars[start + 1] == '>' {
        return Ok(Token { kind: TokenKind::Arrow, text: Vec::new(), start, end: start + 2 });
    }
    if c == '"' {
        let (text, end) = read_string(chars, start)?;
        return Ok(Token { kind: TokenKind::Text, text, start, end });
    }
    let end = read_word(chars, start);
    let text = slice_chars(chars, start, end);
    Ok(Token { kind: TokenKind::Word, text, start, end })
}

/// The characters from `start` up to `end`.
pub fn slice_chars(chars: &Vec<char>, start: usize, end: usize) -> (v: Vec<char>)
    requires
        start <= end <= chars@.len(),
    ensures
        v@ == chars@.subrange(start as int, end as int),
{
    let mut v: Vec<char> = Vec::new();
    let mut i = start;
    while i < end
        invariant
            start <= i <= end,
            end <= chars@.len(),
            v@ == chars@.subrange(start as int, i as int),
        decreases end - i,
    {
        v.push(chars[i]);
        proof {
            assert(chars@.subrange(start as int, i + 1) =~= chars@.subrange(start as int, i as int).push(chars@[i as int]));
        }
        i = i + 1;
    }
    v
}

/// A stream of tokens over a document, positioned at its current token.
pub struct Cursor {
    chars: Vec<char>,
    current: Token,
}

impl Cursor {
    pub closed spec fn source(&self) -> Seq<char> {
        self.chars@
    }

    pub closed spec fn current_kind(&self) -> TokenKind {
        self.current.kind
    }

    pub closed spec fn current_text(&self) -> Seq<char> {
        self.current.text@
    }

    pub closed spec fn current_start(&self) -> int {
        self.current.start as int
    }

    pub closed spec fn current_end(&self) -> int {
        self.current.end as int
    }

    /// The current token: its kind, text, start and end.
    pub open spec fn token(&self) -> (TokenKind, Seq<char>, int, int) {
        (self.current_kind(), self.current_text(), self.current_start(), self.current_end())
    }

    /// How much of the document is left, from the current token on.
    pub open spec fn remaining(&self) -> nat {
        if self.current_start() <= self.source().len() {
            (self.source().len() - self.current_start()) as nat
        } else {
            0
        }
    }

    pub closed spec fn wf(&self) -> bool {
        &&& self.current.start <= self.current.end <= self.chars@.len()
        &&& (self.current.kind == TokenKind::End <==> self.current.start == self.chars@.len())
        &&& self.current.kind != TokenKind::End ==> self.current.start < self.current.end
        &&& self.current.kind == TokenKind::Word ==> self.current.text@ == self.chars@.subrange(
            self.current.start as int,
            self.current.end as int,
        )
        &&& self.current.kind == TokenKind::Text ==> string_from(self.chars@, self.current.start + 1) == Some(
            (self.current.text@, self.current.end as int),
        )
    }

    /// A word token is the text it spans.
    pub proof fn lemma_word_spans(&self)
        requires
            self.wf(),
            self.current_kind() == TokenKind::Word,
        ensures
            0 <= self.current_start() <= self.current_end() <= self.source().len(),
            self.source().subrange(self.current_start(), self.current_end()) == self.current_text(),
    {
    }

    /// A cursor at the first token of `chars`.
    pub fn new(chars: Vec<char>) -> (r: Result<Cursor, Failure>)
        ensures
            r matches Ok(c) ==> c.wf() && c.source() == chars@,
            r matches Err(f) ==> f.at <= chars@.len(),
            token_fits(
                chars@,
                0,
                match r {
                    Ok(c) => Some(c.token()),
                    Err(_) => None,
                },
            ),
    {
        let current = next_token(&chars, 0)?;
        Ok(Cursor { chars, current })
    }

    pub fn kind(&self) -> (k: TokenKind)
        ensures
            k == self.current_kind(),
    {
        self.current.kind
    }

    /// The character position of the current token.
    pub fn at(&self) -> (p: usize)
        ensures
            p == self.current_start(),
            self.wf() ==> p <= self.source().len(),
    {
        self.current.start
    }

    /// The character position just after the current token.
    pub fn end(&self) -> (p: usize)
        ensures
            p == self.current_end(),
            self.wf() ==> self.current_start() <= p <= self.source().len(),
    {
        self.current.end
    }

    /// The document's characters.
    pub fn chars(&self) -> (v: &Vec<char>)
        ensures
            v@ == self.source(),
    {
        &self.chars
    }

    /// The current token's text.
    pub fn text(&self) -> (v: &Vec<char>)
        ensures
            v@ == self.current_text(),
    {
        &self.current.text
    }

    /// Moves to the next token.
    pub fn advance(&mut self) -> (r: Result<(), Failure>)
        requires
            old(self).wf(),
        ensures
            final(self).source() == old(self).source(),
            r is Ok ==> final(self).wf(),
            r is Ok ==> final(self).current_start() >= old(self).current_end(),
            r is Ok && old(self).current_kind() != TokenKind::End ==> final(self).remaining() < old(self).remaining(),
            r is Ok && old(self).current_kind() == TokenKind::End ==> final(self).remaining() == 0,
            r matches Err(f) ==> f.at <= old(self).source().len(),
            token_fits(
                old(self).source(),
                old(self).current_end(),
                match r {
                    Ok(_) => Some(final(self).token()),
                    Err(_) => None,
                },
            ),
    {
        let next = next_token(&self.chars, self.current.end)?;
        self.current = next;
        Ok(())
    }

    /// A failure at the current token.
    pub fn error(&self, message: &str) -> (f: Failure)
        requires
            self.wf(),
        ensures
            f.at <= self.source().len(),
            f.message@ == message@,
    {
        failure(self.current.start, message)
    }

    /// A failure at the current token with an owned message.
    pub fn error_owned(&self, message: String) -> (f: Failure)
        requires
            self.wf(),
        ensures
            f.at <= self.source().len(),
            f.message@ == message@,
    {
        Failure { at: self.current.start, message }
    }

    /// Consumes a word and returns its text.
    pub fn take_word(&mut self) -> (r: Result<String, Failure>)
        requires
            old(self).wf(),
        ensures
            final(self).source() == old(self).source(),
            r is Ok ==> final(self).wf() && final(self).remaining() < old(self).remaining(),
            r matches Ok(w) ==> old(self).current_kind() == TokenKind::Word && w@ == old(self).current_text(),
            r matches Err(f) ==> f.at <= old(self).source().len(),
            old(self).current_kind() == TokenKind::Word ==> token_fits(
                old(self).source(),
                old(self).current_end(),
                match r {
                    Ok(_) => Some(final(self).token()),
                    Err(_) => None,
                },
            ),
    {
        if self.current.kind != TokenKind::Word {
            return Err(self.error("expected a word"));
        }
        let w = string_of(self.current.text.as_slice());
        self.advance()?;
        Ok(w)
    }

    /// Consumes a string and returns its contents, if the current token is
    /// one.
    pub fn take_text(&mut self) -> (r: Result<Option<String>, Failure>)
        requires
            old(self).wf(),
        ensures
            final(self).source() == old(self).source(),
            r is Ok ==> final(self).wf() && final(self).remaining() <= old(self).remaining(),
            r matches Ok(Some(w)) ==> old(self).current_kind() == TokenKind::Text && w@ == old(self).current_text()
                && final(self).remaining() < old(self).remaining() && string_from(
                old(self).source(),
                old(self).current_start() + 1,
            ) == Some((w@, old(self).current_end())),
            r matches Ok(None) ==> old(self).current_kind() != TokenKind::Text && *final(self) == *old(self),
            old(self).current_kind() != TokenKind::Text ==> r matches Ok(None),
            r matches Err(f) ==> f.at <= old(self).source().len(),
            old(self).current_kind() == TokenKind::Text ==> token_fits(
                old(self).source(),
                old(self).current_end(),
                match r {
                    Ok(_) => Some(final(self).token()),
                    Err(_) => None,
                },
            ),
    {
        if self.current.kind != TokenKind::Text {
            return Ok(None);
        }
        let w = string_of(self.current.text.as_slice());
        self.advance()?;
        Ok(Some(w))
    }

    /// Consumes a token of the given kind.
    pub fn expect(&mut self, kind: TokenKind) -> (r: Result<(), Failure>)
        requires
            old(self).wf(),
        ensures
            final(self).source() == old(self).source(),
            r is Ok ==> old(self).current_kind() == kind && final(self).wf(),
            r is Ok && kind != TokenKind::End ==> final(self).remaining() < old(self).remaining(),
            r matches Err(f) ==> f.at <= old(self).source().len(),
            old(self).current_kind() == kind ==> token_fits(
                old(self).source(),
                old(self).current_end(),
                match r {
                    Ok(_) => Some(final(self).token()),
                    Err(_) => None,
                },
            ),
    {
        if self.current.kind == kind {
            self.advance()
        } else {
            let mut message = owned("expected ");
            push_str(&mut message, token_name(kind));
            push_str(&mut message, ", got ");
            push_str(&mut message, token_name(self.current.kind));
            Err(self.error_owned(message))
        }
    }

    /// Consumes the word `expected`.
    pub fn expect_word(&mut self, expected: &str) -> (r: Result<(), Failure>)
        requires
            old(self).wf(),
        ensures
            final(self).source() == old(self).source(),
            r is Ok ==> old(self).current_kind() == TokenKind::Word && old(self).current_text() == expected@
                && final(self).wf() && final(self).remaining() < old(self).remaining(),
            r matches Err(f) ==> f.at <= old(self).source().len(),
            old(self).current_kind() == TokenKind::Word && old(self).current_text() == expected@ ==> token_fits(
                old(self).source(),
                old(self).current_end(),
                match r {
                    Ok(_) => Some(final(self).token()),
                    Err(_) => None,
                },
            ),
    {
        let at = self.current.start;
        let actual = self.take_word()?;
        if str_eq(actual.as_str(), expected) {
            Ok(())
        } else {
            let mut message = owned("expected `");
            push_str(&mut message, expected);
            push_str(&mut message, "`, got `");
            push_str(&mut message, actual.as_str());
            push_str(&mut message, "`");
            Err(failure(at, message.as_str()))
        }
    }

    /// Whether the current token is the word `w`.
    pub fn at_word(&self, w: &str) -> (b: bool)
        ensures
            b == (self.current_kind() == TokenKind::Word && self.current_text() == w@),
    {
        if self.current.kind != TokenKind::Word {
            return false;
        }
        let t = string_of(self.current.text.as_slice());
        str_eq(t.as_str(), w)
    }
}

} // verus!

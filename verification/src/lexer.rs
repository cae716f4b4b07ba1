//! Lexer for ninja manifests.
//!
//! Tokens are matched by the longest rule that fits; `$`-escapes and line
//! continuations are resolved while values and paths are read.

use vstd::prelude::*;
use vstd::string::*;

use crate::error::Error;
use crate::eval::EvalString;
use crate::text::{push_decimal, push_repeated_char, string_from_utf8_lossy};

verus! {

use crate::error::ErrorView;
use crate::eval::{with_text, with_var, TokView};
use crate::text::{decimal, lemma_scan, repeated, scan, scan_back, utf8_lossy};

/// A lexical token.
#[derive(Copy, Clone, PartialEq, Eq, Structural, Debug)]
pub enum Token {
    /// A byte that cannot start any token.
    Error,
    /// The `build` keyword.
    Build,
    /// `:`
    Colon,
    /// The `default` keyword.
    Default,
    /// `=`
    Equals,
    /// An identifier.
    Ident,
    /// The keyword that reads another file into the same scope.
    Include,
    /// Leading whitespace, which introduces an indented binding.
    Indent,
    /// End of a statement.
    Newline,
    /// `|`
    Pipe,
    /// `||`
    Pipe2,
    /// `|@`
    PipeAt,
    /// The `pool` keyword.
    Pool,
    /// The `rule` keyword.
    Rule,
    /// The `subninja` keyword.
    Subninja,
    /// End of input.
    Eof,
}

/// The name of a token in error messages.
pub open spec fn token_name(t: Token) -> Seq<char> {
    match t {
        Token::Error => "lexing error"@,
        Token::Build => "'build'"@,
        Token::Colon => "':'"@,
        Token::Default => "'default'"@,
        Token::Equals => "'='"@,
        Token::Ident => "identifier"@,
        Token::Include => "'include'"@,
        Token::Indent => "indent"@,
        Token::Newline => "newline"@,
        Token::Pipe2 => "'||'"@,
        Token::Pipe => "'|'"@,
        Token::PipeAt => "'|@'"@,
        Token::Pool => "'pool'"@,
        Token::Rule => "'rule'"@,
        Token::Subninja => "'subninja'"@,
        Token::Eof => "eof"@,
    }
}

/// What an error message adds when `t` was expected.
pub open spec fn token_hint(t: Token) -> Seq<char> {
    match t {
        Token::Colon => " ($ also escapes ':')"@,
        _ => ""@,
    }
}

impl Token {
    /// A human-readable name, as used in error messages.
    pub fn name(self) -> (r: &'static str)
        ensures
            r@ == token_name(self),
    {
        match self {
            Token::Error => "lexing error",
            Token::Build => "'build'",
            Token::Colon => "':'",
            Token::Default => "'default'",
            Token::Equals => "'='",
            Token::Ident => "identifier",
            Token::Include => "'include'",
            Token::Indent => "indent",
            Token::Newline => "newline",
            Token::Pipe2 => "'||'",
            Token::Pipe => "'|'",
            Token::PipeAt => "'|@'",
            Token::Pool => "'pool'",
            Token::Rule => "'rule'",
            Token::Subninja => "'subninja'",
            Token::Eof => "eof",
        }
    }

    fn error_hint(self) -> (r: &'static str)
        ensures
            r@ == token_hint(self),
    {
        match self {
            Token::Colon => " ($ also escapes ':')",
            _ => "",
        }
    }
}

/// The bytes of names in `${name}`, and of rule, pool and variable names:
/// letters, digits, `_`, `.` and `-`.
pub open spec fn is_name_byte(c: u8) -> bool {
    is_simple_name_byte(c) || c == 46
}

/// The bytes of names in `$name`: letters, digits, `_` and `-`.
pub open spec fn is_simple_name_byte(c: u8) -> bool {
    97 <= c <= 122 || 65 <= c <= 90 || 48 <= c <= 57 || c == 95 || c == 45
}

/// Accepts the bytes of names.
pub open spec fn name_byte() -> spec_fn(u8) -> bool {
    |c: u8| is_name_byte(c)
}

/// Accepts the bytes of simple names.
pub open spec fn simple_name_byte() -> spec_fn(u8) -> bool {
    |c: u8| is_simple_name_byte(c)
}

/// Accepts the space.
pub open spec fn space() -> spec_fn(u8) -> bool {
    |c: u8| c == 32
}

/// Accepts everything but a line feed and NUL.
pub open spec fn comment_byte() -> spec_fn(u8) -> bool {
    |c: u8| c != 10 && c != 0
}

/// Accepts everything but a line feed.
pub open spec fn not_newline() -> spec_fn(u8) -> bool {
    |c: u8| c != 10
}

/// Accepts the bytes that stand for themselves in paths and values.
pub open spec fn literal_byte() -> spec_fn(u8) -> bool {
    |c: u8| c != 36 && c != 32 && c != 58 && c != 13 && c != 10 && c != 124 && c != 0
}

/// The keyword that a word is, or an identifier.
pub open spec fn keyword(w: Seq<u8>) -> Token {
    if w == seq![98u8, 117, 105, 108, 100] {
        Token::Build
    } else if w == seq![112u8, 111, 111, 108] {
        Token::Pool
    } else if w == seq![114u8, 117, 108, 101] {
        Token::Rule
    } else if w == seq![100u8, 101, 102, 97, 117, 108, 116] {
        Token::Default
    } else if w == seq![105u8, 110, 99, 108, 117, 100, 101] {
        Token::Include
    } else if w == seq![115u8, 117, 98, 110, 105, 110, 106, 97] {
        Token::Subninja
    } else {
        Token::Ident
    }
}

/// The position behind the spaces and line continuations at `p`.
pub open spec fn behind_blanks(c: Seq<u8>, p: int) -> int
    decreases c.len() - p,
{
    if 0 <= p < c.len() && c[p] == 32 {
        behind_blanks(c, p + 1)
    } else if 0 <= p && p + 2 < c.len() && c[p] == 36 && c[p + 1] == 13 && c[p + 2] == 10 {
        behind_blanks(c, p + 3)
    } else if 0 <= p && p + 1 < c.len() && c[p] == 36 && c[p + 1] == 10 {
        behind_blanks(c, p + 2)
    } else {
        p
    }
}

/// A token with its start and the position behind it.
pub struct TokenAt {
    pub token: Token,
    pub start: int,
    pub end: int,
}

/// The token at `p`, comments skipped.
pub open spec fn token_at(c: Seq<u8>, p: int) -> TokenAt
    decreases c.len() - p,
{
    if !(0 <= p <= c.len()) {
        TokenAt { token: Token::Eof, start: p, end: p }
    } else {
        proof {
            lemma_scan(c, p, space());
        }
        let q = scan(c, p, space());
        let r = scan(c, q, name_byte());
        if q < c.len() && c[q] == 35 {
            proof {
                lemma_scan(c, q + 1, comment_byte());
            }
            let e = scan(c, q + 1, comment_byte());
            if e < c.len() && c[e] == 10 {
                token_at(c, e + 1)
            } else if q > p {
                TokenAt { token: Token::Indent, start: p, end: q }
            } else {
                TokenAt { token: Token::Error, start: q, end: q + 1 }
            }
        } else if q + 1 < c.len() && c[q] == 13 && c[q + 1] == 10 {
            TokenAt { token: Token::Newline, start: p, end: q + 2 }
        } else if q < c.len() && c[q] == 10 {
            TokenAt { token: Token::Newline, start: p, end: q + 1 }
        } else if q > p {
            TokenAt { token: Token::Indent, start: p, end: q }
        } else if r > q {
            TokenAt { token: keyword(c.subrange(q, r)), start: q, end: r }
        } else if q >= c.len() {
            TokenAt { token: Token::Eof, start: q, end: q }
        } else if c[q] == 61 {
            TokenAt { token: Token::Equals, start: q, end: q + 1 }
        } else if c[q] == 58 {
            TokenAt { token: Token::Colon, start: q, end: q + 1 }
        } else if c[q] == 124 && q + 1 < c.len() && c[q + 1] == 64 {
            TokenAt { token: Token::PipeAt, start: q, end: q + 2 }
        } else if c[q] == 124 && q + 1 < c.len() && c[q + 1] == 124 {
            TokenAt { token: Token::Pipe2, start: q, end: q + 2 }
        } else if c[q] == 124 {
            TokenAt { token: Token::Pipe, start: q, end: q + 1 }
        } else if c[q] == 0 {
            TokenAt { token: Token::Eof, start: q, end: q + 1 }
        } else {
            TokenAt { token: Token::Error, start: q, end: q + 1 }
        }
    }
}

/// The position from which reading goes on after a token: blanks behind it are
/// skipped, except behind the end of a line or of the input.
pub open spec fn behind_token(c: Seq<u8>, t: TokenAt) -> int {
    if t.token == Token::Newline || t.token == Token::Eof {
        t.end
    } else {
        behind_blanks(c, t.end)
    }
}

/// A token lies inside the input, and ends no earlier than it starts.
pub proof fn lemma_token_at(c: Seq<u8>, p: int)
    requires
        0 <= p <= c.len(),
    ensures
        p <= token_at(c, p).start <= token_at(c, p).end <= c.len(),
        token_at(c, p).token != Token::Eof ==> token_at(c, p).end > p,
    decreases c.len() - p,
{
    lemma_scan(c, p, space());
    let q = scan(c, p, space());
    lemma_scan(c, q, name_byte());
    if q < c.len() && c[q] == 35 {
        lemma_scan(c, q + 1, comment_byte());
        let e = scan(c, q + 1, comment_byte());
        if e < c.len() && c[e] == 10 {
            lemma_token_at(c, e + 1);
        }
    }
}

/// Skipping blanks stays inside the input.
pub proof fn lemma_behind_blanks(c: Seq<u8>, p: int)
    requires
        0 <= p <= c.len(),
    ensures
        p <= behind_blanks(c, p) <= c.len(),
    decreases c.len() - p,
{
    if p < c.len() && c[p] == 32 {
        lemma_behind_blanks(c, p + 1);
    } else if p + 2 < c.len() && c[p] == 36 && c[p + 1] == 13 && c[p + 2] == 10 {
        lemma_behind_blanks(c, p + 3);
    } else if p + 1 < c.len() && c[p] == 36 && c[p + 1] == 10 {
        lemma_behind_blanks(c, p + 2);
    }
}

/// A path or value that was read: its tokens, where reading stopped, the
/// position behind it, and what was wrong, if anything.
pub struct StringAt {
    pub toks: Seq<TokView>,
    pub start: int,
    pub end: int,
    pub error: Option<Seq<char>>,
}

/// The message for a `$` before something that cannot follow it.
pub open spec fn bad_escape() -> Seq<char> {
    "bad $-escape (literal $ must be written as $$)"@
}

/// The path (ended by a space, `:`, `|` or the end of the line, which stay) or
/// value (ended by the end of the line, which goes) that continues `toks` at
/// `p`.
pub open spec fn string_at(c: Seq<u8>, p: int, path: bool, toks: Seq<TokView>) -> StringAt
    decreases c.len() - p,
{
    if p < 0 || p >= c.len() || c[p] == 0 {
        StringAt { toks, start: p, end: p, error: Some("unexpected EOF"@) }
    } else if c[p] == 36 {
        proof {
            lemma_scan(c, p + 1, simple_name_byte());
        }
        if p + 1 >= c.len() {
            StringAt { toks, start: p, end: p, error: Some(bad_escape()) }
        } else if c[p + 1] == 36 {
            string_at(c, p + 2, path, with_text(toks, "$"@))
        } else if c[p + 1] == 32 {
            string_at(c, p + 2, path, with_text(toks, " "@))
        } else if c[p + 1] == 58 {
            string_at(c, p + 2, path, with_text(toks, ":"@))
        } else if c[p + 1] == 10 {
            proof {
                lemma_scan(c, p + 2, space());
            }
            string_at(c, scan(c, p + 2, space()), path, toks)
        } else if c[p + 1] == 13 && p + 2 < c.len() && c[p + 2] == 10 {
            proof {
                lemma_scan(c, p + 3, space());
            }
            string_at(c, scan(c, p + 3, space()), path, toks)
        } else if c[p + 1] == 123 {
            proof {
                lemma_scan(c, p + 2, name_byte());
            }
            let r = scan(c, p + 2, name_byte());
            if r > p + 2 && r < c.len() && c[r] == 125 {
                string_at(c, r + 1, path, with_var(toks, utf8_lossy(c.subrange(p + 2, r))))
            } else {
                StringAt { toks, start: p, end: p, error: Some(bad_escape()) }
            }
        } else if is_simple_name_byte(c[p + 1]) {
            let r = scan(c, p + 1, simple_name_byte());
            string_at(c, r, path, with_var(toks, utf8_lossy(c.subrange(p + 1, r))))
        } else {
            StringAt { toks, start: p, end: p, error: Some(bad_escape()) }
        }
    } else if c[p] == 13 {
        if p + 1 < c.len() && c[p + 1] == 10 {
            StringAt { toks, start: p, end: if path { p } else { p + 2 }, error: None }
        } else {
            StringAt { toks, start: p, end: p, error: Some("lexing error"@) }
        }
    } else if c[p] == 32 || c[p] == 58 || c[p] == 124 || c[p] == 10 {
        if path {
            StringAt { toks, start: p, end: p, error: None }
        } else if c[p] == 10 {
            StringAt { toks, start: p, end: p + 1, error: None }
        } else {
            string_at(
                c,
                p + 1,
                path,
                with_text(
                    toks,
                    if c[p] == 32 {
                        " "@
                    } else if c[p] == 58 {
                        ":"@
                    } else {
                        "|"@
                    },
                ),
            )
        }
    } else {
        proof {
            lemma_scan(c, p, literal_byte());
        }
        let r = scan(c, p, literal_byte());
        if r > p {
            string_at(c, r, path, with_text(toks, utf8_lossy(c.subrange(p, r))))
        } else {
            StringAt { toks, start: p, end: p, error: None }
        }
    }
}

/// Where reading goes on after a path or value.
pub open spec fn behind_string(c: Seq<u8>, path: bool, s: StringAt) -> int {
    if path {
        behind_blanks(c, s.end)
    } else {
        s.end
    }
}

/// The number of the line that holds position `p`.
pub open spec fn line_number(c: Seq<u8>, p: int) -> nat
    decreases p,
{
    if p <= 0 {
        1
    } else {
        line_number(c, p - 1) + if c[p - 1] == 10 { 1nat } else { 0nat }
    }
}

/// The columns that an error message shows of a line.
pub const TRUNCATE_COLUMN: usize = 72;

/// The number of bytes of a line that an error message shows, `n` being known
/// to be shown.
pub open spec fn shown_columns(c: Seq<u8>, line_start: int, n: int) -> int
    decreases TRUNCATE_COLUMN - n,
{
    if n < TRUNCATE_COLUMN && line_start + n < c.len() && c[line_start + n] != 0 && c[line_start
        + n] != 10 {
        shown_columns(c, line_start, n + 1)
    } else {
        n
    }
}

/// An error message with the place it is about: file and line, and where the
/// column allows it, the line itself with a mark under the place.
pub open spec fn located(
    filename: Seq<char>,
    c: Seq<u8>,
    last: Option<int>,
    message: Seq<char>,
) -> Seq<char> {
    let at = match last {
        Some(t) => t,
        None => 0,
    };
    let line_start = scan_back(c, at, not_newline());
    let col = at - line_start;
    let head = filename + ":"@ + decimal(line_number(c, at)) + ": "@ + message + "\n"@;
    if 0 < col < TRUNCATE_COLUMN {
        let n = shown_columns(c, line_start, 0);
        head + utf8_lossy(c.subrange(line_start, line_start + n)) + (if n == TRUNCATE_COLUMN {
            "..."@
        } else {
            ""@
        }) + "\n"@ + repeated(' ', col) + "^ near here"@
    } else {
        head
    }
}

/// The extra detail for a byte that starts no token.
pub open spec fn lexing_error(c: Seq<u8>, last: Option<int>) -> Seq<char> {
    match last {
        Some(t) => if t < c.len() && c[t] == 9 {
            "tabs are not allowed, use spaces"@
        } else {
            "lexing error"@
        },
        None => "lexing error"@,
    }
}

/// A lexer by what it has read.
pub struct LexerView {
    pub filename: Seq<char>,
    pub input: Seq<u8>,
    pub ofs: int,
    pub last: Option<int>,
}

impl LexerView {
    /// Positions lie inside the input.
    pub open spec fn wf(self) -> bool {
        &&& 0 <= self.ofs <= self.input.len()
        &&& self.last matches Some(t) ==> 0 <= t <= self.input.len()
    }

    /// Whether two lexers read the same file.
    pub open spec fn same_file(self, other: LexerView) -> bool {
        self.input == other.input && self.filename == other.filename
    }

    /// The lexer after it has read a token.
    pub open spec fn after_token(self) -> LexerView {
        let t = token_at(self.input, self.ofs);
        LexerView { ofs: behind_token(self.input, t), last: Some(t.start), ..self }
    }

    /// The lexer after its last token has been given back.
    pub open spec fn unread(self) -> LexerView {
        match self.last {
            Some(t) => LexerView { ofs: t, ..self },
            None => self,
        }
    }

    /// The token that comes next.
    pub open spec fn next(self) -> Token {
        token_at(self.input, self.ofs).token
    }

    /// The lexer after it has asked for `t`: behind the token if it was there,
    /// in front of the token if it was not.
    pub open spec fn after_peek(self, t: Token) -> LexerView {
        if self.next() == t {
            self.after_token()
        } else {
            self.after_token().unread()
        }
    }

    /// The end of the name that comes next.
    pub open spec fn name_end(self) -> int {
        scan(self.input, self.ofs, name_byte())
    }

    /// The name that comes next, if there is one.
    pub open spec fn ident(self) -> Option<Seq<char>> {
        if self.name_end() > self.ofs {
            Some(utf8_lossy(self.input.subrange(self.ofs, self.name_end())))
        } else {
            None
        }
    }

    /// The lexer after it has looked for a name.
    pub open spec fn after_ident(self) -> LexerView {
        LexerView {
            ofs: if self.name_end() > self.ofs {
                behind_blanks(self.input, self.name_end())
            } else {
                self.ofs
            },
            last: Some(self.ofs),
            ..self
        }
    }

    /// The path or value that comes next.
    pub open spec fn string(self, path: bool, toks: Seq<TokView>) -> StringAt {
        string_at(self.input, self.ofs, path, toks)
    }

    /// The lexer after it has read a path or value.
    pub open spec fn after_string(self, path: bool) -> LexerView {
        let s = self.string(path, Seq::empty());
        LexerView {
            ofs: if s.error is None {
                behind_string(self.input, path, s)
            } else {
                self.ofs
            },
            last: Some(s.start),
            ..self
        }
    }

    /// An error at the last token.
    pub open spec fn error(self, message: Seq<char>) -> ErrorView {
        ErrorView::Manifest(located(self.filename, self.input, self.last, message))
    }

    /// The message for a token that is not the expected one.
    pub open spec fn unexpected(self, expected: Token) -> Seq<char> {
        "expected "@ + token_name(expected) + ", got "@ + token_name(self.next()) + token_hint(
            expected,
        )
    }
}

/// How reading goes on does not depend on what was read before: only the
/// tokens do.
pub proof fn lemma_string_position(
    c: Seq<u8>,
    p: int,
    path: bool,
    a: Seq<TokView>,
    b: Seq<TokView>,
)
    ensures
        string_at(c, p, path, a).start == string_at(c, p, path, b).start,
        string_at(c, p, path, a).end == string_at(c, p, path, b).end,
        string_at(c, p, path, a).error == string_at(c, p, path, b).error,
    decreases c.len() - p,
{
    if p < 0 || p >= c.len() || c[p] == 0 {
    } else if c[p] == 36 {
        lemma_scan(c, p + 1, simple_name_byte());
        if p + 1 >= c.len() {
        } else if c[p + 1] == 36 {
            lemma_string_position(c, p + 2, path, with_text(a, "$"@), with_text(b, "$"@));
        } else if c[p + 1] == 32 {
            lemma_string_position(c, p + 2, path, with_text(a, " "@), with_text(b, " "@));
        } else if c[p + 1] == 58 {
            lemma_string_position(c, p + 2, path, with_text(a, ":"@), with_text(b, ":"@));
        } else if c[p + 1] == 10 {
            lemma_scan(c, p + 2, space());
            lemma_string_position(c, scan(c, p + 2, space()), path, a, b);
        } else if c[p + 1] == 13 && p + 2 < c.len() && c[p + 2] == 10 {
            lemma_scan(c, p + 3, space());
            lemma_string_position(c, scan(c, p + 3, space()), path, a, b);
        } else if c[p + 1] == 123 {
            lemma_scan(c, p + 2, name_byte());
            let r = scan(c, p + 2, name_byte());
            if r > p + 2 && r < c.len() && c[r] == 125 {
                let v = utf8_lossy(c.subrange(p + 2, r));
                lemma_string_position(c, r + 1, path, with_var(a, v), with_var(b, v));
            }
        } else if is_simple_name_byte(c[p + 1]) {
            let r = scan(c, p + 1, simple_name_byte());
            let v = utf8_lossy(c.subrange(p + 1, r));
            lemma_string_position(c, r, path, with_var(a, v), with_var(b, v));
        }
    } else if c[p] == 13 {
    } else if c[p] == 32 || c[p] == 58 || c[p] == 124 || c[p] == 10 {
        if !path && c[p] != 10 {
            let t = if c[p] == 32 {
                " "@
            } else if c[p] == 58 {
                ":"@
            } else {
                "|"@
            };
            lemma_string_position(c, p + 1, path, with_text(a, t), with_text(b, t));
        }
    } else {
        lemma_scan(c, p, literal_byte());
        let r = scan(c, p, literal_byte());
        if r > p {
            let t = utf8_lossy(c.subrange(p, r));
            lemma_string_position(c, r, path, with_text(a, t), with_text(b, t));
        }
    }
}

/// Reading a path or value stays inside the input, and a value ends behind a
/// line feed.
pub proof fn lemma_string_at(c: Seq<u8>, p: int, path: bool, toks: Seq<TokView>)
    requires
        0 <= p <= c.len(),
    ensures
        p <= string_at(c, p, path, toks).start <= c.len(),
        p <= string_at(c, p, path, toks).end <= c.len(),
        !path && string_at(c, p, path, toks).error is None ==> p < string_at(
            c,
            p,
            path,
            toks,
        ).end && c[string_at(c, p, path, toks).end - 1] == 10,
    decreases c.len() - p,
{
    if p >= c.len() || c[p] == 0 {
    } else if c[p] == 36 {
        lemma_scan(c, p + 1, simple_name_byte());
        if p + 1 >= c.len() {
        } else if c[p + 1] == 36 {
            lemma_string_at(c, p + 2, path, with_text(toks, "$"@));
        } else if c[p + 1] == 32 {
            lemma_string_at(c, p + 2, path, with_text(toks, " "@));
        } else if c[p + 1] == 58 {
            lemma_string_at(c, p + 2, path, with_text(toks, ":"@));
        } else if c[p + 1] == 10 {
            lemma_scan(c, p + 2, space());
            lemma_string_at(c, scan(c, p + 2, space()), path, toks);
        } else if c[p + 1] == 13 && p + 2 < c.len() && c[p + 2] == 10 {
            lemma_scan(c, p + 3, space());
            lemma_string_at(c, scan(c, p + 3, space()), path, toks);
        } else if c[p + 1] == 123 {
            lemma_scan(c, p + 2, name_byte());
            let r = scan(c, p + 2, name_byte());
            if r > p + 2 && r < c.len() && c[r] == 125 {
                lemma_string_at(
                    c,
                    r + 1,
                    path,
                    with_var(toks, utf8_lossy(c.subrange(p + 2, r))),
                );
            }
        } else if is_simple_name_byte(c[p + 1]) {
            let r = scan(c, p + 1, simple_name_byte());
            lemma_string_at(c, r, path, with_var(toks, utf8_lossy(c.subrange(p + 1, r))));
        }
    } else if c[p] == 13 {
    } else if c[p] == 32 || c[p] == 58 || c[p] == 124 || c[p] == 10 {
        if !path && c[p] != 10 {
            let t = if c[p] == 32 {
                " "@
            } else if c[p] == 58 {
                ":"@
            } else {
                "|"@
            };
            lemma_string_at(c, p + 1, path, with_text(toks, t));
        }
    } else {
        lemma_scan(c, p, literal_byte());
        let r = scan(c, p, literal_byte());
        if r > p {
            lemma_string_at(c, r, path, with_text(toks, utf8_lossy(c.subrange(p, r))));
        }
    }
}

/// Reading a path or value, whatever stands before it, never goes back, nor
/// behind the end of the input. Where it fails, the lexer stays where it is;
/// where a value was read, it stands just behind a line feed.
pub proof fn law_reading_goes_forward(l: LexerView, path: bool, toks: Seq<TokView>)
    requires
        l.wf(),
    ensures
        ({
            let m = l.after_string(path);
            let error = l.string(path, toks).error;
            &&& l.ofs <= m.ofs <= l.input.len()
            &&& error is Some ==> m.ofs == l.ofs
            &&& error is None && !path ==> l.ofs < m.ofs && l.input[m.ofs - 1] == 10
        }),
{
    lemma_string_position(l.input, l.ofs, path, toks, Seq::empty());
    lemma_string_at(l.input, l.ofs, path, Seq::empty());
    lemma_behind_blanks(l.input, l.string(path, Seq::empty()).end);
}

fn name_char(c: u8) -> (r: bool)
    ensures
        r == is_name_byte(c),
{
    simple_name_char(c) || c == 46
}

fn simple_name_char(c: u8) -> (r: bool)
    ensures
        r == is_simple_name_byte(c),
{
    (97 <= c && c <= 122) || (65 <= c && c <= 90) || (48 <= c && c <= 57) || c == 95 || c == 45
}

fn word_token(w: &[u8]) -> (r: Token)
    ensures
        r == keyword(w@),
{
    let n: usize = w.len();
    if n == 5 && w[0] == 98 && w[1] == 117 && w[2] == 105 && w[3] == 108 && w[4] == 100 {
        assert(w@ =~= seq![98u8, 117, 105, 108, 100]);
        Token::Build
    } else if n == 4 && w[0] == 112 && w[1] == 111 && w[2] == 111 && w[3] == 108 {
        assert(w@ =~= seq![112u8, 111, 111, 108]);
        Token::Pool
    } else if n == 4 && w[0] == 114 && w[1] == 117 && w[2] == 108 && w[3] == 101 {
        assert(w@ =~= seq![114u8, 117, 108, 101]);
        Token::Rule
    } else if n == 7 && w[0] == 100 && w[1] == 101 && w[2] == 102 && w[3] == 97 && w[4] == 117
        && w[5] == 108 && w[6] == 116 {
        assert(w@ =~= seq![100u8, 101, 102, 97, 117, 108, 116]);
        Token::Default
    } else if n == 7 && w[0] == 105 && w[1] == 110 && w[2] == 99 && w[3] == 108 && w[4] == 117
        && w[5] == 100 && w[6] == 101 {
        assert(w@ =~= seq![105u8, 110, 99, 108, 117, 100, 101]);
        Token::Include
    } else if n == 8 && w[0] == 115 && w[1] == 117 && w[2] == 98 && w[3] == 110 && w[4] == 105
        && w[5] == 110 && w[6] == 106 && w[7] == 97 {
        assert(w@ =~= seq![115u8, 117, 98, 110, 105, 110, 106, 97]);
        Token::Subninja
    } else {
        Token::Ident
    }
}

/// A lexer over the contents of one manifest file.
pub struct Lexer<'a> {
    filename: String,
    input: &'a [u8],
    ofs: usize,
    last_token: Option<usize>,
}

impl<'a> View for Lexer<'a> {
    type V = LexerView;

    closed spec fn view(&self) -> LexerView {
        LexerView {
            filename: self.filename@,
            input: self.input@,
            ofs: self.ofs as int,
            last: match self.last_token {
                Some(t) => Some(t as int),
                None => None,
            },
        }
    }
}

impl<'a> Lexer<'a> {
    /// Start lexing `input`, reporting errors against `filename`.
    pub fn new(filename: String, input: &'a [u8]) -> (r: Lexer<'a>)
        ensures
            r@.wf(),
            r@ == (LexerView { filename: filename@, input: input@, ofs: 0, last: None }),
    {
        Lexer { filename, input, ofs: 0, last_token: None }
    }

    /// The file being lexed.
    pub fn filename(&self) -> (r: &str)
        ensures
            r@ == self@.filename,
    {
        self.filename.as_str()
    }

    /// Current byte offset.
    pub fn offset(&self) -> (r: usize)
        ensures
            r == self@.ofs,
    {
        self.ofs
    }

    fn find_token(&self) -> (r: (Token, usize, usize))
        requires
            self@.wf(),
        ensures
            ({
                let t = token_at(self@.input, self@.ofs);
                &&& r.0 == t.token
                &&& r.1 == t.start
                &&& r.2 == t.end
            }),
    {
        let input = self.input;
        let len: usize = input.len();
        let ghost c = input@;
        let mut p: usize = self.ofs;
        loop
            invariant
                c == input@,
                len == c.len(),
                p <= len,
                token_at(c, p as int) == token_at(self@.input, self@.ofs),
            decreases len - p,
        {
            let mut q: usize = p;
            while q < len && input[q] == 32
                invariant
                    c == input@,
                    len == c.len(),
                    p <= q <= len,
                    scan(c, q as int, space()) == scan(c, p as int, space()),
                decreases len - q,
            {
                q += 1;
            }
            if q < len && input[q] == 35 {
                let mut e: usize = q + 1;
                while e < len && input[e] != 10 && input[e] != 0
                    invariant
                        c == input@,
                        len == c.len(),
                        q < e <= len,
                        scan(c, e as int, comment_byte()) == scan(c, q + 1, comment_byte()),
                    decreases len - e,
                {
                    e += 1;
                }
                if e < len && input[e] == 10 {
                    p = e + 1;
                    continue ;
                }
                if q > p {
                    return (Token::Indent, p, q);
                }
                return (Token::Error, q, q + 1);
            }
            if len - q > 1 && input[q] == 13 && input[q + 1] == 10 {
                return (Token::Newline, p, q + 2);
            }
            if q < len && input[q] == 10 {
                return (Token::Newline, p, q + 1);
            }
            if q > p {
                return (Token::Indent, p, q);
            }
            let mut r: usize = q;
            while r < len && name_char(input[r])
                invariant
                    c == input@,
                    len == c.len(),
                    q <= r <= len,
                    scan(c, r as int, name_byte()) == scan(c, q as int, name_byte()),
                decreases len - r,
            {
                r += 1;
            }
            if r > q {
                let w = vstd::slice::slice_subrange(input, q, r);
                return (word_token(w), q, r);
            }
            if q >= len {
                return (Token::Eof, q, q);
            }
            let b: u8 = input[q];
            if b == 61 {
                return (Token::Equals, q, q + 1);
            }
            if b == 58 {
                return (Token::Colon, q, q + 1);
            }
            if b == 124 && len - q > 1 && input[q + 1] == 64 {
                return (Token::PipeAt, q, q + 2);
            }
            if b == 124 && len - q > 1 && input[q + 1] == 124 {
                return (Token::Pipe2, q, q + 2);
            }
            if b == 124 {
                return (Token::Pipe, q, q + 1);
            }
            if b == 0 {
                return (Token::Eof, q, q + 1);
            }
            return (Token::Error, q, q + 1);
        }
    }

    /// Read one token.
    pub fn read_token(&mut self) -> (r: Token)
        requires
            old(self)@.wf(),
        ensures
            final(self)@.wf(),
            final(self)@.same_file(old(self)@),
            final(self)@.ofs >= old(self)@.ofs,
            r == old(self)@.next(),
            final(self)@ == old(self)@.after_token(),
    {
        let (token, start, end) = self.find_token();
        proof {
            lemma_token_at(self@.input, self@.ofs);
            lemma_behind_blanks(self@.input, end as int);
        }
        self.last_token = Some(start);
        self.ofs = end;
        if token != Token::Newline && token != Token::Eof {
            self.eat_whitespace();
        }
        token
    }

    /// Rewind to the start of the token most recently read.
    pub fn unread_token(&mut self)
        requires
            old(self)@.wf(),
        ensures
            final(self)@.wf(),
            final(self)@.same_file(old(self)@),
            final(self)@ == old(self)@.unread(),
    {
        if let Some(t) = self.last_token {
            self.ofs = t;
        }
    }

    /// If the next token is `token`, consume it and return true.
    pub fn peek_token(&mut self, token: Token) -> (r: bool)
        requires
            old(self)@.wf(),
        ensures
            final(self)@.wf(),
            final(self)@.same_file(old(self)@),
            final(self)@.ofs >= old(self)@.ofs,
            r == (old(self)@.next() == token),
            final(self)@ == old(self)@.after_peek(token),
    {
        proof {
            lemma_token_at(self@.input, self@.ofs);
        }
        if self.read_token() == token {
            true
        } else {
            self.unread_token();
            false
        }
    }

    /// Require the next token to be `expected`, producing an "expected X, got
    /// Y" error otherwise.
    pub fn expect_token(&mut self, expected: Token) -> (r: Result<(), Error>)
        requires
            old(self)@.wf(),
        ensures
            final(self)@.wf(),
            final(self)@.same_file(old(self)@),
            final(self)@.ofs >= old(self)@.ofs,
            final(self)@ == old(self)@.after_token(),
            match r {
                Ok(_) => old(self)@.next() == expected,
                Err(e) => old(self)@.next() != expected && e@ == final(self)@.error(
                    old(self)@.unexpected(expected),
                ),
            },
    {
        let token = self.read_token();
        if token == expected {
            return Ok(());
        }
        let mut m = String::new();
        m.append("expected ");
        m.append(expected.name());
        m.append(", got ");
        m.append(token.name());
        m.append(expected.error_hint());
        assert(m@ =~= old(self)@.unexpected(expected));
        Err(self.error(m.as_str()))
    }

    /// Skip spaces and `$`-newline line continuations.
    fn eat_whitespace(&mut self)
        requires
            old(self)@.wf(),
        ensures
            final(self)@.wf(),
            final(self)@.ofs >= old(self)@.ofs,
            final(self)@ == (LexerView {
                ofs: behind_blanks(old(self)@.input, old(self)@.ofs),
                ..old(self)@
            }),
    {
        let input = self.input;
        let len: usize = input.len();
        let ghost c = input@;
        let mut p: usize = self.ofs;
        let mut more: bool = true;
        while more
            invariant
                c == input@,
                len == c.len(),
                old(self)@.ofs <= p <= len,
                behind_blanks(c, p as int) == behind_blanks(c, old(self)@.ofs),
                !more ==> behind_blanks(c, p as int) == p,
            decreases len - p, if more { 1int } else { 0int },
        {
            if p < len && input[p] == 32 {
                p += 1;
            } else if len - p > 2 && input[p] == 36 && input[p + 1] == 13 && input[p + 2] == 10 {
                p += 3;
            } else if len - p > 1 && input[p] == 36 && input[p + 1] == 10 {
                p += 2;
            } else {
                more = false;
            }
        }
        self.ofs = p;
    }

    /// Read a simple identifier (a rule, pool or variable name).
    pub fn read_ident(&mut self) -> (r: Option<String>)
        requires
            old(self)@.wf(),
        ensures
            final(self)@.wf(),
            final(self)@.same_file(old(self)@),
            final(self)@.ofs >= old(self)@.ofs,
            final(self)@ == old(self)@.after_ident(),
            match r {
                Some(s) => old(self)@.ident() == Some(s@),
                None => old(self)@.ident() is None,
            },
    {
        let input = self.input;
        let len: usize = input.len();
        let ghost c = input@;
        let start: usize = self.ofs;
        let mut p: usize = start;
        while p < len && name_char(input[p])
            invariant
                c == input@,
                len == c.len(),
                start <= p <= len,
                scan(c, p as int, name_byte()) == scan(c, start as int, name_byte()),
            decreases len - p,
        {
            p += 1;
        }
        self.last_token = Some(start);
        if p == start {
            return None;
        }
        self.ofs = p;
        self.eat_whitespace();
        Some(string_from_utf8_lossy(vstd::slice::slice_subrange(input, start, p)))
    }

    /// Read a path, stopping (without consuming) at a delimiter. The returned
    /// path may be empty, which means a delimiter was hit immediately.
    pub fn read_path(&mut self, eval: &mut EvalString) -> (r: Result<(), Error>)
        requires
            old(self)@.wf(),
        ensures
            final(self)@.wf(),
            final(self)@.same_file(old(self)@),
            final(self)@.ofs >= old(self)@.ofs,
            final(self)@ == old(self)@.after_string(true),
            r is Err ==> final(self)@.ofs == old(self)@.ofs,
            final(eval)@ == old(self)@.string(true, old(eval)@).toks,
            match r {
                Ok(_) => old(self)@.string(true, old(eval)@).error is None,
                Err(e) => old(self)@.string(true, old(eval)@).error is Some && e@ == final(self)@.error(
                    old(self)@.string(true, old(eval)@).error->0,
                ),
            },
    {
        self.read_eval_string(eval, true)
    }

    /// Read the value side of a `var = value` line.
    pub fn read_var_value(&mut self, eval: &mut EvalString) -> (r: Result<(), Error>)
        requires
            old(self)@.wf(),
        ensures
            final(self)@.wf(),
            final(self)@.same_file(old(self)@),
            final(self)@.ofs >= old(self)@.ofs,
            final(self)@ == old(self)@.after_string(false),
            r is Err ==> final(self)@.ofs == old(self)@.ofs,
            r is Ok ==> final(self)@.ofs > old(self)@.ofs && final(self)@.input[final(self)@.ofs
                - 1] == 10,
            final(eval)@ == old(self)@.string(false, old(eval)@).toks,
            match r {
                Ok(_) => old(self)@.string(false, old(eval)@).error is None,
                Err(e) => old(self)@.string(false, old(eval)@).error is Some && e@ == final(self)@.error(
                    old(self)@.string(false, old(eval)@).error->0,
                ),
            },
    {
        self.read_eval_string(eval, false)
    }

    fn read_eval_string(&mut self, eval: &mut EvalString, path: bool) -> (r: Result<(), Error>)
        requires
            old(self)@.wf(),
        ensures
            final(self)@.wf(),
            final(self)@.same_file(old(self)@),
            old(self)@.ofs <= final(self)@.ofs <= old(self)@.input.len(),
            final(self)@ == old(self)@.after_string(path),
            r is Err ==> final(self)@.ofs == old(self)@.ofs,
            r is Ok && !path ==> final(self)@.ofs > old(self)@.ofs && final(
                self)@.input[final(self)@.ofs - 1] == 10,
            final(eval)@ == old(self)@.string(path, old(eval)@).toks,
            match r {
                Ok(_) => old(self)@.string(path, old(eval)@).error is None,
                Err(e) => old(self)@.string(path, old(eval)@).error is Some && e@ == final(self)@.error(
                    old(self)@.string(path, old(eval)@).error->0,
                ),
            },
    {
        let input = self.input;
        let len: usize = input.len();
        let ghost c = input@;
        let ghost want = string_at(c, self@.ofs, path, eval@);
        let mut p: usize = self.ofs;
        proof {
            lemma_string_position(c, self@.ofs, path, eval@, Seq::empty());
            lemma_string_at(c, self@.ofs, path, eval@);
            lemma_behind_blanks(c, want.end);
            law_reading_goes_forward(self@, path, eval@);
        }
        loop
            invariant
                c == input@,
                len == c.len(),
                old(self)@.ofs <= p <= len,
                *self == *old(self),
                self@.wf(),
                c == self@.input,
                want == old(self)@.string(path, old(eval)@),
                string_at(c, p as int, path, eval@) == want,
                old(self)@.after_string(path) == (LexerView {
                    ofs: if want.error is None {
                        behind_string(c, path, want)
                    } else {
                        old(self)@.ofs
                    },
                    last: Some(want.start),
                    ..old(self)@
                }),
                0 <= want.start <= len,
                0 <= want.end <= len,
                want.end <= behind_blanks(c, want.end) <= len,
            decreases len - p,
        {
            if p >= len || input[p] == 0 {
                self.last_token = Some(p);
                return Err(self.error("unexpected EOF"));
            }
            let b: u8 = input[p];
            if b == 36 {
                if len - p < 2 {
                    self.last_token = Some(p);
                    return Err(self.error("bad $-escape (literal $ must be written as $$)"));
                }
                let d: u8 = input[p + 1];
                if d == 36 {
                    eval.add_text("$");
                    p += 2;
                } else if d == 32 {
                    eval.add_text(" ");
                    p += 2;
                } else if d == 58 {
                    eval.add_text(":");
                    p += 2;
                } else if d == 10 {
                    let from: usize = p + 2;
                    p = self.skip_spaces(from);
                } else if d == 13 && len - p > 2 && input[p + 2] == 10 {
                    let from: usize = p + 3;
                    p = self.skip_spaces(from);
                } else if d == 123 {
                    let from: usize = p + 2;
                    let mut r: usize = from;
                    while r < len && name_char(input[r])
                        invariant
                            c == input@,
                            len == c.len(),
                            from <= r <= len,
                            scan(c, r as int, name_byte()) == scan(c, from as int, name_byte()),
                        decreases len - r,
                    {
                        r += 1;
                    }
                    if r > from && r < len && input[r] == 125 {
                        let name = string_from_utf8_lossy(
                            vstd::slice::slice_subrange(input, from, r),
                        );
                        eval.add_var(name.as_str());
                        p = r + 1;
                    } else {
                        self.last_token = Some(p);
                        return Err(
                            self.error("bad $-escape (literal $ must be written as $$)"),
                        );
                    }
                } else if simple_name_char(d) {
                    let from: usize = p + 1;
                    let mut r: usize = from;
                    while r < len && simple_name_char(input[r])
                        invariant
                            c == input@,
                            len == c.len(),
                            from <= r <= len,
                            scan(c, r as int, simple_name_byte()) == scan(
                                c,
                                from as int,
                                simple_name_byte(),
                            ),
                        decreases len - r,
                    {
                        r += 1;
                    }
                    let name = string_from_utf8_lossy(vstd::slice::slice_subrange(input, from, r));
                    eval.add_var(name.as_str());
                    p = r;
                } else {
                    self.last_token = Some(p);
                    return Err(self.error("bad $-escape (literal $ must be written as $$)"));
                }
            } else if b == 13 {
                if len - p > 1 && input[p + 1] == 10 {
                    self.last_token = Some(p);
                    if path {
                        self.ofs = p;
                        self.eat_whitespace();
                    } else {
                        self.ofs = p + 2;
                    }
                    return Ok(());
                }
                self.last_token = Some(p);
                let msg = self.describe_last_error();
                return Err(self.error(msg.as_str()));
            } else if b == 32 || b == 58 || b == 124 || b == 10 {
                if path {
                    self.last_token = Some(p);
                    self.ofs = p;
                    self.eat_whitespace();
                    return Ok(());
                }
                if b == 10 {
                    self.last_token = Some(p);
                    self.ofs = p + 1;
                    return Ok(());
                }
                if b == 32 {
                    eval.add_text(" ");
                } else if b == 58 {
                    eval.add_text(":");
                } else {
                    eval.add_text("|");
                }
                p += 1;
            } else {
                let mut r: usize = p;
                while r < len && input[r] != 36 && input[r] != 32 && input[r] != 58 && input[r]
                    != 13 && input[r] != 10 && input[r] != 124 && input[r] != 0
                    invariant
                        c == input@,
                        len == c.len(),
                        p <= r <= len,
                        scan(c, r as int, literal_byte()) == scan(c, p as int, literal_byte()),
                    decreases len - r,
                {
                    r += 1;
                }
                proof {
                    assert(literal_byte()(c[p as int]));
                    lemma_scan(c, p + 1, literal_byte());
                }
                let t = string_from_utf8_lossy(vstd::slice::slice_subrange(input, p, r));
                eval.add_text(t.as_str());
                p = r;
            }
        }
    }

    fn skip_spaces(&self, from: usize) -> (r: usize)
        requires
            from <= self@.input.len(),
        ensures
            r == scan(self@.input, from as int, space()),
            from <= r <= self@.input.len(),
    {
        let input = self.input;
        let len: usize = input.len();
        let mut r: usize = from;
        while r < len && input[r] == 32
            invariant
                len == input@.len(),
                from <= r <= len,
                scan(input@, r as int, space()) == scan(input@, from as int, space()),
            decreases len - r,
        {
            r += 1;
        }
        r
    }

    /// Extra detail for an `Error` token.
    pub fn describe_last_error(&self) -> (r: String)
        ensures
            r@ == lexing_error(self@.input, self@.last),
    {
        if let Some(t) = self.last_token {
            if t < self.input.len() && self.input[t] == 9 {
                return "tabs are not allowed, use spaces".to_owned();
            }
        }
        "lexing error".to_owned()
    }

    /// Build a positioned error message.
    pub fn error(&self, message: &str) -> (r: Error)
        requires
            self@.wf(),
        ensures
            r@ == self@.error(message@),
    {
        Error::Manifest(self.error_string(message))
    }

    /// The message body of [`Lexer::error`].
    pub fn error_string(&self, message: &str) -> (r: String)
        requires
            self@.wf(),
        ensures
            r@ == located(self@.filename, self@.input, self@.last, message@),
    {
        let input = self.input;
        let len: usize = input.len();
        let ghost c = input@;
        let at: usize = match self.last_token {
            Some(t) => t,
            None => 0,
        };
        let mut line: u128 = 1;
        let mut line_start: usize = 0;
        let mut p: usize = 0;
        while p < at
            invariant
                c == input@,
                len == c.len(),
                p <= at <= len,
                line_start <= p,
                line <= p + 1,
                line == line_number(c, p as int),
                line_start == scan_back(c, p as int, not_newline()),
            decreases at - p,
        {
            if input[p] == 10 {
                line_start = p + 1;
            }
            if input[p] == 10 {
                line += 1;
            }
            p += 1;
        }
        let col: usize = at - line_start;
        let mut out = String::new();
        out.append(self.filename.as_str());
        out.append(":");
        push_decimal(&mut out, line);
        out.append(": ");
        out.append(message);
        out.append("\n");
        let ghost head = self@.filename + ":"@ + decimal(line_number(c, at as int)) + ": "@
            + message@ + "\n"@;
        assert(out@ =~= head);
        if col > 0 && col < TRUNCATE_COLUMN {
            let mut n: usize = 0;
            while n < TRUNCATE_COLUMN && len - line_start > n && input[line_start + n] != 0
                && input[line_start + n] != 10
                invariant
                    c == input@,
                    len == c.len(),
                    line_start + n <= len,
                    n <= TRUNCATE_COLUMN,
                    shown_columns(c, line_start as int, n as int) == shown_columns(
                        c,
                        line_start as int,
                        0,
                    ),
                decreases TRUNCATE_COLUMN - n,
            {
                n += 1;
            }
            let shown = string_from_utf8_lossy(
                vstd::slice::slice_subrange(input, line_start, line_start + n),
            );
            out.append(shown.as_str());
            let ghost a = out@;
            if n == TRUNCATE_COLUMN {
                out.append("...");
            } else {
                out.append("");
            }
            out.append("\n");
            push_repeated_char(&mut out, ' ', col);
            out.append("^ near here");
            assert(out@ =~= located(self@.filename, c, self@.last, message@));
        }
        out
    }
}

/// A part of a path or value as it is written.
pub enum Part {
    /// Bytes that stand for themselves.
    Plain(Seq<u8>),
    /// A byte behind a `$`: a space, a colon, or `$` itself.
    Escaped(u8),
    /// A variable in braces behind a `$`.
    Variable(Seq<u8>),
    /// A space, a colon or a bar, which stand for themselves in a value.
    Mark(u8),
}

/// Whether a byte stands for itself wherever it stands.
pub open spec fn is_ordinary(b: u8) -> bool {
    b != 0 && b != 10 && b != 13 && b != 32 && b != 36 && b != 58 && b != 124
}

/// Whether a byte can be part of the name of a variable or a rule: a letter, a
/// digit, `_`, `-` or `.`.
pub open spec fn is_word_byte(b: u8) -> bool {
    ||| 65 <= b <= 90
    ||| 97 <= b <= 122
    ||| 48 <= b <= 57
    ||| b == 95
    ||| b == 45
    ||| b == 46
}

/// Whether the parts can be written one behind the other, in a path or a value.
pub open spec fn can_be_written(parts: Seq<Part>, path: bool) -> bool {
    &&& forall|k: int|
        0 <= k < parts.len() ==> match #[trigger] parts[k] {
            Part::Plain(b) => b.len() > 0 && forall|i: int|
                0 <= i < b.len() ==> is_ordinary(#[trigger] b[i]),
            Part::Escaped(b) => b == 32 || b == 58 || b == 36,
            Part::Variable(n) => n.len() > 0 && forall|i: int|
                0 <= i < n.len() ==> is_word_byte(#[trigger] n[i]),
            Part::Mark(b) => !path && (b == 32 || b == 58 || b == 124),
        }
    &&& forall|k: int| 0 < k < parts.len() && (#[trigger] parts[k]) is Plain ==> !(parts[k - 1] is Plain)
}

/// A part as it is written.
pub open spec fn part_written(x: Part) -> Seq<u8> {
    match x {
        Part::Plain(b) => b,
        Part::Escaped(b) => seq![36u8, b],
        Part::Variable(n) => seq![36u8, 123u8] + n + seq![125u8],
        Part::Mark(b) => seq![b],
    }
}

/// The parts from the `k`-th on as they are written.
pub open spec fn parts_written(parts: Seq<Part>, k: int) -> Seq<u8>
    decreases parts.len() - k,
{
    if 0 <= k < parts.len() {
        part_written(parts[k]) + parts_written(parts, k + 1)
    } else {
        Seq::empty()
    }
}

/// What one more part adds to a string.
pub open spec fn with_part(toks: Seq<TokView>, x: Part) -> Seq<TokView> {
    match x {
        Part::Plain(b) => with_text(toks, utf8_lossy(b)),
        Part::Escaped(b) => with_text(toks, seq![b as char]),
        Part::Variable(n) => with_var(toks, utf8_lossy(n)),
        Part::Mark(b) => with_text(toks, seq![b as char]),
    }
}

/// What the parts from the `k`-th on add to a string.
pub open spec fn with_parts(toks: Seq<TokView>, parts: Seq<Part>, k: int) -> Seq<TokView>
    decreases parts.len() - k,
{
    if 0 <= k < parts.len() {
        with_parts(with_part(toks, parts[k]), parts, k + 1)
    } else {
        toks
    }
}

/// Whether `part` stands in `c` at `i`.
pub open spec fn is_at(c: Seq<u8>, i: int, part: Seq<u8>) -> bool {
    &&& 0 <= i
    &&& i + part.len() <= c.len()
    &&& forall|k: int| 0 <= k < part.len() ==> c[i + k] == #[trigger] part[k]
}

/// Where two parts stand, each stands.
pub proof fn lemma_is_at(c: Seq<u8>, i: int, a: Seq<u8>, b: Seq<u8>)
    requires
        is_at(c, i, a + b),
    ensures
        is_at(c, i, a),
        is_at(c, i + a.len(), b),
{
    assert forall|k: int| 0 <= k < a.len() implies c[i + k] == #[trigger] a[k] by {
        assert((a + b)[k] == a[k]);
    }
    assert forall|k: int| 0 <= k < b.len() implies c[i + a.len() + k] == #[trigger] b[k] by {
        assert((a + b)[a.len() + k] == b[k]);
    }
}

/// A scan passes over what satisfies the predicate.
pub proof fn lemma_scan_to(c: Seq<u8>, i: int, part: Seq<u8>, p: spec_fn(u8) -> bool)
    requires
        is_at(c, i, part),
        forall|k: int| 0 <= k < part.len() ==> p(#[trigger] part[k]),
        i + part.len() < c.len() ==> !p(c[i + part.len()]),
    ensures
        scan(c, i, p) == i + part.len(),
        c.subrange(i, i + part.len()) == part,
{
    let j = scan(c, i, p);
    lemma_scan(c, i, p);
    if j < i + part.len() {
        assert(c[i + (j - i)] == part[j - i]);
    }
    if j > i + part.len() {
        assert(p(c[i + part.len()]));
    }
    assert(c.subrange(i, i + part.len()) =~= part) by {
        assert forall|k: int| 0 <= k < part.len() implies c.subrange(i, i + part.len())[k]
            == part[k] by {
            assert(c[i + k] == part[k]);
        }
    }
}

/// A part that is written starts with something.
pub proof fn lemma_parts_start(parts: Seq<Part>, path: bool, k: int)
    requires
        can_be_written(parts, path),
        0 <= k < parts.len(),
    ensures
        part_written(parts[k]).len() > 0,
        parts_written(parts, k).len() > 0,
        parts_written(parts, k)[0] == part_written(parts[k])[0],
        !(parts[k] is Plain) ==> !is_ordinary(parts_written(parts, k)[0]),
{
    assert(parts[k] == parts[k]);
}

/// A path or value is read as it was written: what stands for itself as text, what
/// stands behind `$` without it, and variables by their names, up to the space,
/// colon, bar or line feed that ends a path, or behind the line feed that ends a
/// value.
pub proof fn law_strings_read_back(
    c: Seq<u8>,
    p: int,
    path: bool,
    toks: Seq<TokView>,
    parts: Seq<Part>,
    k: int,
)
    requires
        can_be_written(parts, path),
        0 <= k <= parts.len(),
        is_at(c, p, parts_written(parts, k)),
        p + parts_written(parts, k).len() < c.len(),
        ({
            let b = c[p + parts_written(parts, k).len()];
            b == 10 || (path && (b == 32 || b == 58 || b == 124))
        }),
    ensures
        ({
            let r = string_at(c, p, path, toks);
            let end = p + parts_written(parts, k).len();
            &&& r.error is None
            &&& r.toks == with_parts(toks, parts, k)
            &&& r.start == end
            &&& r.end == (if path {
                end
            } else {
                end + 1
            })
        }),
    decreases parts.len() - k,
{
    if k < parts.len() {
        let x = parts[k];
        let w = part_written(x);
        let rest = parts_written(parts, k + 1);
        lemma_is_at(c, p, w, rest);
        lemma_parts_start(parts, path, k);
        let next = p + w.len();
        let end = p + parts_written(parts, k).len();
        assert(end == next + rest.len());
        assert(!is_ordinary(c[end]));
        assert(c[p + 0] == w[0]);
        if k + 1 < parts.len() {
            lemma_parts_start(parts, path, k + 1);
            assert(c[next + 0] == rest[0]);
        } else {
            assert(rest.len() == 0);
        }
        law_strings_read_back(c, next, path, with_part(toks, x), parts, k + 1);
        match x {
            Part::Plain(b) => {
                assert(b[0] == c[p] && is_ordinary(b[0]));
                assert(!is_ordinary(c[next])) by {
                    if k + 1 < parts.len() {
                        assert(!(parts[k + 1] is Plain)) by {
                            if parts[k + 1] is Plain {
                                assert(!(parts[k + 1 - 1] is Plain));
                            }
                        }
                    }
                }
                assert forall|i: int| 0 <= i < b.len() implies literal_byte()(#[trigger] b[i]) by {
                    assert(is_ordinary(b[i]));
                }
                lemma_scan_to(c, p, b, literal_byte());
            },
            Part::Escaped(b) => {
                assert(c[p + 1] == w[1]);
                reveal_strlit("$");
                reveal_strlit(" ");
                reveal_strlit(":");
                assert("$"@ =~= seq!['$'] && " "@ =~= seq![' '] && ":"@ =~= seq![':']);
                assert(36u8 as char == '$' && 32u8 as char == ' ' && 58u8 as char == ':');
            },
            Part::Variable(n) => {
                assert(c[p + 1] == w[1]);
                let open = seq![36u8, 123u8];
                assert(w =~= open + (n + seq![125u8]));
                lemma_is_at(c, p, open, n + seq![125u8]);
                lemma_is_at(c, p + 2, n, seq![125u8]);
                assert(c[p + 2 + n.len() + 0] == seq![125u8][0]);
                assert forall|i: int| 0 <= i < n.len() implies name_byte()(#[trigger] n[i]) by {
                    assert(is_word_byte(n[i]));
                }
                lemma_scan_to(c, p + 2, n, name_byte());
            },
            Part::Mark(b) => {
                reveal_strlit("|");
                reveal_strlit(" ");
                reveal_strlit(":");
                assert("|"@ =~= seq!['|'] && " "@ =~= seq![' '] && ":"@ =~= seq![':']);
                assert(124u8 as char == '|' && 32u8 as char == ' ' && 58u8 as char == ':');
            },
        }
    }
}

} // verus!

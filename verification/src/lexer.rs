//! The tokenizer: a single forward pass over the source characters that
//! emits tokens, tracks 1-based line and column positions, and reports
//! errors without ever aborting. The pass is specified by a recursive
//! lexing function over the character sequence, and the executable
//! tokenizer is proved to produce exactly its tokens and errors.

use vstd::prelude::*;
use crate::errors::{ErrorModel, TokenizerError};
use crate::report::ErrorReporter;
use crate::token::{Token, TokenModel};

verus! {

broadcast use vstd::seq_lib::group_seq_properties;

/// How `char::is_alphanumeric` classifies characters above ASCII.
pub uninterp spec fn unicode_alnum(c: char) -> bool;

/// An ASCII letter or digit.
pub open spec fn ascii_alnum(c: char) -> bool {
    ||| ('a' as u32) <= (c as u32) <= ('z' as u32)
    ||| ('A' as u32) <= (c as u32) <= ('Z' as u32)
    ||| ('0' as u32) <= (c as u32) <= ('9' as u32)
}

/// A letter or number: on ASCII exactly the ASCII letters and digits, above
/// ASCII whatever the Unicode tables say.
pub open spec fn alnum(c: char) -> bool {
    if (c as u32) < 128 {
        ascii_alnum(c)
    } else {
        unicode_alnum(c)
    }
}

/// Relies on char::is_alphanumeric from std: true exactly on characters in
/// the Unicode letter and number categories, which among the ASCII
/// characters are the letters and digits.
#[verifier::external_body]
fn char_is_alphanumeric(c: char) -> (r: bool)
    ensures
        r == alnum(c),
        (c as u32) >= 128 ==> r == unicode_alnum(c),
{
    c.is_alphanumeric()
}

/// An ASCII decimal digit.
pub open spec fn is_digit(c: char) -> bool {
    ('0' as u32) <= (c as u32) <= ('9' as u32)
}

/// A character that may start an identifier: an ASCII letter or underscore.
pub open spec fn is_ident_start(c: char) -> bool {
    ||| ('a' as u32) <= (c as u32) <= ('z' as u32)
    ||| ('A' as u32) <= (c as u32) <= ('Z' as u32)
    ||| c == '_'
}

/// A character that may continue an identifier.
pub open spec fn is_ident_cont(c: char) -> bool {
    alnum(c) || c == '_'
}

/// The numeric value of a run of decimal digits.
pub open spec fn digits_val(s: Seq<char>) -> int
    decreases s.len(),
{
    if s.len() == 0 {
        0
    } else {
        digits_val(s.drop_last()) * 10 + (s.last() as u32 - '0' as u32)
    }
}

/// The index just past the maximal run of digits starting at `i`.
pub open spec fn digit_run_end(s: Seq<char>, i: int) -> int
    decreases s.len() - i,
{
    if 0 <= i < s.len() && is_digit(s[i]) {
        digit_run_end(s, i + 1)
    } else {
        i
    }
}

/// The index just past the maximal run of identifier characters starting at
/// `i`.
pub open spec fn ident_run_end(s: Seq<char>, i: int) -> int
    decreases s.len() - i,
{
    if 0 <= i < s.len() && is_ident_cont(s[i]) {
        ident_run_end(s, i + 1)
    } else {
        i
    }
}

/// The index of the first newline at or after `i`, or the input's length.
pub open spec fn find_newline(s: Seq<char>, i: int) -> int
    decreases s.len() - i,
{
    if 0 <= i < s.len() && s[i] != '\n' {
        find_newline(s, i + 1)
    } else {
        i
    }
}

/// Where a nested block comment scan ends.
pub ghost struct CommentScan {
    /// Index just past the last consumed character.
    pub end: int,
    pub line: int,
    pub col: int,
    /// Whether the comment was closed before the input ended.
    pub closed: bool,
}

/// Scans a nested block comment from just after its opener. Each `/*` inside
/// deepens the nesting, each `*/` closes one level; the second character of
/// each is consumed with it.
pub open spec fn comment_scan(s: Seq<char>, i: int, line: int, col: int, depth: int) -> CommentScan
    decreases s.len() - i,
{
    if !(0 <= i < s.len()) {
        CommentScan { end: i, line: line, col: col, closed: false }
    } else {
        let ch = s[i];
        let l2 = if ch == '\n' {
            line + 1
        } else {
            line
        };
        let c2 = if ch == '\n' {
            1
        } else {
            col + 1
        };
        if ch == '/' && i + 1 < s.len() && s[i + 1] == '*' {
            comment_scan(s, i + 2, l2, c2 + 1, depth + 1)
        } else if ch == '*' && i + 1 < s.len() && s[i + 1] == '/' {
            if depth == 1 {
                CommentScan { end: i + 2, line: l2, col: c2 + 1, closed: true }
            } else {
                comment_scan(s, i + 2, l2, c2 + 1, depth - 1)
            }
        } else {
            comment_scan(s, i + 1, l2, c2, depth)
        }
    }
}

/// Where a string literal scan ends.
pub ghost struct StrScan {
    /// Index just past the last consumed character.
    pub end: int,
    pub line: int,
    pub col: int,
    /// The decoded payload.
    pub content: Seq<char>,
    /// Whether a closing quote was found.
    pub terminated: bool,
}

/// The character an escape sequence decodes to.
pub open spec fn unescape(c: char) -> char {
    if c == 'n' {
        '\n'
    } else if c == 't' {
        '\t'
    } else {
        c
    }
}

/// Scans a string literal from just after its opening quote, decoding
/// escapes; a newline is kept in the payload and advances the line.
pub open spec fn string_scan(s: Seq<char>, i: int, line: int, col: int) -> StrScan
    decreases s.len() - i,
{
    if !(0 <= i < s.len()) {
        StrScan { end: i, line: line, col: col, content: Seq::empty(), terminated: false }
    } else {
        let ch = s[i];
        if ch == '\\' {
            if i + 1 < s.len() {
                let r = string_scan(s, i + 2, line, col + 2);
                StrScan { content: seq![unescape(s[i + 1])] + r.content, ..r }
            } else {
                StrScan { end: i + 1, line: line, col: col, content: Seq::empty(), terminated: false }
            }
        } else if ch == '"' {
            StrScan { end: i + 1, line: line, col: col + 1, content: Seq::empty(), terminated: true }
        } else {
            let l2 = if ch == '\n' {
                line + 1
            } else {
                line
            };
            let c2 = if ch == '\n' {
                1
            } else {
                col + 1
            };
            let r = string_scan(s, i + 1, l2, c2);
            StrScan { content: seq![ch] + r.content, ..r }
        }
    }
}

/// What a lexing pass produces: the tokens and the errors, in source order,
/// and how many characters it consumed.
#[verifier::ext_equal]
pub ghost struct LexOut {
    pub toks: Seq<TokenModel>,
    pub errs: Seq<ErrorModel>,
    pub consumed: int,
}

/// `r` with a token in front.
pub open spec fn with_tok(t: TokenModel, n: int, r: LexOut) -> LexOut {
    LexOut { toks: seq![t] + r.toks, errs: r.errs, consumed: n + r.consumed }
}

/// `r` with an error in front.
pub open spec fn with_err(e: ErrorModel, n: int, r: LexOut) -> LexOut {
    LexOut { toks: r.toks, errs: seq![e] + r.errs, consumed: n + r.consumed }
}

/// `r` with nothing in front.
pub open spec fn with_skip(n: int, r: LexOut) -> LexOut {
    LexOut { toks: r.toks, errs: r.errs, consumed: n + r.consumed }
}

/// The greatest value a number literal may take.
pub open spec fn max_number() -> int {
    0x7fffffff
}

/// A newline search never moves backwards nor past the end.
pub proof fn lemma_find_newline_bounds(s: Seq<char>, i: int)
    ensures
        0 <= i <= s.len() ==> i <= find_newline(s, i) <= s.len(),
    decreases s.len() - i,
{
    if 0 <= i < s.len() && s[i] != '\n' {
        lemma_find_newline_bounds(s, i + 1);
    }
}

/// A digit run never moves backwards nor past the end.
pub proof fn lemma_digit_run_bounds(s: Seq<char>, i: int)
    ensures
        0 <= i <= s.len() ==> i <= digit_run_end(s, i) <= s.len(),
    decreases s.len() - i,
{
    if 0 <= i < s.len() && is_digit(s[i]) {
        lemma_digit_run_bounds(s, i + 1);
    }
}

/// An identifier run never moves backwards nor past the end.
pub proof fn lemma_ident_run_bounds(s: Seq<char>, i: int)
    ensures
        0 <= i <= s.len() ==> i <= ident_run_end(s, i) <= s.len(),
    decreases s.len() - i,
{
    if 0 <= i < s.len() && is_ident_cont(s[i]) {
        lemma_ident_run_bounds(s, i + 1);
    }
}

/// A block comment scan never moves backwards nor past the end.
pub proof fn lemma_comment_scan_bounds(s: Seq<char>, i: int, line: int, col: int, depth: int)
    ensures
        0 <= i <= s.len() ==> i <= comment_scan(s, i, line, col, depth).end <= s.len(),
    decreases s.len() - i,
{
    if 0 <= i < s.len() {
        let ch = s[i];
        let l2 = if ch == '\n' {
            line + 1
        } else {
            line
        };
        let c2 = if ch == '\n' {
            1
        } else {
            col + 1
        };
        if ch == '/' && i + 1 < s.len() && s[i + 1] == '*' {
            lemma_comment_scan_bounds(s, i + 2, l2, c2 + 1, depth + 1);
        } else if ch == '*' && i + 1 < s.len() && s[i + 1] == '/' {
            lemma_comment_scan_bounds(s, i + 2, l2, c2 + 1, depth - 1);
        } else {
            lemma_comment_scan_bounds(s, i + 1, l2, c2, depth);
        }
    }
}

/// A string literal scan never moves backwards nor past the end.
pub proof fn lemma_string_scan_bounds(s: Seq<char>, i: int, line: int, col: int)
    ensures
        0 <= i <= s.len() ==> i <= string_scan(s, i, line, col).end <= s.len(),
    decreases s.len() - i,
{
    if 0 <= i < s.len() {
        let ch = s[i];
        if ch == '\\' {
            if i + 1 < s.len() {
                lemma_string_scan_bounds(s, i + 2, line, col + 2);
            }
        } else if ch != '"' {
            let l2 = if ch == '\n' {
                line + 1
            } else {
                line
            };
            let c2 = if ch == '\n' {
                1
            } else {
                col + 1
            };
            lemma_string_scan_bounds(s, i + 1, l2, c2);
        }
    }
}

/// One forward lexing pass from position `i` at 1-based `line` and `col`,
/// without the terminating end-of-file token.
pub open spec fn lex_from(s: Seq<char>, i: int, line: int, col: int) -> LexOut
    decreases s.len() - i,
{
    if !(0 <= i < s.len()) {
        LexOut { toks: Seq::empty(), errs: Seq::empty(), consumed: 0 }
    } else {
        proof {
            lemma_find_newline_bounds(s, i + 2);
            lemma_comment_scan_bounds(s, i + 2, line, col + 2, 1);
            lemma_string_scan_bounds(s, i + 1, line, col + 1);
            lemma_digit_run_bounds(s, i + 1);
            lemma_ident_run_bounds(s, i + 1);
        }
        let c = s[i];
        if c == ' ' || c == '\t' {
            with_skip(1, lex_from(s, i + 1, line, col + 1))
        } else if c == '\n' {
            with_tok(TokenModel::EOL, 1, lex_from(s, i + 1, line + 1, 1))
        } else if c == '/' {
            if i + 1 < s.len() && s[i + 1] == '/' {
                let j = find_newline(s, i + 2);
                with_skip(j - i, lex_from(s, j, line, col + (j - i)))
            } else if i + 1 < s.len() && s[i + 1] == '*' {
                let r = comment_scan(s, i + 2, line, col + 2, 1);
                if r.closed {
                    with_skip(r.end - i, lex_from(s, r.end, r.line, r.col))
                } else {
                    with_err(
                        ErrorModel::InvalidNestedComment(line, col),
                        r.end - i,
                        lex_from(s, r.end, r.line, r.col),
                    )
                }
            } else if i + 1 < s.len() && s[i + 1] == '=' {
                with_tok(TokenModel::SlashEqual, 2, lex_from(s, i + 2, line, col + 2))
            } else {
                with_tok(TokenModel::Slash, 1, lex_from(s, i + 1, line, col + 1))
            }
        } else if c == '"' {
            let r = string_scan(s, i + 1, line, col + 1);
            let rest = lex_from(s, r.end, r.line, r.col);
            if r.terminated {
                with_tok(TokenModel::String(r.content), r.end - i, rest)
            } else {
                with_tok(
                    TokenModel::String(r.content),
                    r.end - i,
                    with_err(ErrorModel::UnterminatedString(line, col), 0, rest),
                )
            }
        } else if is_digit(c) {
            let j = digit_run_end(s, i);
            let v = digits_val(s.subrange(i, j));
            if v <= max_number() {
                with_tok(TokenModel::Number(v as i32), j - i, lex_from(s, j, line, col + (j - i)))
            } else {
                with_err(
                    ErrorModel::InvalidCharacter(c, line, col),
                    j - i,
                    lex_from(s, j, line, col + (j - i)),
                )
            }
        } else if is_ident_start(c) {
            let j = ident_run_end(s, i + 1);
            with_tok(
                TokenModel::Identifier(s.subrange(i, j)),
                j - i,
                lex_from(s, j, line, col + (j - i)),
            )
        } else if c == '+' {
            if i + 1 < s.len() && s[i + 1] == '=' {
                with_tok(TokenModel::PlusEqual, 2, lex_from(s, i + 2, line, col + 2))
            } else {
                with_tok(TokenModel::Plus, 1, lex_from(s, i + 1, line, col + 1))
            }
        } else if c == '-' {
            if i + 1 < s.len() && s[i + 1] == '=' {
                with_tok(TokenModel::MinusEqual, 2, lex_from(s, i + 2, line, col + 2))
            } else {
                with_tok(TokenModel::Minus, 1, lex_from(s, i + 1, line, col + 1))
            }
        } else if c == '*' {
            if i + 1 < s.len() && s[i + 1] == '/' {
                with_err(
                    ErrorModel::UnmatchedCommentClosure(line, col),
                    2,
                    lex_from(s, i + 2, line, col + 2),
                )
            } else if i + 1 < s.len() && s[i + 1] == '=' {
                with_tok(TokenModel::StarEqual, 2, lex_from(s, i + 2, line, col + 2))
            } else {
                with_tok(TokenModel::Star, 1, lex_from(s, i + 1, line, col + 1))
            }
        } else if c == '%' {
            if i + 1 < s.len() && s[i + 1] == '=' {
                with_tok(TokenModel::PercentEqual, 2, lex_from(s, i + 2, line, col + 2))
            } else {
                with_tok(TokenModel::Percent, 1, lex_from(s, i + 1, line, col + 1))
            }
        } else if c == '^' {
            if i + 1 < s.len() && s[i + 1] == '=' {
                with_tok(TokenModel::CaretEqual, 2, lex_from(s, i + 2, line, col + 2))
            } else {
                with_tok(TokenModel::Caret, 1, lex_from(s, i + 1, line, col + 1))
            }
        } else if c == '&' {
            if i + 1 < s.len() && s[i + 1] == '=' {
                with_tok(TokenModel::AndEqual, 2, lex_from(s, i + 2, line, col + 2))
            } else {
                with_tok(TokenModel::And, 1, lex_from(s, i + 1, line, col + 1))
            }
        } else if c == '|' {
            if i + 1 < s.len() && s[i + 1] == '=' {
                with_tok(TokenModel::OrEqual, 2, lex_from(s, i + 2, line, col + 2))
            } else {
                with_tok(TokenModel::Or, 1, lex_from(s, i + 1, line, col + 1))
            }
        } else if c == '!' {
            if i + 1 < s.len() && s[i + 1] == '=' {
                with_tok(TokenModel::NotEqual, 2, lex_from(s, i + 2, line, col + 2))
            } else {
                with_tok(TokenModel::Not, 1, lex_from(s, i + 1, line, col + 1))
            }
        } else if c == '<' {
            if i + 1 < s.len() && s[i + 1] == '=' {
                with_tok(TokenModel::LessEqual, 2, lex_from(s, i + 2, line, col + 2))
            } else if i + 1 < s.len() && s[i + 1] == '<' {
                if i + 2 < s.len() && s[i + 2] == '=' {
                    with_tok(TokenModel::LeftShiftEqual, 3, lex_from(s, i + 3, line, col + 3))
                } else {
                    with_tok(TokenModel::LeftShift, 2, lex_from(s, i + 2, line, col + 2))
                }
            } else {
                with_tok(TokenModel::Less, 1, lex_from(s, i + 1, line, col + 1))
            }
        } else if c == '>' {
            if i + 1 < s.len() && s[i + 1] == '=' {
                with_tok(TokenModel::GreaterEqual, 2, lex_from(s, i + 2, line, col + 2))
            } else if i + 1 < s.len() && s[i + 1] == '>' {
                if i + 2 < s.len() && s[i + 2] == '=' {
                    with_tok(TokenModel::RightShiftEqual, 3, lex_from(s, i + 3, line, col + 3))
                } else {
                    with_tok(TokenModel::RightShift, 2, lex_from(s, i + 2, line, col + 2))
                }
            } else {
                with_tok(TokenModel::Greater, 1, lex_from(s, i + 1, line, col + 1))
            }
        } else if c == '=' {
            if i + 1 < s.len() && s[i + 1] == '=' {
                with_tok(TokenModel::DoubleEqual, 2, lex_from(s, i + 2, line, col + 2))
            } else {
                with_tok(TokenModel::Equal, 1, lex_from(s, i + 1, line, col + 1))
            }
        } else if c == ';' {
            with_tok(TokenModel::Semicolon, 1, lex_from(s, i + 1, line, col + 1))
        } else if c == ':' {
            with_tok(TokenModel::Colon, 1, lex_from(s, i + 1, line, col + 1))
        } else if c == ',' {
            with_tok(TokenModel::Comma, 1, lex_from(s, i + 1, line, col + 1))
        } else if c == '.' {
            with_tok(TokenModel::Dot, 1, lex_from(s, i + 1, line, col + 1))
        } else if c == '?' {
            with_tok(TokenModel::Question, 1, lex_from(s, i + 1, line, col + 1))
        } else if c == '@' {
            with_tok(TokenModel::At, 1, lex_from(s, i + 1, line, col + 1))
        } else if c == '(' {
            with_tok(TokenModel::LParen, 1, lex_from(s, i + 1, line, col + 1))
        } else if c == ')' {
            with_tok(TokenModel::RParen, 1, lex_from(s, i + 1, line, col + 1))
        } else if c == '{' {
            with_tok(TokenModel::LBrace, 1, lex_from(s, i + 1, line, col + 1))
        } else if c == '}' {
            with_tok(TokenModel::RBrace, 1, lex_from(s, i + 1, line, col + 1))
        } else if c == '[' {
            with_tok(TokenModel::LBracket, 1, lex_from(s, i + 1, line, col + 1))
        } else if c == ']' {
            with_tok(TokenModel::RBracket, 1, lex_from(s, i + 1, line, col + 1))
        } else {
            with_err(ErrorModel::InvalidCharacter(c, line, col), 1, lex_from(s, i + 1, line, col + 1))
        }
    }
}

/// The complete tokenization of a source: the pass from the start, with the
/// end-of-file token appended.
pub open spec fn lex(s: Seq<char>) -> LexOut {
    let r = lex_from(s, 0, 1, 1);
    LexOut { toks: r.toks.push(TokenModel::EOF), ..r }
}

} // verus!

verus! {

/// The views of a token vector.
pub open spec fn views_of(v: Seq<Token>) -> Seq<TokenModel> {
    v.map_values(|x: Token| x@)
}

/// Pushing a token pushes its view.
proof fn lemma_views_push(v: Seq<Token>, t: Token)
    ensures
        views_of(v.push(t)) == views_of(v).push(t@),
{
    assert(views_of(v.push(t))[v.len() as int] == t@);
    assert(views_of(v.push(t)) =~= views_of(v).push(t@));
}

/// Emitting one element in front of the rest is appending it to what came
/// before.
proof fn lemma_cons_push<T>(a: Seq<T>, t: T, b: Seq<T>)
    ensures
        a + (seq![t] + b) == a.push(t) + b,
{
    assert(a + (seq![t] + b) =~= a.push(t) + b);
}

/// An ASCII decimal digit.
fn is_digit_exec(c: char) -> (r: bool)
    ensures
        r == is_digit(c),
{
    (c as u32) >= 48 && (c as u32) <= 57
}

/// A character that may start an identifier.
fn is_ident_start_exec(c: char) -> (r: bool)
    ensures
        r == is_ident_start(c),
{
    let u = c as u32;
    (u >= 97 && u <= 122) || (u >= 65 && u <= 90) || c == '_'
}

} // verus!

verus! {

/// Appending an element commutes with dropping a stable prefix.
proof fn lemma_skip_push(r: Seq<ErrorModel>, e: ErrorModel, b: int)
    requires
        0 <= b <= r.len(),
    ensures
        r.push(e).skip(b) == r.skip(b).push(e),
        r.push(e).take(b) == r.take(b),
{
    assert(r.push(e).skip(b) =~= r.skip(b).push(e));
    assert(r.push(e).take(b) =~= r.take(b));
}

/// Tokenizes the source into a stream of tokens terminated by end-of-file,
/// appending every error to `reporter`; errors never stop the pass. The
/// character count must leave room for the 1-based positions to fit the
/// machine word.
pub fn tokenize<'a>(input: &'a str, reporter: &mut ErrorReporter) -> (tokens: Vec<Token<'a>>)
    requires
        input@.len() < usize::MAX,
    ensures
        views_of(tokens@) == lex(input@).toks,
        final(reporter)@ == old(reporter)@ + lex(input@).errs,
{
    let ghost s = input@;
    let ghost base = old(reporter)@;
    let ghost lex0 = lex_from(s, 0, 1, 1);
    let n = input.unicode_len();
    let mut tokens: Vec<Token<'a>> = Vec::new();
    let mut i: usize = 0;
    let mut line: usize = 1;
    let mut col: usize = 1;
    proof {
        assert(views_of(tokens@) =~= Seq::<TokenModel>::empty());
        assert(lex0.toks =~= views_of(tokens@) + lex_from(s, 0, 1, 1).toks);
        assert(reporter@.skip(base.len() as int) =~= Seq::<ErrorModel>::empty());
        assert(lex0.errs =~= reporter@.skip(base.len() as int) + lex_from(s, 0, 1, 1).errs);
        assert(reporter@.take(base.len() as int) =~= base);
    }
    while i < n
        invariant
            input@ == s,
            n == s.len(),
            n < usize::MAX,
            i <= n,
            1 <= line,
            line <= 1 + i,
            1 <= col,
            col <= 1 + i,
            lex0 == lex_from(s, 0, 1, 1),
            base.len() <= reporter@.len(),
            reporter@.take(base.len() as int) == base,
            lex0.toks == views_of(tokens@) + lex_from(s, i as int, line as int, col as int).toks,
            lex0.errs == reporter@.skip(base.len() as int) + lex_from(
                s,
                i as int,
                line as int,
                col as int,
            ).errs,
        decreases n - i,
    {
        let ghost i0 = i as int;
        let ghost l0 = line as int;
        let ghost c0 = col as int;
        let ghost cur = lex_from(s, i0, l0, c0);
        let ghost pre = tokens@;
        let ghost rpre = reporter@;
        let c = input.get_char(i);
        if c == ' ' || c == '\t' {
            i = i + 1;
            col = col + 1;
        } else if c == '\n' {
            tokens.push(Token::EOL);
            i = i + 1;
            line = line + 1;
            col = 1;
            proof {
                lemma_views_push(pre, Token::EOL);
                lemma_cons_push(
                    views_of(pre),
                    TokenModel::EOL,
                    lex_from(s, i as int, line as int, col as int).toks,
                );
            }
        } else if c == '/' {
            if i + 1 < n && input.get_char(i + 1) == '/' {
                // Single-line comment: consume up to, but not including, the
                // next newline.
                let mut j: usize = i + 2;
                while j < n && input.get_char(j) != '\n'
                    invariant
                        input@ == s,
                        n == s.len(),
                        i0 + 2 <= j <= n,
                        find_newline(s, i0 + 2) == find_newline(s, j as int),
                    decreases n - j,
                {
                    j = j + 1;
                }
                proof {
                    assert(find_newline(s, i0 + 2) == j as int);
                    lemma_find_newline_bounds(s, i0 + 2);
                }
                col = col + (j - i);
                i = j;
            } else if i + 1 < n && input.get_char(i + 1) == '*' {
                // Nested block comment.
                let ghost sl = l0;
                let ghost sc = c0;
                let mut j: usize = i + 2;
                let mut cl: usize = line;
                let mut cc: usize = col + 2;
                let mut depth: usize = 1;
                let mut closed = false;
                loop
                    invariant_except_break
                        input@ == s,
                        n == s.len(),
                        n < usize::MAX,
                        i0 + 2 <= j <= n,
                        1 <= depth <= j,
                        1 <= cl,
                        cl <= 1 + j,
                        1 <= cc,
                        cc <= 1 + j,
                        comment_scan(s, i0 + 2, l0, c0 + 2, 1) == comment_scan(
                            s,
                            j as int,
                            cl as int,
                            cc as int,
                            depth as int,
                        ),
                    ensures
                        i0 + 2 <= j <= n,
                        1 <= cl,
                        cl <= 1 + j,
                        1 <= cc,
                        cc <= 1 + j,
                        comment_scan(s, i0 + 2, l0, c0 + 2, 1) == (CommentScan {
                            end: j as int,
                            line: cl as int,
                            col: cc as int,
                            closed: closed,
                        }),
                    decreases n - j,
                {
                    if j >= n {
                        closed = false;
                        break;
                    }
                    let ch = input.get_char(j);
                    let l2: usize = if ch == '\n' {
                        cl + 1
                    } else {
                        cl
                    };
                    let c2: usize = if ch == '\n' {
                        1
                    } else {
                        cc + 1
                    };
                    if ch == '/' && j + 1 < n && input.get_char(j + 1) == '*' {
                        j = j + 2;
                        cl = l2;
                        cc = c2 + 1;
                        depth = depth + 1;
                    } else if ch == '*' && j + 1 < n && input.get_char(j + 1) == '/' {
                        j = j + 2;
                        cl = l2;
                        cc = c2 + 1;
                        if depth == 1 {
                            closed = true;
                            break;
                        }
                        depth = depth - 1;
                    } else {
                        j = j + 1;
                        cl = l2;
                        cc = c2;
                    }
                }
                if !closed {
                    reporter.add_error(TokenizerError::InvalidNestedComment(line, col));
                    proof {
                        lemma_skip_push(
                            rpre,
                            ErrorModel::InvalidNestedComment(sl, sc),
                            base.len() as int,
                        );
                        lemma_cons_push(
                            rpre.skip(base.len() as int),
                            ErrorModel::InvalidNestedComment(sl, sc),
                            lex_from(s, j as int, cl as int, cc as int).errs,
                        );
                    }
                }
                i = j;
                line = cl;
                col = cc;
            } else if i + 1 < n && input.get_char(i + 1) == '=' {
                tokens.push(Token::SlashEqual);
                i = i + 2;
                col = col + 2;
                proof {
                    lemma_views_push(pre, Token::SlashEqual);
                    lemma_cons_push(
                        views_of(pre),
                        TokenModel::SlashEqual,
                        lex_from(s, i as int, line as int, col as int).toks,
                    );
                }
            } else {
                tokens.push(Token::Slash);
                i = i + 1;
                col = col + 1;
                proof {
                    lemma_views_push(pre, Token::Slash);
                    lemma_cons_push(
                        views_of(pre),
                        TokenModel::Slash,
                        lex_from(s, i as int, line as int, col as int).toks,
                    );
                }
            }
        } else if c == '"' {
            // String literal: the opening quote is consumed, escapes decode,
            // a newline stays in the payload.
            let ghost sl = l0;
            let ghost sc = c0;
            let mut j: usize = i + 1;
            let mut cl: usize = line;
            let mut cc: usize = col + 1;
            let mut content = String::new();
            let mut terminated = false;
            proof {
                assert(content@ =~= Seq::<char>::empty());
            }
            loop
                invariant_except_break
                    input@ == s,
                    n == s.len(),
                    n < usize::MAX,
                    i0 + 1 <= j <= n,
                    1 <= cl,
                    cl <= 1 + j,
                    1 <= cc,
                    cc <= 1 + j,
                    string_scan(s, i0 + 1, l0, c0 + 1) == (StrScan {
                        content: content@ + string_scan(s, j as int, cl as int, cc as int).content,
                        ..string_scan(s, j as int, cl as int, cc as int)
                    }),
                ensures
                    i0 + 1 <= j <= n,
                    1 <= cl,
                    cl <= 1 + j,
                    1 <= cc,
                    cc <= 1 + j,
                    string_scan(s, i0 + 1, l0, c0 + 1) == (StrScan {
                        end: j as int,
                        line: cl as int,
                        col: cc as int,
                        content: content@,
                        terminated: terminated,
                    }),
                decreases n - j,
            {
                let ghost sp = string_scan(s, j as int, cl as int, cc as int);
                let ghost cpre = content@;
                if j >= n {
                    terminated = false;
                    proof {
                        assert(cpre + sp.content =~= cpre);
                    }
                    break;
                }
                let ch = input.get_char(j);
                if ch == '\\' {
                    if j + 1 < n {
                        let esc = input.get_char(j + 1);
                        let dec: char = if esc == 'n' {
                            '\n'
                        } else if esc == 't' {
                            '\t'
                        } else {
                            esc
                        };
                        crate::strutil::push_char(&mut content, dec);
                        j = j + 2;
                        cc = cc + 2;
                        proof {
                            let nx = string_scan(s, j as int, cl as int, cc as int);
                            assert(sp == (StrScan { content: seq![dec] + nx.content, ..nx }));
                            assert(cpre + (seq![dec] + nx.content) =~= content@ + nx.content);
                        }
                    } else {
                        j = j + 1;
                        terminated = false;
                        proof {
                            assert(cpre + sp.content =~= cpre);
                        }
                        break;
                    }
                } else if ch == '"' {
                    j = j + 1;
                    cc = cc + 1;
                    terminated = true;
                    proof {
                        assert(cpre + sp.content =~= cpre);
                    }
                    break;
                } else {
                    crate::strutil::push_char(&mut content, ch);
                    if ch == '\n' {
                        cl = cl + 1;
                        cc = 1;
                    } else {
                        cc = cc + 1;
                    }
                    j = j + 1;
                    proof {
                        let nx = string_scan(s, j as int, cl as int, cc as int);
                        assert(sp == (StrScan { content: seq![ch] + nx.content, ..nx }));
                        assert(cpre + (seq![ch] + nx.content) =~= content@ + nx.content);
                    }
                }
            }
            let ghost cfinal = content@;
            tokens.push(Token::String(content));
            if !terminated {
                reporter.add_error(TokenizerError::UnterminatedString(line, col));
                proof {
                    lemma_skip_push(rpre, ErrorModel::UnterminatedString(sl, sc), base.len() as int);
                    lemma_cons_push(
                        rpre.skip(base.len() as int),
                        ErrorModel::UnterminatedString(sl, sc),
                        lex_from(s, j as int, cl as int, cc as int).errs,
                    );
                }
            }
            proof {
                lemma_views_push(pre, Token::String(tokens@.last()->String_0));
                lemma_cons_push(
                    views_of(pre),
                    TokenModel::String(cfinal),
                    lex_from(s, j as int, cl as int, cc as int).toks,
                );
            }
            i = j;
            line = cl;
            col = cc;
        } else if is_digit_exec(c) {
            // Number literal: the maximal digit run, valued as a signed
            // 32-bit integer.
            let mut j: usize = i;
            let mut val: u32 = 0;
            let mut over = false;
            proof {
                assert(s.subrange(i0, i0) =~= Seq::<char>::empty());
            }
            while j < n && is_digit_exec(input.get_char(j))
                invariant
                    input@ == s,
                    n == s.len(),
                    0 <= i0 <= j <= n,
                    digit_run_end(s, i0) == digit_run_end(s, j as int),
                    forall|t: int| i0 <= t < j ==> is_digit(#[trigger] s[t]),
                    !over ==> val == digits_val(s.subrange(i0, j as int)) && val <= 0x7fffffffu32,
                    over ==> digits_val(s.subrange(i0, j as int)) > max_number(),
                decreases n - j,
            {
                let ch = input.get_char(j);
                let d: u32 = (ch as u32) - 48;
                let ghost jj = j as int;
                let ghost dv = digits_val(s.subrange(i0, jj));
                proof {
                    assert(s.subrange(i0, jj + 1).drop_last() =~= s.subrange(i0, jj));
                    assert(s.subrange(i0, jj + 1).last() == s[jj]);
                    assert(digits_val(s.subrange(i0, jj + 1)) == dv * 10 + d);
                }
                if over || val > 214748364 || (val == 214748364 && d > 7) {
                    over = true;
                } else {
                    val = val * 10 + d;
                }
                j = j + 1;
            }
            proof {
                assert(digit_run_end(s, i0) == j as int);
            }
            if !over {
                tokens.push(Token::Number(val as i32));
                proof {
                    lemma_views_push(pre, Token::Number(val as i32));
                    lemma_cons_push(
                        views_of(pre),
                        TokenModel::Number(digits_val(s.subrange(i0, j as int)) as i32),
                        lex_from(s, j as int, l0, c0 + (j - i) as int).toks,
                    );
                }
            } else {
                reporter.add_error(TokenizerError::InvalidCharacter(c, line, col));
                proof {
                    lemma_skip_push(rpre, ErrorModel::InvalidCharacter(c, l0, c0), base.len() as int);
                    lemma_cons_push(
                        rpre.skip(base.len() as int),
                        ErrorModel::InvalidCharacter(c, l0, c0),
                        lex_from(s, j as int, l0, c0 + (j - i) as int).errs,
                    );
                }
            }
            col = col + (j - i);
            i = j;
        } else if is_ident_start_exec(c) {
            // Identifier: the maximal run of alphanumerics and underscores.
            let mut j: usize = i + 1;
            loop
                invariant_except_break
                    input@ == s,
                    n == s.len(),
                    i0 + 1 <= j <= n,
                    ident_run_end(s, i0 + 1) == ident_run_end(s, j as int),
                ensures
                    i0 + 1 <= j <= n,
                    ident_run_end(s, i0 + 1) == j as int,
                decreases n - j,
            {
                if j >= n {
                    break;
                }
                let ch = input.get_char(j);
                if !(char_is_alphanumeric(ch) || ch == '_') {
                    break;
                }
                j = j + 1;
            }
            let slice = vstd::string::StrSliceExecFns::substring_char(input, i, j);
            tokens.push(Token::Identifier(slice));
            proof {
                lemma_views_push(pre, Token::Identifier(slice));
                lemma_cons_push(
                    views_of(pre),
                    TokenModel::Identifier(s.subrange(i0, j as int)),
                    lex_from(s, j as int, l0, c0 + (j - i) as int).toks,
                );
            }
            col = col + (j - i);
            i = j;
        } else {
            let mut tok: Option<Token<'a>> = None;
            let mut k: usize = 1;
            if c == '+' {
                if i + 1 < n && input.get_char(i + 1) == '=' {
                    tok = Some(Token::PlusEqual);
                    k = 2;
                } else {
                    tok = Some(Token::Plus);
                }
            } else if c == '-' {
                if i + 1 < n && input.get_char(i + 1) == '=' {
                    tok = Some(Token::MinusEqual);
                    k = 2;
                } else {
                    tok = Some(Token::Minus);
                }
            } else if c == '*' {
                if i + 1 < n && input.get_char(i + 1) == '/' {
                    tok = None;
                    k = 2;
                } else if i + 1 < n && input.get_char(i + 1) == '=' {
                    tok = Some(Token::StarEqual);
                    k = 2;
                } else {
                    tok = Some(Token::Star);
                }
            } else if c == '%' {
                if i + 1 < n && input.get_char(i + 1) == '=' {
                    tok = Some(Token::PercentEqual);
                    k = 2;
                } else {
                    tok = Some(Token::Percent);
                }
            } else if c == '^' {
                if i + 1 < n && input.get_char(i + 1) == '=' {
                    tok = Some(Token::CaretEqual);
                    k = 2;
                } else {
                    tok = Some(Token::Caret);
                }
            } else if c == '&' {
                if i + 1 < n && input.get_char(i + 1) == '=' {
                    tok = Some(Token::AndEqual);
                    k = 2;
                } else {
                    tok = Some(Token::And);
                }
            } else if c == '|' {
                if i + 1 < n && input.get_char(i + 1) == '=' {
                    tok = Some(Token::OrEqual);
                    k = 2;
                } else {
                    tok = Some(Token::Or);
                }
            } else if c == '!' {
                if i + 1 < n && input.get_char(i + 1) == '=' {
                    tok = Some(Token::NotEqual);
                    k = 2;
                } else {
                    tok = Some(Token::Not);
                }
            } else if c == '<' {
                if i + 1 < n && input.get_char(i + 1) == '=' {
                    tok = Some(Token::LessEqual);
                    k = 2;
                } else if i + 1 < n && input.get_char(i + 1) == '<' {
                    if i + 2 < n && input.get_char(i + 2) == '=' {
                        tok = Some(Token::LeftShiftEqual);
                        k = 3;
                    } else {
                        tok = Some(Token::LeftShift);
                        k = 2;
                    }
                } else {
                    tok = Some(Token::Less);
                }
            } else if c == '>' {
                if i + 1 < n && input.get_char(i + 1) == '=' {
                    tok = Some(Token::GreaterEqual);
                    k = 2;
                } else if i + 1 < n && input.get_char(i + 1) == '>' {
                    if i + 2 < n && input.get_char(i + 2) == '=' {
                        tok = Some(Token::RightShiftEqual);
                        k = 3;
                    } else {
                        tok = Some(Token::RightShift);
                        k = 2;
                    }
                } else {
                    tok = Some(Token::Greater);
                }
            } else if c == '=' {
                if i + 1 < n && input.get_char(i + 1) == '=' {
                    tok = Some(Token::DoubleEqual);
                    k = 2;
                } else {
                    tok = Some(Token::Equal);
                }
            } else if c == ';' {
                tok = Some(Token::Semicolon);
            } else if c == ':' {
                tok = Some(Token::Colon);
            } else if c == ',' {
                tok = Some(Token::Comma);
            } else if c == '.' {
                tok = Some(Token::Dot);
            } else if c == '?' {
                tok = Some(Token::Question);
            } else if c == '@' {
                tok = Some(Token::At);
            } else if c == '(' {
                tok = Some(Token::LParen);
            } else if c == ')' {
                tok = Some(Token::RParen);
            } else if c == '{' {
                tok = Some(Token::LBrace);
            } else if c == '}' {
                tok = Some(Token::RBrace);
            } else if c == '[' {
                tok = Some(Token::LBracket);
            } else if c == ']' {
                tok = Some(Token::RBracket);
            }
            match tok {
                Some(t) => {
                    let ghost tm = t@;
                    tokens.push(t);
                    i = i + k;
                    col = col + k;
                    proof {
                        lemma_views_push(pre, tokens@.last());
                        lemma_cons_push(
                            views_of(pre),
                            tm,
                            lex_from(s, i as int, line as int, col as int).toks,
                        );
                    }
                },
                None => {
                    if c == '*' && k == 2 {
                        // An unmatched comment closure.
                        reporter.add_error(TokenizerError::UnmatchedCommentClosure(line, col));
                        i = i + 2;
                        col = col + 2;
                        proof {
                            lemma_skip_push(
                                rpre,
                                ErrorModel::UnmatchedCommentClosure(l0, c0),
                                base.len() as int,
                            );
                            lemma_cons_push(
                                rpre.skip(base.len() as int),
                                ErrorModel::UnmatchedCommentClosure(l0, c0),
                                lex_from(s, i as int, line as int, col as int).errs,
                            );
                        }
                    } else {
                        // A character that is not part of the language.
                        reporter.add_error(TokenizerError::InvalidCharacter(c, line, col));
                        i = i + 1;
                        col = col + 1;
                        proof {
                            lemma_skip_push(
                                rpre,
                                ErrorModel::InvalidCharacter(c, l0, c0),
                                base.len() as int,
                            );
                            lemma_cons_push(
                                rpre.skip(base.len() as int),
                                ErrorModel::InvalidCharacter(c, l0, c0),
                                lex_from(s, i as int, line as int, col as int).errs,
                            );
                        }
                    }
                },
            }
        }
    }
    proof {
        assert(lex_from(s, i as int, line as int, col as int).toks =~= Seq::<TokenModel>::empty());
        assert(lex_from(s, i as int, line as int, col as int).errs =~= Seq::<ErrorModel>::empty());
        assert(lex0.toks =~= views_of(tokens@));
        assert(lex0.errs =~= reporter@.skip(base.len() as int));
    }
    tokens.push(Token::EOF);
    proof {
        lemma_views_push(tokens@.drop_last(), Token::EOF);
        assert(tokens@.drop_last().push(Token::EOF) =~= tokens@);
        assert(views_of(tokens@) =~= lex(s).toks);
        assert(reporter@ =~= base + lex(s).errs);
    }
    tokens
}

} // verus!

verus! {

/// The tokenizer is length-preserving in position: the characters a whole
/// tokenization consumes sum to exactly the source's length.
pub proof fn lemma_tokenize_consumes_source(s: Seq<char>)
    ensures
        lex(s).consumed == s.len(),
{
    lemma_lex_consumes_all(s, 0, 1, 1);
}

/// A lexing pass consumes each remaining character exactly once.
pub proof fn lemma_lex_consumes_all(s: Seq<char>, i: int, line: int, col: int)
    requires
        0 <= i <= s.len(),
    ensures
        lex_from(s, i, line, col).consumed == s.len() - i,
    decreases s.len() - i,
{
    if i < s.len() {
        let c = s[i];
        lemma_find_newline_bounds(s, i + 2);
        lemma_comment_scan_bounds(s, i + 2, line, col + 2, 1);
        lemma_string_scan_bounds(s, i + 1, line, col + 1);
        lemma_digit_run_bounds(s, i + 1);
        lemma_ident_run_bounds(s, i + 1);
        if c == ' ' || c == '\t' {
            lemma_lex_consumes_all(s, i + 1, line, col + 1);
        } else if c == '\n' {
            lemma_lex_consumes_all(s, i + 1, line + 1, 1);
        } else if c == '/' {
            if i + 1 < s.len() && s[i + 1] == '/' {
                let j = find_newline(s, i + 2);
                lemma_lex_consumes_all(s, j, line, col + (j - i));
            } else if i + 1 < s.len() && s[i + 1] == '*' {
                let r = comment_scan(s, i + 2, line, col + 2, 1);
                lemma_lex_consumes_all(s, r.end, r.line, r.col);
            } else if i + 1 < s.len() && s[i + 1] == '=' {
                lemma_lex_consumes_all(s, i + 2, line, col + 2);
            } else {
                lemma_lex_consumes_all(s, i + 1, line, col + 1);
            }
        } else if c == '"' {
            let r = string_scan(s, i + 1, line, col + 1);
            lemma_lex_consumes_all(s, r.end, r.line, r.col);
        } else if is_digit(c) {
            let j = digit_run_end(s, i);
            lemma_lex_consumes_all(s, j, line, col + (j - i));
        } else if is_ident_start(c) {
            let j = ident_run_end(s, i + 1);
            lemma_lex_consumes_all(s, j, line, col + (j - i));
        } else if c == '<' || c == '>' {
            if i + 1 < s.len() && s[i + 1] == '=' {
                lemma_lex_consumes_all(s, i + 2, line, col + 2);
            } else if i + 1 < s.len() && s[i + 1] == c {
                if i + 2 < s.len() && s[i + 2] == '=' {
                    lemma_lex_consumes_all(s, i + 3, line, col + 3);
                } else {
                    lemma_lex_consumes_all(s, i + 2, line, col + 2);
                }
            } else {
                lemma_lex_consumes_all(s, i + 1, line, col + 1);
            }
        } else if (c == '+' || c == '-' || c == '%' || c == '^' || c == '&' || c == '|' || c == '!'
            || c == '=') && i + 1 < s.len() && s[i + 1] == '=' {
            lemma_lex_consumes_all(s, i + 2, line, col + 2);
        } else if c == '*' && i + 1 < s.len() && (s[i + 1] == '/' || s[i + 1] == '=') {
            lemma_lex_consumes_all(s, i + 2, line, col + 2);
        } else {
            lemma_lex_consumes_all(s, i + 1, line, col + 1);
        }
    }
}

} // verus!

verus! {

/// The canonical spelling of a token: what re-emitting it writes.
pub open spec fn spelling(t: TokenModel) -> Seq<char> {
    match t {
        TokenModel::Identifier(s) => s,
        TokenModel::EOL => seq!['\n'],
        TokenModel::Plus => seq!['+'],
        TokenModel::Minus => seq!['-'],
        TokenModel::Star => seq!['*'],
        TokenModel::Slash => seq!['/'],
        TokenModel::Percent => seq!['%'],
        TokenModel::Caret => seq!['^'],
        TokenModel::And => seq!['&'],
        TokenModel::Or => seq!['|'],
        TokenModel::Not => seq!['!'],
        TokenModel::Equal => seq!['='],
        TokenModel::Semicolon => seq![';'],
        TokenModel::Colon => seq![':'],
        TokenModel::Comma => seq![','],
        TokenModel::Dot => seq!['.'],
        TokenModel::Question => seq!['?'],
        TokenModel::At => seq!['@'],
        TokenModel::LParen => seq!['('],
        TokenModel::RParen => seq![')'],
        TokenModel::LBrace => seq!['{'],
        TokenModel::RBrace => seq!['}'],
        TokenModel::LBracket => seq!['['],
        TokenModel::RBracket => seq![']'],
        TokenModel::DoubleEqual => seq!['=', '='],
        TokenModel::NotEqual => seq!['!', '='],
        TokenModel::Less => seq!['<'],
        TokenModel::LessEqual => seq!['<', '='],
        TokenModel::Greater => seq!['>'],
        TokenModel::GreaterEqual => seq!['>', '='],
        TokenModel::PlusEqual => seq!['+', '='],
        TokenModel::MinusEqual => seq!['-', '='],
        TokenModel::StarEqual => seq!['*', '='],
        TokenModel::SlashEqual => seq!['/', '='],
        TokenModel::PercentEqual => seq!['%', '='],
        TokenModel::AndEqual => seq!['&', '='],
        TokenModel::OrEqual => seq!['|', '='],
        TokenModel::CaretEqual => seq!['^', '='],
        TokenModel::LeftShift => seq!['<', '<'],
        TokenModel::RightShift => seq!['>', '>'],
        TokenModel::LeftShiftEqual => seq!['<', '<', '='],
        TokenModel::RightShiftEqual => seq!['>', '>', '='],
        _ => Seq::empty(),
    }
}

/// An identifier of ASCII letters, digits and underscores, led by a letter
/// or underscore.
pub open spec fn simple_ident(s: Seq<char>) -> bool {
    &&& s.len() > 0
    &&& is_ident_start(s[0])
    &&& forall|i: int| 0 <= i < s.len() ==> ((#[trigger] s[i]) as u32) < 128 && is_ident_cont(s[i])
}

/// A token whose spelling re-lexes on its own: an operator, a punctuation
/// mark, an end-of-line, or an ASCII identifier — not a literal, a comment
/// or the end-of-file marker.
pub open spec fn simple_token(t: TokenModel) -> bool {
    match t {
        TokenModel::Identifier(s) => simple_ident(s),
        TokenModel::Number(_) => false,
        TokenModel::String(_) => false,
        TokenModel::Comment(_) => false,
        TokenModel::EOF => false,
        TokenModel::Tilde => false,
        _ => true,
    }
}

/// The canonical re-emission of a token stream: spellings joined by single
/// spaces.
pub open spec fn render(ts: Seq<TokenModel>) -> Seq<char>
    decreases ts.len(),
{
    if ts.len() == 0 {
        Seq::empty()
    } else if ts.len() == 1 {
        spelling(ts[0])
    } else {
        spelling(ts[0]) + seq![' '] + render(ts.drop_first())
    }
}

/// An identifier run over known characters ends exactly at the first
/// non-continuation position.
proof fn lemma_ident_run_exact(s: Seq<char>, a: int, b: int)
    requires
        0 <= a <= b <= s.len(),
        forall|t: int| a <= t < b ==> is_ident_cont(#[trigger] s[t]),
        b == s.len() || !is_ident_cont(s[b]),
    ensures
        ident_run_end(s, a) == b,
    decreases b - a,
{
    if a < b {
        lemma_ident_run_exact(s, a + 1, b);
    }
}

/// Lexing a rendered stream of simple tokens, from any position state,
/// yields exactly those tokens and no errors.
#[verifier::rlimit(100)]
#[verifier::spinoff_prover]
proof fn lemma_lex_render_from(s: Seq<char>, i: int, ts: Seq<TokenModel>)
    requires
        0 <= i <= s.len(),
        s.skip(i) == render(ts),
        forall|j: int| 0 <= j < ts.len() ==> simple_token(#[trigger] ts[j]),
    ensures
        forall|l: int, c: int|
            (#[trigger] lex_from(s, i, l, c)).toks == ts && lex_from(s, i, l, c).errs == Seq::<
                ErrorModel,
            >::empty(),
    decreases ts.len(),
{
    if ts.len() == 0 {
        assert(s.skip(i).len() == 0);
        assert(i == s.len());
    } else {
        let t = ts[0];
        let sp = spelling(t);
        let rest = ts.drop_first();
        let slen = sp.len() as int;
        assert(simple_token(t));
        assert(slen >= 1) by {
            if t is Identifier {
                assert(simple_ident(t->Identifier_0));
            }
        }
        if rest.len() > 0 {
            assert(s.skip(i) == sp + seq![' '] + render(rest));
            assert forall|q: int| 0 <= q < slen implies s[i + q] == sp[q] by {
                assert(s.skip(i)[q] == s[i + q]);
            }
            assert(s[i + slen] == ' ') by {
                assert(s.skip(i)[slen] == s[i + slen]);
            }
            assert(i + slen + 1 <= s.len());
            assert(s.skip(i + slen + 1) =~= render(rest)) by {
                assert forall|q: int| 0 <= q < render(rest).len() implies s.skip(i + slen + 1)[q]
                    == render(rest)[q] by {
                    assert(s.skip(i)[slen + 1 + q] == s[i + slen + 1 + q]);
                    assert((sp + seq![' '] + render(rest))[slen + 1 + q] == render(rest)[q]);
                }
            }
            assert forall|j: int| 0 <= j < rest.len() implies simple_token(#[trigger] rest[j]) by {
                assert(rest[j] == ts[j + 1]);
            }
            lemma_lex_render_from(s, i + slen + 1, rest);
            // After the token, a single space is skipped and the rest lexes.
            assert forall|l: int, c: int| (#[trigger] lex_from(s, i + slen, l, c)).toks == rest
                && lex_from(s, i + slen, l, c).errs == Seq::<ErrorModel>::empty() by {
                assert(lex_from(s, i + slen, l, c) == with_skip(
                    1,
                    lex_from(s, i + slen + 1, l, c + 1),
                ));
            }
        } else {
            assert(s.skip(i) == sp);
            assert forall|q: int| 0 <= q < slen implies s[i + q] == sp[q] by {
                assert(s.skip(i)[q] == s[i + q]);
            }
            assert(i + slen == s.len());
            assert forall|l: int, c: int| (#[trigger] lex_from(s, i + slen, l, c)).toks == rest
                && lex_from(s, i + slen, l, c).errs == Seq::<ErrorModel>::empty() by {}
        }
        assert(ts =~= seq![t] + rest);
        let i2 = i + slen;
        assert forall|l: int, c: int| (#[trigger] lex_from(s, i, l, c)).toks == ts && lex_from(
            s,
            i,
            l,
            c,
        ).errs == Seq::<ErrorModel>::empty() by {
            match t {
                TokenModel::Identifier(idseq) => {
                    assert(simple_ident(idseq));
                    assert(s[i] == idseq[0]);
                    lemma_ident_run_exact(s, i + 1, i2);
                    assert(lex_from(s, i, l, c) == with_tok(
                        TokenModel::Identifier(s.subrange(i, i2)),
                        slen,
                        lex_from(s, i2, l, c + slen),
                    ));
                    assert(s.subrange(i, i2) =~= idseq);
                },
                TokenModel::EOL => {
                    assert(lex_from(s, i, l, c) == with_tok(
                        TokenModel::EOL,
                        1,
                        lex_from(s, i + 1, l + 1, 1),
                    ));
                },
                TokenModel::Plus => {
                    assert(lex_from(s, i, l, c) == with_tok(t, 1, lex_from(s, i + 1, l, c + 1)));
                },
                TokenModel::Minus => {
                    assert(lex_from(s, i, l, c) == with_tok(t, 1, lex_from(s, i + 1, l, c + 1)));
                },
                TokenModel::Star => {
                    assert(lex_from(s, i, l, c) == with_tok(t, 1, lex_from(s, i + 1, l, c + 1)));
                },
                TokenModel::Slash => {
                    assert(lex_from(s, i, l, c) == with_tok(t, 1, lex_from(s, i + 1, l, c + 1)));
                },
                TokenModel::Percent => {
                    assert(lex_from(s, i, l, c) == with_tok(t, 1, lex_from(s, i + 1, l, c + 1)));
                },
                TokenModel::Caret => {
                    assert(lex_from(s, i, l, c) == with_tok(t, 1, lex_from(s, i + 1, l, c + 1)));
                },
                TokenModel::And => {
                    assert(lex_from(s, i, l, c) == with_tok(t, 1, lex_from(s, i + 1, l, c + 1)));
                },
                TokenModel::Or => {
                    assert(lex_from(s, i, l, c) == with_tok(t, 1, lex_from(s, i + 1, l, c + 1)));
                },
                TokenModel::Not => {
                    assert(lex_from(s, i, l, c) == with_tok(t, 1, lex_from(s, i + 1, l, c + 1)));
                },
                TokenModel::Equal => {
                    assert(lex_from(s, i, l, c) == with_tok(t, 1, lex_from(s, i + 1, l, c + 1)));
                },
                TokenModel::Semicolon => {
                    assert(lex_from(s, i, l, c) == with_tok(t, 1, lex_from(s, i + 1, l, c + 1)));
                },
                TokenModel::Colon => {
                    assert(lex_from(s, i, l, c) == with_tok(t, 1, lex_from(s, i + 1, l, c + 1)));
                },
                TokenModel::Comma => {
                    assert(lex_from(s, i, l, c) == with_tok(t, 1, lex_from(s, i + 1, l, c + 1)));
                },
                TokenModel::Dot => {
                    assert(lex_from(s, i, l, c) == with_tok(t, 1, lex_from(s, i + 1, l, c + 1)));
                },
                TokenModel::Question => {
                    assert(lex_from(s, i, l, c) == with_tok(t, 1, lex_from(s, i + 1, l, c + 1)));
                },
                TokenModel::At => {
                    assert(lex_from(s, i, l, c) == with_tok(t, 1, lex_from(s, i + 1, l, c + 1)));
                },
                TokenModel::LParen => {
                    assert(lex_from(s, i, l, c) == with_tok(t, 1, lex_from(s, i + 1, l, c + 1)));
                },
                TokenModel::RParen => {
                    assert(lex_from(s, i, l, c) == with_tok(t, 1, lex_from(s, i + 1, l, c + 1)));
                },
                TokenModel::LBrace => {
                    assert(lex_from(s, i, l, c) == with_tok(t, 1, lex_from(s, i + 1, l, c + 1)));
                },
                TokenModel::RBrace => {
                    assert(lex_from(s, i, l, c) == with_tok(t, 1, lex_from(s, i + 1, l, c + 1)));
                },
                TokenModel::LBracket => {
                    assert(lex_from(s, i, l, c) == with_tok(t, 1, lex_from(s, i + 1, l, c + 1)));
                },
                TokenModel::RBracket => {
                    assert(lex_from(s, i, l, c) == with_tok(t, 1, lex_from(s, i + 1, l, c + 1)));
                },
                TokenModel::Less => {
                    assert(lex_from(s, i, l, c) == with_tok(t, 1, lex_from(s, i + 1, l, c + 1)));
                },
                TokenModel::Greater => {
                    assert(lex_from(s, i, l, c) == with_tok(t, 1, lex_from(s, i + 1, l, c + 1)));
                },
                TokenModel::DoubleEqual => {
                    assert(lex_from(s, i, l, c) == with_tok(t, 2, lex_from(s, i + 2, l, c + 2)));
                },
                TokenModel::NotEqual => {
                    assert(lex_from(s, i, l, c) == with_tok(t, 2, lex_from(s, i + 2, l, c + 2)));
                },
                TokenModel::LessEqual => {
                    assert(lex_from(s, i, l, c) == with_tok(t, 2, lex_from(s, i + 2, l, c + 2)));
                },
                TokenModel::GreaterEqual => {
                    assert(lex_from(s, i, l, c) == with_tok(t, 2, lex_from(s, i + 2, l, c + 2)));
                },
                TokenModel::PlusEqual => {
                    assert(lex_from(s, i, l, c) == with_tok(t, 2, lex_from(s, i + 2, l, c + 2)));
                },
                TokenModel::MinusEqual => {
                    assert(lex_from(s, i, l, c) == with_tok(t, 2, lex_from(s, i + 2, l, c + 2)));
                },
                TokenModel::StarEqual => {
                    assert(lex_from(s, i, l, c) == with_tok(t, 2, lex_from(s, i + 2, l, c + 2)));
                },
                TokenModel::SlashEqual => {
                    assert(lex_from(s, i, l, c) == with_tok(t, 2, lex_from(s, i + 2, l, c + 2)));
                },
                TokenModel::PercentEqual => {
                    assert(lex_from(s, i, l, c) == with_tok(t, 2, lex_from(s, i + 2, l, c + 2)));
                },
                TokenModel::AndEqual => {
                    assert(lex_from(s, i, l, c) == with_tok(t, 2, lex_from(s, i + 2, l, c + 2)));
                },
                TokenModel::OrEqual => {
                    assert(lex_from(s, i, l, c) == with_tok(t, 2, lex_from(s, i + 2, l, c + 2)));
                },
                TokenModel::CaretEqual => {
                    assert(lex_from(s, i, l, c) == with_tok(t, 2, lex_from(s, i + 2, l, c + 2)));
                },
                TokenModel::LeftShift => {
                    assert(lex_from(s, i, l, c) == with_tok(t, 2, lex_from(s, i + 2, l, c + 2)));
                },
                TokenModel::RightShift => {
                    assert(lex_from(s, i, l, c) == with_tok(t, 2, lex_from(s, i + 2, l, c + 2)));
                },
                TokenModel::LeftShiftEqual => {
                    assert(lex_from(s, i, l, c) == with_tok(t, 3, lex_from(s, i + 3, l, c + 3)));
                },
                TokenModel::RightShiftEqual => {
                    assert(lex_from(s, i, l, c) == with_tok(t, 3, lex_from(s, i + 3, l, c + 3)));
                },
                _ => {
                    assert(false);
                },
            }
        }
    }
}

/// Round trip for simple inputs: a stream of operators, punctuation,
/// end-of-lines and ASCII identifiers, re-emitted with canonical spelling,
/// tokenizes back to exactly the same stream, with no errors.
pub proof fn lemma_round_trip(ts: Seq<TokenModel>)
    requires
        forall|j: int| 0 <= j < ts.len() ==> simple_token(#[trigger] ts[j]),
    ensures
        lex(render(ts)).toks == ts.push(TokenModel::EOF),
        lex(render(ts)).errs == Seq::<ErrorModel>::empty(),
{
    let s = render(ts);
    assert(s.skip(0) =~= s);
    lemma_lex_render_from(s, 0, ts);
}

} // verus!

verus! {

/// A token appended at the end of a stream renders at the end, behind one
/// separating space.
proof fn lemma_render_push(ts: Seq<TokenModel>, t: TokenModel)
    ensures
        render(ts.push(t)) == if ts.len() == 0 {
            spelling(t)
        } else {
            render(ts) + seq![' '] + spelling(t)
        },
    decreases ts.len(),
{
    if ts.len() == 0 {
        assert(ts.push(t).len() == 1);
        assert(ts.push(t)[0] == t);
    } else {
        assert(ts.push(t).drop_first() =~= ts.drop_first().push(t));
        lemma_render_push(ts.drop_first(), t);
        if ts.len() == 1 {
            assert(render(ts.push(t)) =~= render(ts) + seq![' '] + spelling(t));
        } else {
            assert(render(ts.push(t)) =~= render(ts) + seq![' '] + spelling(t));
        }
    }
}

/// Appends the canonical spelling of one simple token.
fn push_spelling(out: &mut String, t: &Token)
    requires
        simple_token(t@),
    ensures
        final(out)@ == old(out)@ + spelling(t@),
{
    let ghost start = out@;
    match t {
        Token::Identifier(s) => {
            vstd::string::StringExecFns::append(out, s);
        },
        Token::EOL => crate::strutil::push_char(out, '\n'),
        Token::Plus => crate::strutil::push_char(out, '+'),
        Token::Minus => crate::strutil::push_char(out, '-'),
        Token::Star => crate::strutil::push_char(out, '*'),
        Token::Slash => crate::strutil::push_char(out, '/'),
        Token::Percent => crate::strutil::push_char(out, '%'),
        Token::Caret => crate::strutil::push_char(out, '^'),
        Token::And => crate::strutil::push_char(out, '&'),
        Token::Or => crate::strutil::push_char(out, '|'),
        Token::Not => crate::strutil::push_char(out, '!'),
        Token::Equal => crate::strutil::push_char(out, '='),
        Token::Semicolon => crate::strutil::push_char(out, ';'),
        Token::Colon => crate::strutil::push_char(out, ':'),
        Token::Comma => crate::strutil::push_char(out, ','),
        Token::Dot => crate::strutil::push_char(out, '.'),
        Token::Question => crate::strutil::push_char(out, '?'),
        Token::At => crate::strutil::push_char(out, '@'),
        Token::LParen => crate::strutil::push_char(out, '('),
        Token::RParen => crate::strutil::push_char(out, ')'),
        Token::LBrace => crate::strutil::push_char(out, '{'),
        Token::RBrace => crate::strutil::push_char(out, '}'),
        Token::LBracket => crate::strutil::push_char(out, '['),
        Token::RBracket => crate::strutil::push_char(out, ']'),
        Token::DoubleEqual => {
            crate::strutil::push_char(out, '=');
            crate::strutil::push_char(out, '=');
        },
        Token::NotEqual => {
            crate::strutil::push_char(out, '!');
            crate::strutil::push_char(out, '=');
        },
        Token::Less => crate::strutil::push_char(out, '<'),
        Token::LessEqual => {
            crate::strutil::push_char(out, '<');
            crate::strutil::push_char(out, '=');
        },
        Token::Greater => crate::strutil::push_char(out, '>'),
        Token::GreaterEqual => {
            crate::strutil::push_char(out, '>');
            crate::strutil::push_char(out, '=');
        },
        Token::PlusEqual => {
            crate::strutil::push_char(out, '+');
            crate::strutil::push_char(out, '=');
        },
        Token::MinusEqual => {
            crate::strutil::push_char(out, '-');
            crate::strutil::push_char(out, '=');
        },
        Token::StarEqual => {
            crate::strutil::push_char(out, '*');
            crate::strutil::push_char(out, '=');
        },
        Token::SlashEqual => {
            crate::strutil::push_char(out, '/');
            crate::strutil::push_char(out, '=');
        },
        Token::PercentEqual => {
            crate::strutil::push_char(out, '%');
            crate::strutil::push_char(out, '=');
        },
        Token::AndEqual => {
            crate::strutil::push_char(out, '&');
            crate::strutil::push_char(out, '=');
        },
        Token::OrEqual => {
            crate::strutil::push_char(out, '|');
            crate::strutil::push_char(out, '=');
        },
        Token::CaretEqual => {
            crate::strutil::push_char(out, '^');
            crate::strutil::push_char(out, '=');
        },
        Token::LeftShift => {
            crate::strutil::push_char(out, '<');
            crate::strutil::push_char(out, '<');
        },
        Token::RightShift => {
            crate::strutil::push_char(out, '>');
            crate::strutil::push_char(out, '>');
        },
        Token::LeftShiftEqual => {
            crate::strutil::push_char(out, '<');
            crate::strutil::push_char(out, '<');
            crate::strutil::push_char(out, '=');
        },
        Token::RightShiftEqual => {
            crate::strutil::push_char(out, '>');
            crate::strutil::push_char(out, '>');
            crate::strutil::push_char(out, '=');
        },
        _ => {
            proof {
                assert(false);
            }
        },
    }
    proof {
        assert(out@ =~= start + spelling(t@));
    }
}

/// Re-emits a stream of simple tokens with canonical spelling: spellings
/// joined by single spaces. Tokenizing the result gives the same stream
/// back.
pub fn render_tokens(tokens: &Vec<Token>) -> (r: String)
    requires
        forall|j: int| 0 <= j < tokens@.len() ==> simple_token((#[trigger] tokens@[j])@),
    ensures
        r@ == render(views_of(tokens@)),
{
    let mut out = String::new();
    let n = tokens.len();
    let mut i: usize = 0;
    proof {
        assert(views_of(tokens@).take(0) =~= Seq::<TokenModel>::empty());
        assert(out@ =~= render(views_of(tokens@).take(0)));
    }
    while i < n
        invariant
            n == tokens@.len(),
            i <= n,
            forall|j: int| 0 <= j < tokens@.len() ==> simple_token((#[trigger] tokens@[j])@),
            out@ == render(views_of(tokens@).take(i as int)),
        decreases n - i,
    {
        if i > 0 {
            crate::strutil::push_char(&mut out, ' ');
        }
        let t = &tokens[i];
        push_spelling(&mut out, t);
        proof {
            let vs = views_of(tokens@);
            assert(vs[i as int] == tokens@[i as int]@);
            assert(vs.take(i + 1) =~= vs.take(i as int).push(tokens@[i as int]@));
            lemma_render_push(vs.take(i as int), tokens@[i as int]@);
            if i > 0 {
                assert(out@ =~= render(vs.take(i as int)) + seq![' '] + spelling(
                    tokens@[i as int]@,
                ));
            }
        }
        i = i + 1;
    }
    proof {
        assert(views_of(tokens@).take(n as int) =~= views_of(tokens@));
    }
    out
}

} // verus!

//! The diagnostic sink: collects tokenizer errors in detection order and
//! renders them into a report against the original source text.

use vstd::prelude::*;
use vstd::string::StrSliceExecFns;
use vstd::string::StringExecFns;
use crate::errors::{ErrorModel, TokenizerError};
use crate::strutil::{dec_digits, push_char, u64_to_string};

verus! {

/// Collects tokenizer errors and formats them into a single report.
#[derive(Debug)]
pub struct ErrorReporter {
    pub errors: Vec<TokenizerError>,
}

impl View for ErrorReporter {
    type V = Seq<ErrorModel>;

    open spec fn view(&self) -> Seq<ErrorModel> {
        self.errors@.map_values(|e: TokenizerError| e@)
    }
}

impl ErrorReporter {
    /// Creates an empty reporter.
    pub fn new() -> (r: ErrorReporter)
        ensures
            r@ == Seq::<ErrorModel>::empty(),
    {
        let r = ErrorReporter { errors: Vec::new() };
        proof {
            assert(r@ =~= Seq::<ErrorModel>::empty());
        }
        r
    }

    /// Appends an error to the report.
    pub fn add_error(&mut self, error: TokenizerError)
        ensures
            final(self)@ == old(self)@.push(error@),
    {
        let ghost e = error@;
        self.errors.push(error);
        proof {
            assert(self@ =~= old(self)@.push(e));
        }
    }

    /// Whether at least one error has been recorded.
    pub fn has_errors(&self) -> (r: bool)
        ensures
            r == (self@.len() != 0),
    {
        self.errors.len() != 0
    }
}

impl Default for ErrorReporter {
    /// Same as `ErrorReporter::new`.
    fn default() -> (r: Self)
        ensures
            r@ == Seq::<ErrorModel>::empty(),
    {
        ErrorReporter::new()
    }
}

} // verus!

verus! {

broadcast use vstd::seq_lib::group_seq_properties;

/// One line of `src`, as the line-based splitting used for reports sees it:
/// pieces are cut at every newline, a carriage return just before a newline
/// is dropped, and a final empty piece after a trailing newline is not a
/// line.
pub open spec fn spec_lines(src: Seq<char>, i: int) -> Seq<Seq<char>>
    decreases src.len() - i,
{
    if !(0 <= i < src.len()) {
        Seq::empty()
    } else {
        proof {
            crate::lexer::lemma_find_newline_bounds(src, i);
        }
        let j = crate::lexer::find_newline(src, i);
        if j >= src.len() {
            seq![src.subrange(i, j)]
        } else {
            seq![strip_cr(src.subrange(i, j))] + spec_lines(src, j + 1)
        }
    }
}

/// Drops one trailing carriage return.
pub open spec fn strip_cr(t: Seq<char>) -> Seq<char> {
    if t.len() > 0 && t.last() == '\r' {
        t.drop_last()
    } else {
        t
    }
}

/// The quoted line of the report: the 1-based line `l` of the source, or a
/// placeholder when there is no such line.
pub open spec fn shown_line(src: Seq<char>, l: int) -> Seq<char> {
    if 1 <= l <= spec_lines(src, 0).len() {
        spec_lines(src, 0)[l - 1]
    } else {
        "<line not found>"@
    }
}

/// The kind shown in an error block's header.
pub open spec fn kind_of(e: ErrorModel) -> Seq<char> {
    match e {
        ErrorModel::InvalidCharacter(_, _, _) => "Invalid Character"@,
        ErrorModel::UnterminatedString(_, _) => "Unterminated String"@,
        ErrorModel::UnexpectedEOF(_, _, _) => "Unexpected EOF"@,
        ErrorModel::UnmatchedCommentClosure(_, _) => "Unmatched Comment Closure"@,
        ErrorModel::InvalidNestedComment(_, _) => "Invalid Nested Comment"@,
        ErrorModel::ExpectedToken(_, _, _) => "Expected Token Missing"@,
    }
}

/// The one-line explanation of an error block.
pub open spec fn explanation_of(e: ErrorModel) -> Seq<char> {
    match e {
        ErrorModel::InvalidCharacter(ch, _, _) => "Encountered an invalid character: '"@ + seq![ch]
            + "'"@,
        ErrorModel::UnterminatedString(_, _) => "String literal is missing a closing quote"@,
        ErrorModel::UnexpectedEOF(what, _, _) => "Unexpected end-of-file while processing '"@ + what
            + "'"@,
        ErrorModel::UnmatchedCommentClosure(_, _) =>
            "Found a comment closure '*/' without a matching '/*'"@,
        ErrorModel::InvalidNestedComment(_, _) => "Improperly nested or unclosed comment"@,
        ErrorModel::ExpectedToken(what, _, _) => "Expected token '"@ + what + "' is missing"@,
    }
}

/// The line an error is positioned at.
pub open spec fn err_line(e: ErrorModel) -> int {
    match e {
        ErrorModel::InvalidCharacter(_, l, _) => l,
        ErrorModel::UnterminatedString(l, _) => l,
        ErrorModel::UnexpectedEOF(_, l, _) => l,
        ErrorModel::UnmatchedCommentClosure(l, _) => l,
        ErrorModel::InvalidNestedComment(l, _) => l,
        ErrorModel::ExpectedToken(_, l, _) => l,
    }
}

/// The column an error is positioned at.
pub open spec fn err_col(e: ErrorModel) -> int {
    match e {
        ErrorModel::InvalidCharacter(_, _, c) => c,
        ErrorModel::UnterminatedString(_, c) => c,
        ErrorModel::UnexpectedEOF(_, _, c) => c,
        ErrorModel::UnmatchedCommentClosure(_, c) => c,
        ErrorModel::InvalidNestedComment(_, c) => c,
        ErrorModel::ExpectedToken(_, _, c) => c,
    }
}

/// The four-line block an error renders to: a header with the kind and the
/// 1-based position, the explanation, the quoted source line, and a closing
/// separator.
pub open spec fn block_of(e: ErrorModel, src: Seq<char>) -> Seq<char> {
    "┌["@ + kind_of(e) + "] Error at line "@ + dec_digits(err_line(e) as nat) + ", column "@
        + dec_digits(err_col(e) as nat) + "\n"@ + "├ "@ + explanation_of(e) + "\n"@
        + "├ Code Piece ~ \""@ + shown_line(src, err_line(e)) + "\"\n"@ + "└─[***]\n"@
}

/// The whole report: every error's block, in insertion order.
pub open spec fn report_of(errs: Seq<ErrorModel>, src: Seq<char>) -> Seq<char>
    decreases errs.len(),
{
    if errs.len() == 0 {
        Seq::empty()
    } else {
        block_of(errs[0], src) + report_of(errs.drop_first(), src)
    }
}

/// A block appended at the end of the error list lands at the end of the
/// report.
proof fn lemma_report_push(errs: Seq<ErrorModel>, e: ErrorModel, src: Seq<char>)
    ensures
        report_of(errs.push(e), src) == report_of(errs, src) + block_of(e, src),
    decreases errs.len(),
{
    if errs.len() == 0 {
        assert(errs.push(e).drop_first() =~= Seq::<ErrorModel>::empty());
        assert(report_of(errs.push(e), src) =~= report_of(errs, src) + block_of(e, src));
    } else {
        assert(errs.push(e).drop_first() =~= errs.drop_first().push(e));
        lemma_report_push(errs.drop_first(), e, src);
        assert(report_of(errs.push(e), src) =~= report_of(errs, src) + block_of(e, src));
    }
}

} // verus!

verus! {

/// The 1-based line `l` of the source, when it has one.
fn nth_line<'a>(input: &'a str, l: usize) -> (r: Option<&'a str>)
    requires
        l >= 1,
    ensures
        match r {
            Some(t) => 1 <= l <= spec_lines(input@, 0).len() && t@ == spec_lines(input@, 0)[l - 1],
            None => l > spec_lines(input@, 0).len(),
        },
{
    let ghost s = input@;
    let n = input.unicode_len();
    let mut idx: usize = 0;
    let mut k: usize = 1;
    loop
        invariant
            input@ == s,
            n == s.len(),
            idx <= n,
            1 <= k <= l,
            spec_lines(s, 0).skip(k - 1) == spec_lines(s, idx as int),
            k - 1 <= spec_lines(s, 0).len(),
        decreases n - idx + (l - k),
    {
        if idx >= n {
            proof {
                assert(spec_lines(s, idx as int) =~= Seq::<Seq<char>>::empty());
                assert(spec_lines(s, 0).len() == k - 1);
            }
            return None;
        }
        // Find the end of the current line.
        let mut j: usize = idx;
        while j < n && input.get_char(j) != '\n'
            invariant
                input@ == s,
                n == s.len(),
                0 <= idx <= j <= n,
                crate::lexer::find_newline(s, idx as int) == crate::lexer::find_newline(s, j as int),
            decreases n - j,
        {
            j = j + 1;
        }
        proof {
            assert(crate::lexer::find_newline(s, idx as int) == j as int);
        }
        if k == l {
            let end: usize = if j < n && j > idx && input.get_char(j - 1) == '\r' {
                j - 1
            } else {
                j
            };
            let t = vstd::string::StrSliceExecFns::substring_char(input, idx, end);
            proof {
                let seg = s.subrange(idx as int, j as int);
                if j < n {
                    assert(spec_lines(s, idx as int)[0] == strip_cr(seg));
                } else {
                    assert(spec_lines(s, idx as int)[0] == seg);
                }
                if j < n && j > idx && s[j - 1] == '\r' {
                    assert(seg.last() == '\r');
                    assert(s.subrange(idx as int, end as int) =~= strip_cr(seg));
                } else {
                    assert(s.subrange(idx as int, end as int) =~= if j < n {
                        strip_cr(seg)
                    } else {
                        seg
                    });
                }
                assert(spec_lines(s, 0).skip(k - 1)[0] == spec_lines(s, 0)[l - 1]);
                assert(spec_lines(s, 0).len() >= k);
            }
            return Some(t);
        }
        if j >= n {
            proof {
                assert(spec_lines(s, idx as int).len() == 1);
                assert(spec_lines(s, 0).len() == k);
            }
            return None;
        }
        proof {
            assert(spec_lines(s, idx as int).drop_first() =~= spec_lines(s, j + 1));
            assert(spec_lines(s, 0).skip(k as int) =~= spec_lines(s, 0).skip(k - 1).drop_first());
        }
        idx = j + 1;
        k = k + 1;
    }
}

} // verus!

verus! {

/// Renders one error block at the end of `out`.
#[verifier::rlimit(60)]
fn push_block(out: &mut String, e: &TokenizerError, input: &str)
    ensures
        final(out)@ == old(out)@ + block_of(e@, input@),
{
    let ghost start = out@;
    let (line, col): (usize, usize) = match e {
        TokenizerError::InvalidCharacter(_, l, c) => (*l, *c),
        TokenizerError::UnterminatedString(l, c) => (*l, *c),
        TokenizerError::UnexpectedEOF(_, l, c) => (*l, *c),
        TokenizerError::UnmatchedCommentClosure(l, c) => (*l, *c),
        TokenizerError::InvalidNestedComment(l, c) => (*l, *c),
        TokenizerError::ExpectedToken(_, l, c) => (*l, *c),
    };
    out.append("┌[");
    match e {
        TokenizerError::InvalidCharacter(_, _, _) => out.append("Invalid Character"),
        TokenizerError::UnterminatedString(_, _) => out.append("Unterminated String"),
        TokenizerError::UnexpectedEOF(_, _, _) => out.append("Unexpected EOF"),
        TokenizerError::UnmatchedCommentClosure(_, _) => out.append("Unmatched Comment Closure"),
        TokenizerError::InvalidNestedComment(_, _) => out.append("Invalid Nested Comment"),
        TokenizerError::ExpectedToken(_, _, _) => out.append("Expected Token Missing"),
    }
    out.append("] Error at line ");
    let ln = u64_to_string(line as u64);
    out.append(ln.as_str());
    out.append(", column ");
    let cn = u64_to_string(col as u64);
    out.append(cn.as_str());
    out.append("\n");
    out.append("├ ");
    match e {
        TokenizerError::InvalidCharacter(ch, _, _) => {
            out.append("Encountered an invalid character: '");
            push_char(out, *ch);
            out.append("'");
        },
        TokenizerError::UnterminatedString(_, _) => {
            out.append("String literal is missing a closing quote");
        },
        TokenizerError::UnexpectedEOF(what, _, _) => {
            out.append("Unexpected end-of-file while processing '");
            out.append(what.as_str());
            out.append("'");
        },
        TokenizerError::UnmatchedCommentClosure(_, _) => {
            out.append("Found a comment closure '*/' without a matching '/*'");
        },
        TokenizerError::InvalidNestedComment(_, _) => {
            out.append("Improperly nested or unclosed comment");
        },
        TokenizerError::ExpectedToken(what, _, _) => {
            out.append("Expected token '");
            out.append(what.as_str());
            out.append("' is missing");
        },
    }
    proof {
        assert(out@ =~= start + ("┌["@ + kind_of(e@) + "] Error at line "@ + dec_digits(
            err_line(e@) as nat,
        ) + ", column "@ + dec_digits(err_col(e@) as nat) + "\n"@ + "├ "@ + explanation_of(e@)));
    }
    out.append("\n");
    out.append("├ Code Piece ~ \"");
    if line >= 1 {
        match nth_line(input, line) {
            Some(t) => {
                out.append(t);
                proof {
                    assert(t@ == shown_line(input@, err_line(e@)));
                }
            },
            None => {
                out.append("<line not found>");
                proof {
                    assert("<line not found>"@ == shown_line(input@, err_line(e@)));
                }
            },
        }
    } else {
        out.append("<line not found>");
        proof {
            assert("<line not found>"@ == shown_line(input@, err_line(e@)));
        }
    }
    out.append("\"\n");
    out.append("└─[***]\n");
    proof {
        assert(out@ =~= start + block_of(e@, input@));
    }
}

impl ErrorReporter {
    /// Renders every recorded error, in insertion order, as a four-line
    /// block: a header naming the kind and the 1-based position, a one-line
    /// explanation, the offending source line quoted (or a placeholder when
    /// the position lies outside the source), and a closing separator.
    pub fn generate_report(&self, input: &str) -> (r: String)
        ensures
            r@ == report_of(self@, input@),
    {
        let mut report = String::new();
        let nerr = self.errors.len();
        let mut idx: usize = 0;
        proof {
            assert(self@.take(0) =~= Seq::<ErrorModel>::empty());
            assert(report@ =~= report_of(self@.take(0), input@));
        }
        while idx < nerr
            invariant
                nerr == self.errors@.len(),
                idx <= nerr,
                report@ == report_of(self@.take(idx as int), input@),
            decreases nerr - idx,
        {
            let e = &self.errors[idx];
            push_block(&mut report, e, input);
            proof {
                lemma_report_push(self@.take(idx as int), e@, input@);
                assert(self@.take(idx + 1) =~= self@.take(idx as int).push(e@));
            }
            idx = idx + 1;
        }
        proof {
            assert(self@.take(nerr as int) =~= self@);
        }
        report
    }
}

} // verus!

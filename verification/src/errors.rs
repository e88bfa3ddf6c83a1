//! Structured tokenizer errors. Every variant carries the 1-based line and
//! column the error was detected at.

use vstd::prelude::*;

verus! {

/// An error found while tokenizing; positions are 1-based.
#[derive(Debug, PartialEq)]
pub enum TokenizerError {
    /// A character that is not part of the language.
    InvalidCharacter(char, usize, usize),
    /// A string literal missing its closing quote; positioned at the opening
    /// quote.
    UnterminatedString(usize, usize),
    /// The input ended while a named construct was being processed.
    UnexpectedEOF(String, usize, usize),
    /// A `*/` with no matching `/*`.
    UnmatchedCommentClosure(usize, usize),
    /// A block comment whose outermost opener is never closed; positioned at
    /// that opener.
    InvalidNestedComment(usize, usize),
    /// A named token that was expected but missing.
    ExpectedToken(String, usize, usize),
}

/// The mathematical value of a `TokenizerError`.
pub ghost enum ErrorModel {
    InvalidCharacter(char, int, int),
    UnterminatedString(int, int),
    UnexpectedEOF(Seq<char>, int, int),
    UnmatchedCommentClosure(int, int),
    InvalidNestedComment(int, int),
    ExpectedToken(Seq<char>, int, int),
}

impl View for TokenizerError {
    type V = ErrorModel;

    open spec fn view(&self) -> ErrorModel {
        match self {
            TokenizerError::InvalidCharacter(c, l, col) => ErrorModel::InvalidCharacter(
                *c,
                *l as int,
                *col as int,
            ),
            TokenizerError::UnterminatedString(l, col) => ErrorModel::UnterminatedString(
                *l as int,
                *col as int,
            ),
            TokenizerError::UnexpectedEOF(what, l, col) => ErrorModel::UnexpectedEOF(
                what@,
                *l as int,
                *col as int,
            ),
            TokenizerError::UnmatchedCommentClosure(l, col) => ErrorModel::UnmatchedCommentClosure(
                *l as int,
                *col as int,
            ),
            TokenizerError::InvalidNestedComment(l, col) => ErrorModel::InvalidNestedComment(
                *l as int,
                *col as int,
            ),
            TokenizerError::ExpectedToken(what, l, col) => ErrorModel::ExpectedToken(
                what@,
                *l as int,
                *col as int,
            ),
        }
    }
}

} // verus!

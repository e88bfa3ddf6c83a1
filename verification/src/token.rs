//! The token alphabet of the language. Identifier payloads borrow from the
//! tokenized source; string payloads own their decoded value.

use vstd::prelude::*;

verus! {

/// A lexeme of the language.
#[derive(Debug, PartialEq)]
pub enum Token<'a> {
    // Literals
    Number(i32),
    Identifier(&'a str),
    String(String),
    // Single-character tokens
    Plus,
    Minus,
    Star,
    Slash,
    Percent,
    Caret,
    And,
    Or,
    Not,
    Tilde,
    Equal,
    Semicolon,
    Colon,
    Comma,
    Dot,
    Question,
    At,
    // Grouping symbols
    LParen,
    RParen,
    LBrace,
    RBrace,
    LBracket,
    RBracket,
    // Multi-character operators
    DoubleEqual,
    NotEqual,
    Less,
    LessEqual,
    Greater,
    GreaterEqual,
    PlusEqual,
    MinusEqual,
    StarEqual,
    SlashEqual,
    PercentEqual,
    AndEqual,
    OrEqual,
    CaretEqual,
    LeftShift,
    RightShift,
    LeftShiftEqual,
    RightShiftEqual,
    // End-of-line and end-of-file markers
    EOL,
    EOF,
    // Comments; not emitted by the tokenizer.
    Comment(&'a str),
}

/// The mathematical value of a `Token`.
pub ghost enum TokenModel {
    Number(i32),
    Identifier(Seq<char>),
    String(Seq<char>),
    Plus,
    Minus,
    Star,
    Slash,
    Percent,
    Caret,
    And,
    Or,
    Not,
    Tilde,
    Equal,
    Semicolon,
    Colon,
    Comma,
    Dot,
    Question,
    At,
    LParen,
    RParen,
    LBrace,
    RBrace,
    LBracket,
    RBracket,
    DoubleEqual,
    NotEqual,
    Less,
    LessEqual,
    Greater,
    GreaterEqual,
    PlusEqual,
    MinusEqual,
    StarEqual,
    SlashEqual,
    PercentEqual,
    AndEqual,
    OrEqual,
    CaretEqual,
    LeftShift,
    RightShift,
    LeftShiftEqual,
    RightShiftEqual,
    EOL,
    EOF,
    Comment(Seq<char>),
}

impl<'a> View for Token<'a> {
    type V = TokenModel;

    open spec fn view(&self) -> TokenModel {
        match self {
            Token::Number(n) => TokenModel::Number(*n),
            Token::Identifier(s) => TokenModel::Identifier(s@),
            Token::String(s) => TokenModel::String(s@),
            Token::Plus => TokenModel::Plus,
            Token::Minus => TokenModel::Minus,
            Token::Star => TokenModel::Star,
            Token::Slash => TokenModel::Slash,
            Token::Percent => TokenModel::Percent,
            Token::Caret => TokenModel::Caret,
            Token::And => TokenModel::And,
            Token::Or => TokenModel::Or,
            Token::Not => TokenModel::Not,
            Token::Tilde => TokenModel::Tilde,
            Token::Equal => TokenModel::Equal,
            Token::Semicolon => TokenModel::Semicolon,
            Token::Colon => TokenModel::Colon,
            Token::Comma => TokenModel::Comma,
            Token::Dot => TokenModel::Dot,
            Token::Question => TokenModel::Question,
            Token::At => TokenModel::At,
            Token::LParen => TokenModel::LParen,
            Token::RParen => TokenModel::RParen,
            Token::LBrace => TokenModel::LBrace,
            Token::RBrace => TokenModel::RBrace,
            Token::LBracket => TokenModel::LBracket,
            Token::RBracket => TokenModel::RBracket,
            Token::DoubleEqual => TokenModel::DoubleEqual,
            Token::NotEqual => TokenModel::NotEqual,
            Token::Less => TokenModel::Less,
            Token::LessEqual => TokenModel::LessEqual,
            Token::Greater => TokenModel::Greater,
            Token::GreaterEqual => TokenModel::GreaterEqual,
            Token::PlusEqual => TokenModel::PlusEqual,
            Token::MinusEqual => TokenModel::MinusEqual,
            Token::StarEqual => TokenModel::StarEqual,
            Token::SlashEqual => TokenModel::SlashEqual,
            Token::PercentEqual => TokenModel::PercentEqual,
            Token::AndEqual => TokenModel::AndEqual,
            Token::OrEqual => TokenModel::OrEqual,
            Token::CaretEqual => TokenModel::CaretEqual,
            Token::LeftShift => TokenModel::LeftShift,
            Token::RightShift => TokenModel::RightShift,
            Token::LeftShiftEqual => TokenModel::LeftShiftEqual,
            Token::RightShiftEqual => TokenModel::RightShiftEqual,
            Token::EOL => TokenModel::EOL,
            Token::EOF => TokenModel::EOF,
            Token::Comment(s) => TokenModel::Comment(s@),
        }
    }
}

} // verus!

use classlang::errors::TokenizerError;
use classlang::lexer::tokenize;
use classlang::report::ErrorReporter;
use classlang::token::Token;

#[test]
fn nested_block_comment_with_unmatched_opener() {
    // The inner comment closes; the outer opener never does. One error at
    // the outer opener's position, and the end-of-file token is present.
    let mut reporter = ErrorReporter::new();
    let tokens = tokenize("/* outer /* inner */ ", &mut reporter);
    assert_eq!(tokens, vec![Token::EOF]);
    assert_eq!(reporter.errors, vec![TokenizerError::InvalidNestedComment(1, 1)]);
}

#[test]
fn closed_nested_block_comment_is_skipped() {
    let mut reporter = ErrorReporter::new();
    let tokens = tokenize("a /* x /* y */ z */ b", &mut reporter);
    assert_eq!(tokens, vec![Token::Identifier("a"), Token::Identifier("b"), Token::EOF]);
    assert!(!reporter.has_errors());
}

#[test]
fn operator_maximal_munch() {
    let mut reporter = ErrorReporter::new();
    let tokens = tokenize("<<= >>= == != <= >= += -= *= /= %= &= |= ^=", &mut reporter);
    assert_eq!(
        tokens,
        vec![
            Token::LeftShiftEqual,
            Token::RightShiftEqual,
            Token::DoubleEqual,
            Token::NotEqual,
            Token::LessEqual,
            Token::GreaterEqual,
            Token::PlusEqual,
            Token::MinusEqual,
            Token::StarEqual,
            Token::SlashEqual,
            Token::PercentEqual,
            Token::AndEqual,
            Token::OrEqual,
            Token::CaretEqual,
            Token::EOF,
        ]
    );
    assert!(!reporter.has_errors());
}

#[test]
fn string_escapes_decode() {
    // Source text: "hi\n<TAB>there" — the backslash-n decodes to a newline,
    // the raw tab stays a tab.
    let mut reporter = ErrorReporter::new();
    let tokens = tokenize("\"hi\\n\tthere\"", &mut reporter);
    assert_eq!(tokens, vec![Token::String("hi\n\tthere".to_string()), Token::EOF]);
    assert!(!reporter.has_errors());

    // Source text: "\n" decodes to a one-character newline.
    let mut reporter2 = ErrorReporter::new();
    let tokens2 = tokenize("\"\\n\"", &mut reporter2);
    assert_eq!(tokens2, vec![Token::String("\n".to_string()), Token::EOF]);
    assert!(!reporter2.has_errors());

    // Escaped quote and backslash.
    let mut reporter3 = ErrorReporter::new();
    let tokens3 = tokenize("\"a\\\"b\\\\c\\q\"", &mut reporter3);
    assert_eq!(tokens3, vec![Token::String("a\"b\\cq".to_string()), Token::EOF]);
    assert!(!reporter3.has_errors());
}

#[test]
fn unterminated_string_still_emits_token() {
    let mut reporter = ErrorReporter::new();
    let tokens = tokenize("\"abc", &mut reporter);
    assert_eq!(tokens, vec![Token::String("abc".to_string()), Token::EOF]);
    assert_eq!(reporter.errors, vec![TokenizerError::UnterminatedString(1, 1)]);
}

#[test]
fn unmatched_comment_closure_is_reported() {
    let mut reporter = ErrorReporter::new();
    let tokens = tokenize("a */ b", &mut reporter);
    assert_eq!(tokens, vec![Token::Identifier("a"), Token::Identifier("b"), Token::EOF]);
    assert_eq!(reporter.errors, vec![TokenizerError::UnmatchedCommentClosure(1, 3)]);
}

#[test]
fn number_literals_and_overflow() {
    let mut reporter = ErrorReporter::new();
    let tokens = tokenize("0 42 2147483647", &mut reporter);
    assert_eq!(
        tokens,
        vec![Token::Number(0), Token::Number(42), Token::Number(2147483647), Token::EOF]
    );
    assert!(!reporter.has_errors());

    // One past the largest signed 32-bit value: the run is consumed, no
    // token is emitted, and the first digit is reported.
    let mut reporter2 = ErrorReporter::new();
    let tokens2 = tokenize("2147483648", &mut reporter2);
    assert_eq!(tokens2, vec![Token::EOF]);
    assert_eq!(reporter2.errors, vec![TokenizerError::InvalidCharacter('2', 1, 1)]);
}

#[test]
fn identifiers_and_invalid_characters() {
    let mut reporter = ErrorReporter::new();
    let tokens = tokenize("abc _x9 a#", &mut reporter);
    assert_eq!(
        tokens,
        vec![
            Token::Identifier("abc"),
            Token::Identifier("_x9"),
            Token::Identifier("a"),
            Token::EOF,
        ]
    );
    assert_eq!(reporter.errors, vec![TokenizerError::InvalidCharacter('#', 1, 10)]);
}

#[test]
fn single_line_comment_runs_to_newline() {
    let mut reporter = ErrorReporter::new();
    let tokens = tokenize("a // rest is ignored ~~~\nb", &mut reporter);
    assert_eq!(
        tokens,
        vec![Token::Identifier("a"), Token::EOL, Token::Identifier("b"), Token::EOF]
    );
    assert!(!reporter.has_errors());
}

#[test]
fn punctuation_and_positions() {
    let mut reporter = ErrorReporter::new();
    let tokens = tokenize("x = 1;\ny += 2", &mut reporter);
    assert_eq!(
        tokens,
        vec![
            Token::Identifier("x"),
            Token::Equal,
            Token::Number(1),
            Token::Semicolon,
            Token::EOL,
            Token::Identifier("y"),
            Token::PlusEqual,
            Token::Number(2),
            Token::EOF,
        ]
    );
    assert!(!reporter.has_errors());

    // An invalid character on the second line carries its line and column.
    let mut reporter2 = ErrorReporter::new();
    tokenize("ab\ncd #", &mut reporter2);
    assert_eq!(reporter2.errors, vec![TokenizerError::InvalidCharacter('#', 2, 4)]);
}

#[test]
fn grouping_and_remaining_operators() {
    let mut reporter = ErrorReporter::new();
    let tokens = tokenize("( ) { } [ ] . , : ? @ ! & | ^ % < > << >> * / + -", &mut reporter);
    assert_eq!(
        tokens,
        vec![
            Token::LParen,
            Token::RParen,
            Token::LBrace,
            Token::RBrace,
            Token::LBracket,
            Token::RBracket,
            Token::Dot,
            Token::Comma,
            Token::Colon,
            Token::Question,
            Token::At,
            Token::Not,
            Token::And,
            Token::Or,
            Token::Caret,
            Token::Percent,
            Token::Less,
            Token::Greater,
            Token::LeftShift,
            Token::RightShift,
            Token::Star,
            Token::Slash,
            Token::Plus,
            Token::Minus,
            Token::EOF,
        ]
    );
    assert!(!reporter.has_errors());
}

#[test]
fn strings_may_span_lines() {
    let mut reporter = ErrorReporter::new();
    let tokens = tokenize("\"one\ntwo\" x", &mut reporter);
    assert_eq!(tokens, vec![Token::String("one\ntwo".to_string()), Token::Identifier("x"), Token::EOF]);
    assert!(!reporter.has_errors());

    // Positions after the string continue on the new line.
    let mut reporter2 = ErrorReporter::new();
    tokenize("\"one\ntwo\" #", &mut reporter2);
    assert_eq!(reporter2.errors, vec![TokenizerError::InvalidCharacter('#', 2, 6)]);
}

#[test]
fn tilde_is_not_part_of_the_language() {
    // The token alphabet lists a tilde, but the scan loop never recognises
    // one: it is reported as an invalid character.
    let mut reporter = ErrorReporter::new();
    let tokens = tokenize("a ~ b", &mut reporter);
    assert_eq!(tokens, vec![Token::Identifier("a"), Token::Identifier("b"), Token::EOF]);
    assert_eq!(reporter.errors, vec![TokenizerError::InvalidCharacter('~', 1, 3)]);
}

#[test]
fn unicode_letters_continue_identifiers() {
    // Identifier continuation goes by the Unicode letter and number
    // categories; a non-ASCII letter keeps the run alive.
    let mut reporter = ErrorReporter::new();
    let tokens = tokenize("h\u{e9}llo x", &mut reporter);
    assert_eq!(
        tokens,
        vec![Token::Identifier("h\u{e9}llo"), Token::Identifier("x"), Token::EOF]
    );
    assert!(!reporter.has_errors());
}

#[test]
fn every_character_is_consumed_once() {
    // Each invalid character is reported at its own column: the positions
    // account for every character of the source exactly once.
    let mut reporter = ErrorReporter::new();
    let tokens = tokenize("####", &mut reporter);
    assert_eq!(tokens, vec![Token::EOF]);
    assert_eq!(
        reporter.errors,
        vec![
            TokenizerError::InvalidCharacter('#', 1, 1),
            TokenizerError::InvalidCharacter('#', 1, 2),
            TokenizerError::InvalidCharacter('#', 1, 3),
            TokenizerError::InvalidCharacter('#', 1, 4),
        ]
    );
}

#[test]
fn canonical_respelling_is_lex_equivalent() {
    // A source of whitespace, operators and identifiers re-emitted with
    // canonical spelling (single spaces between tokens) tokenizes to the
    // same stream.
    let mut r1 = ErrorReporter::new();
    let original = tokenize("a+=b   <<c\n_d", &mut r1);
    let mut r2 = ErrorReporter::new();
    let respelled = tokenize("a += b << c \n _d", &mut r2);
    assert_eq!(original, respelled);
    assert!(!r1.has_errors());
    assert!(!r2.has_errors());
}

#[test]
fn render_tokens_round_trips() {
    // Re-emitting a tokenized simple source with canonical spelling and
    // tokenizing again yields the same stream.
    let mut r1 = ErrorReporter::new();
    let mut tokens = tokenize("x+=y   <<z\n_q9", &mut r1);
    assert!(!r1.has_errors());
    // The end-of-file marker is not re-emitted.
    assert_eq!(tokens.pop(), Some(Token::EOF));
    let respelled = classlang::lexer::render_tokens(&tokens);
    assert_eq!(respelled, "x += y << z \n _q9");
    let mut r2 = ErrorReporter::new();
    let mut again = tokenize(&respelled, &mut r2);
    assert!(!r2.has_errors());
    assert_eq!(again.pop(), Some(Token::EOF));
    assert_eq!(again, tokens);
}

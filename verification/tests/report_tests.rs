use classlang::errors::TokenizerError;
use classlang::lexer::tokenize;
use classlang::report::ErrorReporter;

#[test]
fn empty_reporter_has_no_errors() {
    let reporter = ErrorReporter::new();
    assert!(!reporter.has_errors());
    assert_eq!(reporter.generate_report("anything"), String::new());
}

#[test]
fn add_error_keeps_order() {
    let mut reporter = ErrorReporter::new();
    reporter.add_error(TokenizerError::UnterminatedString(1, 2));
    reporter.add_error(TokenizerError::InvalidCharacter('#', 3, 4));
    assert!(reporter.has_errors());
    assert_eq!(
        reporter.errors,
        vec![
            TokenizerError::UnterminatedString(1, 2),
            TokenizerError::InvalidCharacter('#', 3, 4),
        ]
    );
}

#[test]
fn report_block_format_is_exact() {
    let source = "ab #";
    let mut reporter = ErrorReporter::new();
    tokenize(source, &mut reporter);
    let report = reporter.generate_report(source);
    assert_eq!(
        report,
        "\u{250c}[Invalid Character] Error at line 1, column 4\n\
         \u{251c} Encountered an invalid character: '#'\n\
         \u{251c} Code Piece ~ \"ab #\"\n\
         \u{2514}\u{2500}[***]\n"
    );
}

#[test]
fn report_quotes_the_offending_line() {
    let source = "ok line\nbad # here\nlast";
    let mut reporter = ErrorReporter::new();
    tokenize(source, &mut reporter);
    let report = reporter.generate_report(source);
    assert_eq!(
        report,
        "\u{250c}[Invalid Character] Error at line 2, column 5\n\
         \u{251c} Encountered an invalid character: '#'\n\
         \u{251c} Code Piece ~ \"bad # here\"\n\
         \u{2514}\u{2500}[***]\n"
    );
}

#[test]
fn report_out_of_range_line_uses_placeholder() {
    let mut reporter = ErrorReporter::new();
    reporter.add_error(TokenizerError::UnexpectedEOF("number".to_string(), 99, 1));
    reporter.add_error(TokenizerError::ExpectedToken(";".to_string(), 0, 0));
    let report = reporter.generate_report("only one line");
    assert_eq!(
        report,
        "\u{250c}[Unexpected EOF] Error at line 99, column 1\n\
         \u{251c} Unexpected end-of-file while processing 'number'\n\
         \u{251c} Code Piece ~ \"<line not found>\"\n\
         \u{2514}\u{2500}[***]\n\
         \u{250c}[Expected Token Missing] Error at line 0, column 0\n\
         \u{251c} Expected token ';' is missing\n\
         \u{251c} Code Piece ~ \"<line not found>\"\n\
         \u{2514}\u{2500}[***]\n"
    );
}

#[test]
fn report_strips_carriage_return_before_newline() {
    let mut reporter = ErrorReporter::new();
    reporter.add_error(TokenizerError::UnmatchedCommentClosure(1, 1));
    reporter.add_error(TokenizerError::InvalidNestedComment(2, 1));
    let report = reporter.generate_report("first\r\nsecond");
    assert_eq!(
        report,
        "\u{250c}[Unmatched Comment Closure] Error at line 1, column 1\n\
         \u{251c} Found a comment closure '*/' without a matching '/*'\n\
         \u{251c} Code Piece ~ \"first\"\n\
         \u{2514}\u{2500}[***]\n\
         \u{250c}[Invalid Nested Comment] Error at line 2, column 1\n\
         \u{251c} Improperly nested or unclosed comment\n\
         \u{251c} Code Piece ~ \"second\"\n\
         \u{2514}\u{2500}[***]\n"
    );
}

//! Scripts that are refused, and what they are refused with.

use koto_parser::error::{ErrorType, InternalError, ParserError, SyntaxError};
use koto_parser::parser::{Options, Parser};
use koto_parser::token::{Lexeme, Position, Span, Token};

fn read_number(literal: &str) -> Option<u64> {
    match literal.parse::<f64>() {
        Ok(number) => Some(number.to_bits()),
        Err(_) => None,
    }
}

fn parse_error(source: &str) -> ParserError {
    match Parser::parse(source, Options::default(), read_number) {
        Ok((ast, _)) => panic!("{:?} was read as {:?}", source, ast.nodes()),
        Err(error) => error,
    }
}

fn check_syntax_error(source: &str, expected: SyntaxError) {
    assert_eq!(parse_error(source).error, ErrorType::SyntaxError(expected), "{:?}", source);
}

fn check_internal_error(source: &str, expected: InternalError) {
    assert_eq!(parse_error(source).error, ErrorType::InternalError(expected), "{:?}", source);
}

fn span(start: (u32, u32), end: (u32, u32)) -> Span {
    Span {
        start: Position { line: start.0, column: start.1 },
        end: Position { line: end.0, column: end.1 },
    }
}

#[test]
fn errors_in_arguments() {
    check_syntax_error("f(1", SyntaxError::ExpectedArgsEnd);
    check_syntax_error("f(1 2 }", SyntaxError::ExpectedArgsEnd);
}

#[test]
fn errors_in_assignments() {
    check_syntax_error("1 = 2", SyntaxError::ExpectedAssignmentTarget);
    check_syntax_error("a, 1 = 2", SyntaxError::ExpectedAssignmentTarget);
    check_syntax_error("a =", SyntaxError::ExpectedRhsExpression);
    check_syntax_error("a +=", SyntaxError::ExpectedRhsExpression);
    check_syntax_error("a =\nb", SyntaxError::ExpectedRhsExpression);
}

#[test]
fn errors_in_operations() {
    check_syntax_error("1 + ", SyntaxError::ExpectedRhsExpression);
    check_syntax_error("1 + )", SyntaxError::ExpectedRhsExpression);
    check_syntax_error("-\"a\"", SyntaxError::ExpectedNegatableExpression);
}

#[test]
fn errors_in_parentheses() {
    check_syntax_error("(1", SyntaxError::ExpectedCloseParen);
    check_syntax_error("(1]", SyntaxError::ExpectedCloseParen);
}

#[test]
fn errors_in_if_expressions() {
    check_syntax_error("if", SyntaxError::ExpectedIfCondition);
    check_syntax_error("if a", SyntaxError::ExpectedThenKeywordOrBlock);
    check_syntax_error("if a\nb", SyntaxError::ExpectedThenKeywordOrBlock);
    check_syntax_error("if a then", SyntaxError::ExpectedThenExpression);
    check_syntax_error("if a then b else", SyntaxError::ExpectedElseExpression);
    check_syntax_error("if a\n  b\nelse if\n", SyntaxError::ExpectedElseIfCondition);
    check_syntax_error("if a\n  b\nelse if c\nd", SyntaxError::ExpectedElseIfBlock);
    check_syntax_error("if a\n  b\nelse\nc", SyntaxError::ExpectedElseBlock);
}

#[test]
fn errors_in_for_loops() {
    check_syntax_error("for in x", SyntaxError::ExpectedForArgs);
    check_syntax_error("for x 1", SyntaxError::ExpectedForInKeyword);
    check_syntax_error("for x in", SyntaxError::ExpectedForRanges);
    check_syntax_error("for x in y if", SyntaxError::ExpectedForCondition);
    check_syntax_error("for x in y", SyntaxError::ExpectedForBody);
}

#[test]
fn errors_in_while_and_until_loops() {
    check_syntax_error("while", SyntaxError::ExpectedWhileCondition);
    check_syntax_error("while a", SyntaxError::ExpectedWhileBody);
    check_syntax_error("until", SyntaxError::ExpectedUntilCondition);
    check_syntax_error("until a", SyntaxError::ExpectedUntilBody);
}

#[test]
fn errors_in_imports_and_exports() {
    check_syntax_error("import", SyntaxError::ExpectedImportModuleId);
    check_syntax_error("import a.", SyntaxError::ExpectedImportModuleId);
    check_syntax_error("import []", SyntaxError::ExpectedIdInImportItemList);
    check_syntax_error("import [a 1] from b", SyntaxError::ExpectedIdInImportItemList);
    check_syntax_error("import [a] b", SyntaxError::ExpectedFromAfterImportItemList);
    check_syntax_error("export 1", SyntaxError::ExpectedExportExpression);
    check_syntax_error("export a b", SyntaxError::UnexpectedTokenAfterExportId);
    check_syntax_error("export a", SyntaxError::UnexpectedTokenAfterExportId);
    check_syntax_error("export a =", SyntaxError::ExpectedRhsExpression);
}

#[test]
fn errors_in_functions() {
    check_syntax_error("|a", SyntaxError::ExpectedFunctionArgsEnd);
    check_syntax_error("|a 1| a", SyntaxError::ExpectedFunctionArgsEnd);
    check_syntax_error("|a|", SyntaxError::ExpectedFunctionBody);
    check_internal_error("||\n  # no body\na", InternalError::FunctionParseFailure);
}

#[test]
fn errors_in_lookups() {
    check_syntax_error("a[1", SyntaxError::ExpectedIndexEnd);
    check_syntax_error("a[1..2", SyntaxError::ExpectedIndexEnd);
    check_syntax_error("a[]", SyntaxError::ExpectedIndexExpression);
    check_syntax_error("a.", SyntaxError::ExpectedMapKey);
}

#[test]
fn errors_in_lists_and_maps() {
    check_syntax_error("[1", SyntaxError::ExpectedListEnd);
    check_syntax_error("[1)", SyntaxError::ExpectedListEnd);
    check_syntax_error("{a: 1", SyntaxError::ExpectedMapEnd);
    check_syntax_error("{a 1}", SyntaxError::ExpectedMapSeparator);
    check_syntax_error("{a: }", SyntaxError::ExpectedMapValue);
    check_syntax_error("x =\n  a: 1\n  b 2\n", SyntaxError::ExpectedMapSeparator);
    check_syntax_error("x =\n  a:\n  )\n", SyntaxError::ExpectedMapValue);
    check_syntax_error("x =\n  a: 1\n    b: 2\n", SyntaxError::UnexpectedIndentation);
}

#[test]
fn errors_in_nums() {
    check_syntax_error("num2", SyntaxError::ExpectedExpression);
    check_syntax_error("num4()", SyntaxError::ExpectedExpression);
    check_syntax_error("num2 1 2 3", SyntaxError::TooManyNum2Terms);
    check_syntax_error("num2(1 2 3)", SyntaxError::TooManyNum2Terms);
    check_syntax_error("num4 1 2 3 4 5", SyntaxError::TooManyNum4Terms);
}

#[test]
fn errors_behind_keywords() {
    check_syntax_error("copy", SyntaxError::ExpectedExpression);
    check_syntax_error("not", SyntaxError::ExpectedExpression);
    check_syntax_error("debug", SyntaxError::ExpectedExpression);
}

#[test]
fn errors_in_blocks() {
    check_syntax_error("for x in y\n  a\n    b\n", SyntaxError::UnexpectedIndentation);
    check_syntax_error(")", SyntaxError::ExpectedExpressionInMainBlock);
    check_syntax_error("a\n)", SyntaxError::ExpectedExpressionInMainBlock);
}

#[test]
fn errors_of_the_lexer() {
    check_syntax_error("$", SyntaxError::UnexpectedToken);
    check_syntax_error("1 + $", SyntaxError::LexerError);
    check_syntax_error("\"no end", SyntaxError::UnexpectedToken);
    check_syntax_error("x = #- no end", SyntaxError::LexerError);
}

#[test]
fn numbers_without_a_value() {
    check_internal_error("1e", InternalError::NumberParseFailure);
    check_internal_error("x = 1 + 2e+", InternalError::NumberParseFailure);
}

#[test]
fn a_line_in_an_index_ends_the_expression_around_it() {
    check_internal_error("x, y[(if a\n  b\n)], x = 1", InternalError::UnexpectedIdInExpression);
}

#[test]
fn spans_of_errors() {
    // The last token before the fault
    assert_eq!(parse_error("(1").span, span((1, 2), (1, 3)));
    assert_eq!(parse_error("a\nb = 1 + )").span, span((2, 8), (2, 9)));
    assert_eq!(parse_error("a = 1 + \\\n )").span, span((2, 1), (2, 2)));
    assert_eq!(parse_error("for x 1").span, span((1, 7), (1, 8)));
    assert_eq!(parse_error("\n\n  )").span, span((2, 1), (3, 3)));
}

#[test]
fn faults_in_tokens_that_no_source_has() {
    let lexemes = vec![
        Lexeme {
            token: Token::Id,
            text: "a".to_string(),
            span: span((1, 1), (1, 2)),
            indent: 0,
            number: None,
        },
        Lexeme {
            token: Token::Error,
            text: String::new(),
            span: span((1, 2), (1, 2)),
            indent: 0,
            number: None,
        },
    ];
    let options = Options::default();
    match Parser::parse_tokens(&lexemes, options) {
        Ok(_) => panic!("an error was read"),
        Err(error) => {
            assert_eq!(error.error, ErrorType::SyntaxError(SyntaxError::UnexpectedToken));
            assert_eq!(error.span, span((1, 1), (1, 2)));
        }
    }
}

//! Sources, and the tokens that they are cut into.

use koto_parser::lexer::lex;
use koto_parser::token::{Lexeme, Position, Span, Token};

fn read_number(literal: &str) -> Option<u64> {
    match literal.parse::<f64>() {
        Ok(number) => Some(number.to_bits()),
        Err(_) => None,
    }
}

fn lexeme(token: Token, text: &str, line: u32, start: u32, end: u32, indent: usize) -> Lexeme {
    Lexeme {
        token,
        text: text.to_string(),
        span: Span {
            start: Position { line, column: start },
            end: Position { line, column: end },
        },
        indent,
        number: None,
    }
}

fn kinds(source: &str) -> Vec<Token> {
    lex(source, read_number).iter().map(|lexeme| lexeme.token).collect()
}

#[test]
fn tokens_of_a_line() {
    let mut number = lexeme(Token::Number, "-1.5", 1, 5, 9, 0);
    number.number = Some((-1.5f64).to_bits());
    assert_eq!(
        lex("a = -1.5", read_number),
        vec![
            lexeme(Token::Id, "a", 1, 1, 2, 0),
            lexeme(Token::Whitespace, " ", 1, 2, 3, 0),
            lexeme(Token::Assign, "=", 1, 3, 4, 0),
            lexeme(Token::Whitespace, " ", 1, 4, 5, 0),
            number,
        ]
    );
}

#[test]
fn tokens_of_indented_lines() {
    let lexemes = lex("a\n  \"ü\"\nb", read_number);
    assert_eq!(lexemes.len(), 5);
    assert_eq!(lexemes[0], lexeme(Token::Id, "a", 1, 1, 2, 0));
    assert_eq!(lexemes[1].token, Token::NewLineIndented);
    assert_eq!(lexemes[1].text, "\n  ");
    assert_eq!(lexemes[1].span.start, Position { line: 1, column: 2 });
    assert_eq!(lexemes[1].span.end, Position { line: 2, column: 3 });
    assert_eq!(lexemes[1].indent, 2);
    assert_eq!(lexemes[2], lexeme(Token::Str, "\"ü\"", 2, 3, 6, 2));
    assert_eq!(lexemes[3].token, Token::NewLine);
    assert_eq!(lexemes[3].indent, 0);
    assert_eq!(lexemes[4], lexeme(Token::Id, "b", 3, 1, 2, 0));
}

#[test]
fn tokens_cover_the_source() {
    let source = "f = |x _|\n  # comment\n  x[0..=3], {a: \"ü\"} #- more\n-#\n\nf 1 2e3";
    let text: String = lex(source, read_number).iter().map(|lexeme| lexeme.text.clone()).collect();
    assert_eq!(text, source);
}

#[test]
fn tokens_of_lines_that_go_on() {
    let lexemes = lex("\n  a \\\n  \"ü\"\nb\\\nc", read_number);
    assert_eq!(lexemes.len(), 10);
    assert_eq!(lexemes[1], lexeme(Token::Id, "a", 2, 3, 4, 2));
    assert_eq!(lexemes[2], lexeme(Token::Whitespace, " ", 2, 4, 5, 2));
    assert_eq!(lexemes[3].token, Token::NewLineSkipped);
    assert_eq!(lexemes[3].text, "\\\n");
    assert_eq!(lexemes[3].span.start, Position { line: 2, column: 5 });
    assert_eq!(lexemes[3].span.end, Position { line: 3, column: 1 });
    assert_eq!(lexemes[3].indent, 2);
    assert_eq!(lexemes[4], lexeme(Token::Whitespace, "  ", 3, 1, 3, 2));
    assert_eq!(lexemes[5], lexeme(Token::Str, "\"ü\"", 3, 3, 6, 2));
    assert_eq!(lexemes[6].token, Token::NewLine);
    assert_eq!(lexemes[6].indent, 0);
    assert_eq!(lexemes[7], lexeme(Token::Id, "b", 4, 1, 2, 0));
    assert_eq!(lexemes[8].token, Token::NewLineSkipped);
    assert_eq!(lexemes[9], lexeme(Token::Id, "c", 5, 1, 2, 0));
    let text: String = lexemes.iter().map(|lexeme| lexeme.text.clone()).collect();
    assert_eq!(text, "\n  a \\\n  \"ü\"\nb\\\nc");
    // A backslash anywhere else is an error
    assert_eq!(kinds("a \\ b"), vec![Token::Id, Token::Whitespace, Token::Error]);
    assert_eq!(kinds("a\\"), vec![Token::Id, Token::Error]);
    assert_eq!(kinds("\\\n"), vec![Token::NewLineSkipped]);
}

#[test]
fn sources_are_cut_in_one_way() {
    let source = "f = |x|\n  x + \\\n  1.5\n";
    assert_eq!(lex(source, read_number), lex(source, read_number));
}

#[test]
fn tokens_end_at_an_error() {
    let lexemes = lex("a $ b $", read_number);
    assert_eq!(lexemes.len(), 3);
    assert_eq!(lexemes[2].token, Token::Error);
    assert_eq!(lexemes[2].text, "");
    assert_eq!(lexemes[2].span, lexemes[1].span);
}

#[test]
fn numbers_that_stand_for_nothing() {
    let lexemes = lex("1e", read_number);
    assert_eq!(lexemes.len(), 1);
    assert_eq!(lexemes[0].token, Token::Number);
    assert_eq!(lexemes[0].number, None);
}

#[test]
fn no_tokens() {
    assert_eq!(lex("", read_number), vec![]);
}

#[test]
fn keywords_and_symbols() {
    let words = "and break catch continue copy debug else export false finally for from if import \
                 in loop match not num2 num4 or return then true try until while yield";
    let keywords: Vec<Token> =
        kinds(words).into_iter().filter(|token| *token != Token::Whitespace).collect();
    assert_eq!(
        keywords,
        vec![
            Token::And,
            Token::Break,
            Token::Catch,
            Token::Continue,
            Token::Copy,
            Token::Debug,
            Token::Else,
            Token::Export,
            Token::False,
            Token::Finally,
            Token::For,
            Token::From,
            Token::If,
            Token::Import,
            Token::In,
            Token::Loop,
            Token::Match,
            Token::Not,
            Token::Num2,
            Token::Num4,
            Token::Or,
            Token::Return,
            Token::Then,
            Token::True,
            Token::Try,
            Token::Until,
            Token::While,
            Token::Yield,
        ]
    );
    assert_eq!(kinds("else if"), vec![Token::ElseIf]);
    assert_eq!(
        kinds(":,.()|[]{}_"),
        vec![
            Token::Colon,
            Token::Separator,
            Token::Dot,
            Token::ParenOpen,
            Token::ParenClose,
            Token::Function,
            Token::ListStart,
            Token::ListEnd,
            Token::MapStart,
            Token::MapEnd,
            Token::Placeholder,
        ]
    );
    assert_eq!(kinds("....."), vec![Token::Ellipsis, Token::Range]);
    assert_eq!(kinds("..="), vec![Token::RangeInclusive]);
    assert_eq!(
        kinds("+*/%- +=*=/=%=-==="),
        vec![
            Token::Add,
            Token::Multiply,
            Token::Divide,
            Token::Modulo,
            Token::Subtract,
            Token::Whitespace,
            Token::AssignAdd,
            Token::AssignMultiply,
            Token::AssignDivide,
            Token::AssignModulo,
            Token::AssignSubtract,
            Token::Equal,
        ]
    );
    assert_eq!(
        kinds("!=>=<=><="),
        vec![
            Token::NotEqual,
            Token::GreaterOrEqual,
            Token::LessOrEqual,
            Token::Greater,
            Token::LessOrEqual,
        ]
    );
    assert_eq!(kinds("<="), vec![Token::LessOrEqual]);
    assert_eq!(kinds("< ="), vec![Token::Less, Token::Whitespace, Token::Assign]);
    assert_eq!(kinds("# a\n#- b -#"), vec![
        Token::CommentSingle,
        Token::NewLine,
        Token::CommentMulti
    ]);
}

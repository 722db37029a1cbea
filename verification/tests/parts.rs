//! The parts that a tree is made with.

use koto_parser::ast::Ast;
use koto_parser::constant_pool::{Constant, ConstantPool};
use koto_parser::koto::{call, make_module, KotoFunction, UnexpectedArguments, Value};
use koto_parser::node::{AstOp, Node};
use koto_parser::number::{number_is_one, number_is_zero};
use koto_parser::operators::{operator_precedence, token_is_whitespace};
use koto_parser::parser::{Options, Parser};
use koto_parser::text::{trim_str, unquote};
use koto_parser::token::{Position, Span, Token};

fn read_number(literal: &str) -> Option<u64> {
    match literal.parse::<f64>() {
        Ok(number) => Some(number.to_bits()),
        Err(_) => None,
    }
}

fn parse(source: &str) -> (Ast, ConstantPool) {
    match Parser::parse(source, Options::default(), read_number) {
        Ok(result) => result,
        Err(error) => panic!("{:?}", error),
    }
}

#[test]
fn trimmed_text() {
    assert_eq!(trim_str("\"hello\"", 1, 1), "hello");
    assert_eq!(trim_str("hello", 0, 0), "hello");
    assert_eq!(trim_str("hello", 2, 3), "");
    assert_eq!(trim_str("üaü", 2, 2), "a");
    assert_eq!(unquote("\"\""), "");
    assert_eq!(unquote("\"ü\\\"ü\""), "ü\\\"ü");
}

#[test]
fn constants_are_held_once() {
    let mut pool = ConstantPool::new();
    assert_eq!(pool.len(), 0);
    assert_eq!(pool.add_string("a"), 0);
    assert_eq!(pool.add_number(7), 1);
    assert_eq!(pool.add_string("b"), 2);
    assert_eq!(pool.add_string("a"), 0);
    assert_eq!(pool.add_number(7), 1);
    assert_eq!(pool.len(), 3);
    assert_eq!(
        *pool.constants(),
        vec![
            Constant::Str("a".to_string()),
            Constant::Number(7),
            Constant::Str("b".to_string()),
        ]
    );
    assert!(pool.is_string(2, "b"));
    assert!(!pool.is_string(2, "a"));
    assert!(!pool.is_string(1, "a"));
}

#[test]
fn nodes_in_order() {
    let mut ast = Ast::with_capacity(2);
    let start = Position { line: 1, column: 2 };
    let span = Span { start, end: Position { line: 1, column: 5 } };
    assert_eq!(ast.push(Node::BoolTrue, span), Ok(0));
    assert_eq!(ast.push(Node::Negate(0), Span::default()), Ok(1));
    assert_eq!(ast.nodes().len(), 2);
    assert_eq!(ast.node(0).node, Node::BoolTrue);
    assert_eq!(ast.node(0).span, span);
    assert_eq!(ast.node(1).span.start, Position { line: 1, column: 1 });
    assert_eq!(ast.entry_point(), 0);
    ast.set_entry_point(1);
    assert_eq!(ast.entry_point(), 1);
}

#[test]
fn numbers_near_zero_and_one() {
    let epsilon = std::f64::EPSILON;
    let values = [
        0.0,
        -0.0,
        epsilon,
        -epsilon,
        epsilon / 2.0,
        -epsilon / 2.0,
        1e-300,
        1.0,
        -1.0,
        1.0 + epsilon,
        1.0 - epsilon,
        1.0 - epsilon / 2.0,
        2.0,
        0.5,
        1e300,
        std::f64::INFINITY,
        std::f64::NAN,
    ];
    for value in values {
        let bits = value.to_bits();
        assert_eq!(number_is_zero(bits), (value - 0.0).abs() < epsilon, "{}", value);
        assert_eq!(number_is_one(bits), (value - 1.0).abs() < epsilon, "{}", value);
    }
}

#[test]
fn numbers_as_constants() {
    let (ast, constants) = parse("0\n0.0\n1\n1.0\n-0\n2\n2.0\n-2");
    let nodes: Vec<Node> = ast.nodes().iter().map(|node| node.node.clone()).collect();
    assert_eq!(
        nodes[..8],
        [
            Node::Number0,
            Node::Number0,
            Node::Number1,
            Node::Number1,
            Node::Number0,
            Node::Number(0),
            Node::Number(0),
            Node::Number(1),
        ]
    );
    assert_eq!(
        *constants.constants(),
        vec![Constant::Number((2.0f64).to_bits()), Constant::Number((-2.0f64).to_bits())]
    );
}

/// A chain of operands and operators, with parentheses around every operation.
fn grouped(ast: &Ast, index: u32) -> String {
    match &ast.node(index).node {
        Node::BoolTrue => "true".to_string(),
        Node::Number1 => "1".to_string(),
        Node::BinaryOp { op, lhs, rhs } => {
            let op = match op {
                AstOp::Add => "+",
                AstOp::Subtract => "-",
                AstOp::Multiply => "*",
                AstOp::Divide => "/",
                AstOp::Modulo => "%",
                AstOp::Equal => "==",
                AstOp::NotEqual => "!=",
                AstOp::Less => "<",
                AstOp::LessOrEqual => "<=",
                AstOp::Greater => ">",
                AstOp::GreaterOrEqual => ">=",
                AstOp::And => "and",
                AstOp::Or => "or",
            };
            format!("({} {} {})", grouped(ast, *lhs), op, grouped(ast, *rhs))
        }
        node => panic!("{:?}", node),
    }
}

fn check_groups(source: &str, expected: &str) {
    let (ast, _) = parse(source);
    match &ast.node(ast.entry_point()).node {
        Node::MainBlock { body, .. } => assert_eq!(grouped(&ast, body[0]), expected),
        node => panic!("{:?}", node),
    }
}

#[test]
fn powers_of_operators() {
    assert_eq!(operator_precedence(Token::Or), Some((1, 2)));
    assert_eq!(operator_precedence(Token::And), Some((3, 4)));
    for op in [Token::Equal, Token::NotEqual] {
        assert_eq!(operator_precedence(op), Some((6, 5)));
    }
    for op in [Token::Greater, Token::GreaterOrEqual, Token::Less, Token::LessOrEqual] {
        assert_eq!(operator_precedence(op), Some((8, 7)));
    }
    for op in [Token::Add, Token::Subtract] {
        assert_eq!(operator_precedence(op), Some((9, 10)));
    }
    for op in [Token::Multiply, Token::Divide, Token::Modulo] {
        assert_eq!(operator_precedence(op), Some((11, 12)));
    }
    for token in [Token::Not, Token::Assign, Token::Range, Token::Whitespace] {
        assert_eq!(operator_precedence(token), None);
    }
    assert!(token_is_whitespace(Token::Whitespace));
    assert!(token_is_whitespace(Token::NewLine));
    assert!(token_is_whitespace(Token::NewLineIndented));
    assert!(!token_is_whitespace(Token::NewLineSkipped));
    assert!(!token_is_whitespace(Token::CommentSingle));
}

#[test]
fn groups_of_operators() {
    check_groups("1 + 1 * 1", "(1 + (1 * 1))");
    check_groups("1 * 1 + 1", "((1 * 1) + 1)");
    check_groups("1 - 1 - 1", "((1 - 1) - 1)");
    check_groups("1 / 1 % 1 * 1", "(((1 / 1) % 1) * 1)");
    check_groups("1 < 1 < 1", "(1 < (1 < 1))");
    check_groups("1 == 1 != 1", "(1 == (1 != 1))");
    check_groups("1 < 1 == 1 > 1", "((1 < 1) == (1 > 1))");
    check_groups("1 + 1 >= 1 - 1", "((1 + 1) >= (1 - 1))");
    check_groups("true or true and true", "(true or (true and true))");
    check_groups("true and true or true", "((true and true) or true)");
    check_groups("1 <= 1 and 1 == 1", "((1 <= 1) and (1 == 1))");
    check_groups("1\n  + 1\n  * 1", "(1 + (1 * 1))");
    check_groups("1 + 1 * 1 - 1", "((1 + (1 * 1)) - 1)");
    check_groups("1  +   1 * \\\n  1\n  -  1", "((1 + (1 * 1)) - 1)");
    check_groups("(1 + 1) * (1 - 1) - 1", "(((1 + 1) * (1 - 1)) - 1)");
    check_groups("1 * 1 < 1 + 1 and 1 == 1 or 1", "((((1 * 1) < (1 + 1)) and (1 == 1)) or 1)");
    check_groups("1 < 1 + 1 < 1 * 1 < 1", "(1 < ((1 + 1) < ((1 * 1) < 1)))");
    check_groups("true or 1 and 1 - 1 / 1 - 1", "(true or (1 and ((1 - (1 / 1)) - 1)))");
}

#[test]
fn debug_expressions_keep_their_source() {
    let (ast, constants) = parse("x = 1\ndebug  x + [1  2] # note\n");
    let debug = ast
        .nodes()
        .iter()
        .find_map(|node| match node.node {
            Node::Debug { expression_string, .. } => Some((expression_string, node.span)),
            _ => None,
        })
        .unwrap();
    assert_eq!(
        constants.constants()[debug.0 as usize],
        Constant::Str("x + [1  2] ".to_string())
    );
    assert_eq!(debug.1.start, Position { line: 2, column: 1 });
}

#[test]
fn sources_are_read_in_one_way() {
    let source = "f = |x| x + y\na = [1 2 f 3]\n";
    let (first, first_constants) = parse(source);
    let (second, second_constants) = parse(source);
    assert_eq!(first.nodes().len(), second.nodes().len());
    for (a, b) in first.nodes().iter().zip(second.nodes().iter()) {
        assert_eq!(a.node, b.node);
        assert_eq!(a.span, b.span);
    }
    assert_eq!(first.entry_point(), second.entry_point());
    assert_eq!(first_constants.constants(), second_constants.constants());
}

#[test]
fn an_empty_script() {
    for source in ["", "\n\n", "# nothing\n", "  "] {
        let (ast, constants) = parse(source);
        assert_eq!(ast.nodes().len(), 1);
        assert_eq!(ast.node(0).node, Node::MainBlock { body: vec![], local_count: 0 });
        assert_eq!(constants.len(), 0);
    }
}

#[test]
fn values_of_the_koto_module() {
    let module = make_module();
    assert_eq!(module.len(), 5);
    assert_eq!(module.get("args"), Some(&Value::Tuple(vec![])));
    assert_eq!(module.get("exports"), Some(&Value::Function(KotoFunction::Exports)));
    assert_eq!(module.get("script_dir"), Some(&Value::Empty));
    assert_eq!(module.get("script_path"), Some(&Value::Empty));
    assert_eq!(module.get("type"), Some(&Value::Function(KotoFunction::Type)));
    assert_eq!(module.get("typ"), None);
}

#[test]
fn functions_of_the_koto_module() {
    let number = "Number".to_string();
    let string = "String".to_string();
    assert_eq!(call(KotoFunction::Exports, 42, &vec![]), Ok(Value::SharedMap(42)));
    assert_eq!(call(KotoFunction::Exports, 42, &vec![number.clone()]), Ok(Value::SharedMap(42)));
    assert_eq!(
        call(KotoFunction::Type, 42, &vec![number.clone()]),
        Ok(Value::Str("Number".to_string()))
    );
    for unexpected in [vec![], vec![number, string]] {
        assert_eq!(
            call(KotoFunction::Type, 42, &unexpected),
            Err(UnexpectedArguments {
                function: "koto.type".to_string(),
                expected: "a single argument".to_string(),
                unexpected: unexpected.clone(),
            })
        );
    }
}

//! Scripts, and the trees and constants that they are read as.

use koto_parser::constant_pool::Constant;
use koto_parser::node::Node::{
    Assign, BinaryOp, Block, BoolFalse, BoolTrue, Break, Call, Continue, CopyExpression,
    Empty, Expressions, For, Id, If, Import, List, Lookup, MainBlock, MapLiteral, MultiAssign,
    Negate, Num2, Num4, Number, Number0, Number1, Range, RangeFrom, RangeFull, RangeTo, Return,
    ReturnExpression, Str, Until, While,
};
use koto_parser::node::{
    AssignOp, AssignTarget, AstFor, AstIf, AstOp, Function, LookupNode, Node, Scope,
};
use koto_parser::parser::{Options, Parser};

fn read_number(literal: &str) -> Option<u64> {
    match literal.parse::<f64>() {
        Ok(number) => Some(number.to_bits()),
        Err(_) => None,
    }
}

fn string(text: &str) -> Constant {
    Constant::Str(text.to_string())
}

fn number(value: f64) -> Constant {
    Constant::Number(value.to_bits())
}

fn check_ast(source: &str, expected_ast: &[Node], expected_constants: Option<&[Constant]>) {
    let options = Options::default();
    check_ast_with_options(source, expected_ast, expected_constants, options);
}

fn check_ast_with_options(
    source: &str,
    expected_ast: &[Node],
    expected_constants: Option<&[Constant]>,
    options: Options,
) {
    println!("{}", source);

    match Parser::parse(source, options, read_number) {
        Ok((ast, constants)) => {
            for (i, (ast_node, expected_node)) in
                ast.nodes().iter().zip(expected_ast.iter()).enumerate()
            {
                assert_eq!(ast_node.node, *expected_node, "Mismatch at position {}", i);
            }
            assert_eq!(ast.nodes().len(), expected_ast.len(), "Node list length mismatch");
            assert_eq!(ast.entry_point() as usize, expected_ast.len() - 1);
            if let Some(expected_constants) = expected_constants {
                assert_eq!(constants.constants().as_slice(), expected_constants);
            }
        }
        Err(error) => panic!("{:?}", error),
    }
}

#[test]
fn literals() {
    let source = "
true
false
1
1.5
\"hello\"
a
()";
    check_ast(
        source,
        &[
            BoolTrue,
            BoolFalse,
            Number1,
            Number(0),
            Str(1),
            Id(2),
            Empty,
            MainBlock {
                body: vec![0, 1, 2, 3, 4, 5, 6],
                local_count: 0,
            },
        ],
        Some(&[
            number(1.5),
            string("hello"),
            string("a"),
        ]),
    )
}

#[test]
fn negatives() {
    let source = "\
-12.0
-a
-x[0]
-(1 + 1)";
    check_ast(
        source,
        &[
            Number(0),
            Id(1),
            Negate(1),
            Number0,
            Lookup(vec![LookupNode::Id(2), LookupNode::Index(3)]),
            Negate(4), // 5
            Number1,
            Number1,
            BinaryOp {
                op: AstOp::Add,
                lhs: 6,
                rhs: 7,
            },
            Negate(8),
            MainBlock {
                body: vec![0, 2, 5, 9],
                local_count: 0,
            },
        ],
        Some(&[
            number(-12.0),
            string("a"),
            string("x"),
        ]),
    )
}

#[test]
fn list() {
    let source = "[0 n \"test\" n -1]";
    check_ast(
        source,
        &[
            Number0,
            Id(0),
            Str(1),
            Id(0),
            Number(2),
            List(vec![0, 1, 2, 3, 4]),
            MainBlock {
                body: vec![5],
                local_count: 0,
            },
        ],
        Some(&[
            string("n"),
            string("test"),
            number(-1.0),
        ]),
    )
}

#[test]
fn list_with_line_breaks() {
    let source = "\
x = [
  0
  1 0 1
  0
]";
    check_ast(
        source,
        &[
            Id(0),
            Number0,
            Number1,
            Number0,
            Number1,
            Number0, // 5
            List(vec![1, 2, 3, 4, 5]),
            Assign {
                target: AssignTarget {
                    target_index: 0,
                    scope: Scope::Local,
                },
                op: AssignOp::Equal,
                expression: 6,
            },
            MainBlock {
                body: vec![7],
                local_count: 1,
            },
        ],
        Some(&[string("x")]),
    )
}

#[test]
fn map_inline() {
    let source = "\
{}
{foo: 42, bar: \"hello\"}";
    check_ast(
        source,
        &[
            MapLiteral(vec![]),
            Number(1),
            Str(3),
            MapLiteral(vec![(0, 1), (2, 2)]), // map entries are constant/ast index pairs
            MainBlock {
                body: vec![0, 3],
                local_count: 0,
            },
        ],
        Some(&[
            string("foo"),
            number(42.0),
            string("bar"),
            string("hello"),
        ]),
    )
}

#[test]
fn map_block() {
    let source = "\
x =
  foo: 42
  bar: \"hello\"
  baz:
    foo: 0
x";
    check_ast(
        source,
        &[
            Id(0),     // x
            Number(2), // 42
            Str(4),    // "hello"
            Number0,
            MapLiteral(vec![(1, 3)]),                 // baz nested map
            MapLiteral(vec![(1, 1), (3, 2), (5, 4)]), // 5 - map entries are constant/ast pairs
            Assign {
                target: AssignTarget {
                    target_index: 0,
                    scope: Scope::Local,
                },
                op: AssignOp::Equal,
                expression: 5,
            },
            Id(0),
            MainBlock {
                body: vec![6, 7],
                local_count: 1,
            },
        ],
        Some(&[
            string("x"),
            string("foo"),
            number(42.0),
            string("bar"),
            string("hello"),
            string("baz"),
        ]),
    )
}

#[test]
fn ranges() {
    let source = "\
0..1
0..=1
(0 + 1)..(1 + 1)
foo.bar..foo.baz";
    check_ast(
        source,
        &[
            Number0,
            Number1,
            Range {
                start: 0,
                end: 1,
                inclusive: false,
            },
            Number0,
            Number1,
            Range {
                start: 3,
                end: 4,
                inclusive: true,
            }, // 5
            Number0,
            Number1,
            BinaryOp {
                op: AstOp::Add,
                lhs: 6,
                rhs: 7,
            },
            Number1,
            Number1, // 10
            BinaryOp {
                op: AstOp::Add,
                lhs: 9,
                rhs: 10,
            },
            Range {
                start: 8,
                end: 11,
                inclusive: false,
            },
            Lookup(vec![LookupNode::Id(0), LookupNode::Id(1)]),
            Lookup(vec![LookupNode::Id(0), LookupNode::Id(2)]),
            Range {
                start: 13,
                end: 14,
                inclusive: false,
            }, //15
            MainBlock {
                body: vec![2, 5, 12, 15],
                local_count: 0,
            },
        ],
        Some(&[
            string("foo"),
            string("bar"),
            string("baz"),
        ]),
    )
}

#[test]
fn lists_from_ranges() {
    let source = "\
[0..1]
[0..10 10..=0]";
    check_ast(
        source,
        &[
            Number0,
            Number1,
            Range {
                start: 0,
                end: 1,
                inclusive: false,
            },
            List(vec![2]),
            Number0,
            Number(0), // 5
            Range {
                start: 4,
                end: 5,
                inclusive: false,
            },
            Number(0),
            Number0,
            Range {
                start: 7,
                end: 8,
                inclusive: true,
            },
            List(vec![6, 9]),
            MainBlock {
                body: vec![3, 10],
                local_count: 0,
            },
        ],
        Some(&[number(10.0)]),
    )
}

#[test]
fn num2() {
    let source = "\
num2 0
num2 1 x";
    check_ast(
        source,
        &[
            Number0,
            Num2(vec![0]),
            Number1,
            Id(0),
            Num2(vec![2, 3]),
            MainBlock {
                body: vec![1, 4],
                local_count: 0,
            },
        ],
        Some(&[string("x")]),
    )
}

#[test]
fn num4() {
    let source = "\
num4 0
num4 1 x
num4 x 0 1 x";
    check_ast(
        source,
        &[
            Number0,
            Num4(vec![0]),
            Number1,
            Id(0),
            Num4(vec![2, 3]),
            Id(0), // 5
            Number0,
            Number1,
            Id(0),
            Num4(vec![5, 6, 7, 8]),
            MainBlock {
                body: vec![1, 4, 9],
                local_count: 0,
            },
        ],
        Some(&[string("x")]),
    )
}

#[test]
fn multiple_expressions() {
    let source = "0, 1, 0";
    check_ast(
        source,
        &[
            Number0,
            Number1,
            Number0,
            Expressions(vec![0, 1, 2]),
            MainBlock {
                body: vec![3],
                local_count: 0,
            },
        ],
        None,
    )
}

#[test]
fn single() {
    let source = "a = 1";
    check_ast(
        source,
        &[
            Id(0),
            Number1,
            Assign {
                target: AssignTarget {
                    target_index: 0,
                    scope: Scope::Local,
                },
                op: AssignOp::Equal,
                expression: 1,
            },
            MainBlock {
                body: vec![2],
                local_count: 1,
            },
        ],
        Some(&[string("a")]),
    )
}

#[test]
fn single_with_export_top_level_option() {
    let source = "a = 1";
    check_ast_with_options(
        source,
        &[
            Id(0),
            Number1,
            Assign {
                target: AssignTarget {
                    target_index: 0,
                    scope: Scope::Global,
                },
                op: AssignOp::Equal,
                expression: 1,
            },
            MainBlock {
                body: vec![2],
                local_count: 0,
            },
        ],
        Some(&[string("a")]),
        Options {
            export_all_top_level: true,
        },
    )
}

#[test]
fn single_export() {
    let source = "export a = 1 + 1";
    check_ast(
        source,
        &[
            Id(0),
            Number1,
            Number1,
            BinaryOp {
                op: AstOp::Add,
                lhs: 1,
                rhs: 2,
            },
            Assign {
                target: AssignTarget {
                    target_index: 0,
                    scope: Scope::Global,
                },
                op: AssignOp::Equal,
                expression: 3,
            },
            MainBlock {
                body: vec![4],
                local_count: 0,
            },
        ],
        Some(&[string("a")]),
    )
}

#[test]
fn multi_2_to_1() {
    let source = "x = 1, 0";
    check_ast(
        source,
        &[
            Id(0),
            Number1,
            Number0,
            Expressions(vec![1, 2]),
            Assign {
                target: AssignTarget {
                    target_index: 0,
                    scope: Scope::Local,
                },
                op: AssignOp::Equal,
                expression: 3,
            },
            MainBlock {
                body: vec![4],
                local_count: 1,
            },
        ],
        Some(&[string("x")]),
    )
}

#[test]
fn multi_2_to_2() {
    let source = "x, y[0] = 1, 0";
    check_ast(
        source,
        &[
            Id(0),
            Number0,
            Lookup(vec![LookupNode::Id(1), LookupNode::Index(1)]),
            Number1,
            Number0,
            Expressions(vec![3, 4]),
            MultiAssign {
                targets: vec![
                    AssignTarget {
                        target_index: 0,
                        scope: Scope::Local,
                    },
                    AssignTarget {
                        target_index: 2,
                        scope: Scope::Local,
                    },
                ],
                expressions: 5,
            },
            MainBlock {
                body: vec![6],
                local_count: 1, // y is assumed to be non-local
            },
        ],
        Some(&[string("x"), string("y")]),
    )
}

#[test]
fn multi_2_to_2_with_linebreaks() {
    let source = "\
x, y =
  1,
  0,
x";
    check_ast(
        source,
        &[
            Id(0),
            Id(1),
            Number1,
            Number0,
            Expressions(vec![2, 3]),
            MultiAssign {
                targets: vec![
                    AssignTarget {
                        target_index: 0,
                        scope: Scope::Local,
                    },
                    AssignTarget {
                        target_index: 1,
                        scope: Scope::Local,
                    },
                ],
                expressions: 4,
            }, // 5
            Id(0),
            MainBlock {
                body: vec![5, 6],
                local_count: 2,
            },
        ],
        Some(&[string("x"), string("y")]),
    )
}

#[test]
fn multi_1_to_3_with_placeholder() {
    let source = "x, _, y = f()";
    check_ast(
        source,
        &[
            Id(0),
            Id(1),
            Id(2),
            Lookup(vec![LookupNode::Id(3), LookupNode::Call(vec![])]),
            MultiAssign {
                targets: vec![
                    AssignTarget {
                        target_index: 0,
                        scope: Scope::Local,
                    },
                    AssignTarget {
                        target_index: 1,
                        scope: Scope::Local,
                    },
                    AssignTarget {
                        target_index: 2,
                        scope: Scope::Local,
                    },
                ],
                expressions: 3,
            },
            MainBlock {
                body: vec![4],
                local_count: 3,
            },
        ],
        Some(&[
            string("x"),
            string("_"),
            string("y"),
            string("f"),
        ]),
    )
}

#[test]
fn modify_assign() {
    let source = "\
x += 0
x -= 1
x *= 2
x /= 3
x %= 4";
    check_ast(
        source,
        &[
            Id(0),
            Number0,
            Assign {
                target: AssignTarget {
                    target_index: 0,
                    scope: Scope::Local,
                },
                op: AssignOp::Add,
                expression: 1,
            },
            Id(0),
            Number1,
            Assign {
                target: AssignTarget {
                    target_index: 3,
                    scope: Scope::Local,
                },
                op: AssignOp::Subtract,
                expression: 4,
            }, // 5
            Id(0),
            Number(1),
            Assign {
                target: AssignTarget {
                    target_index: 6,
                    scope: Scope::Local,
                },
                op: AssignOp::Multiply,
                expression: 7,
            },
            Id(0),
            Number(2), // 10
            Assign {
                target: AssignTarget {
                    target_index: 9,
                    scope: Scope::Local,
                },
                op: AssignOp::Divide,
                expression: 10,
            },
            Id(0),
            Number(3),
            Assign {
                target: AssignTarget {
                    target_index: 12,
                    scope: Scope::Local,
                },
                op: AssignOp::Modulo,
                expression: 13,
            },
            MainBlock {
                body: vec![2, 5, 8, 11, 14],
                local_count: 0,
            }, // 15
        ],
        Some(&[
            string("x"),
            number(2.0),
            number(3.0),
            number(4.0),
        ]),
    )
}

#[test]
fn addition_subtraction() {
    let source = "1 - 0 + 1";
    check_ast(
        source,
        &[
            Number1,
            Number0,
            BinaryOp {
                op: AstOp::Subtract,
                lhs: 0,
                rhs: 1,
            },
            Number1,
            BinaryOp {
                op: AstOp::Add,
                lhs: 2,
                rhs: 3,
            },
            MainBlock {
                body: vec![4],
                local_count: 0,
            },
        ],
        None,
    )
}

#[test]
fn add_multiply() {
    let source = "1 + 0 * 1 + 0";
    check_ast(
        source,
        &[
            Number1,
            Number0,
            Number1,
            BinaryOp {
                op: AstOp::Multiply,
                lhs: 1,
                rhs: 2,
            },
            BinaryOp {
                op: AstOp::Add,
                lhs: 0,
                rhs: 3,
            },
            Number0, // 5
            BinaryOp {
                op: AstOp::Add,
                lhs: 4,
                rhs: 5,
            },
            MainBlock {
                body: vec![6],
                local_count: 0,
            },
        ],
        None,
    )
}

#[test]
fn with_parentheses() {
    let source = "(1 + 0) * (1 + 0)";
    check_ast(
        source,
        &[
            Number1,
            Number0,
            BinaryOp {
                op: AstOp::Add,
                lhs: 0,
                rhs: 1,
            },
            Number1,
            Number0,
            BinaryOp {
                op: AstOp::Add,
                lhs: 3,
                rhs: 4,
            },
            BinaryOp {
                op: AstOp::Multiply,
                lhs: 2,
                rhs: 5,
            },
            MainBlock {
                body: vec![6],
                local_count: 0,
            },
        ],
        None,
    )
}

#[test]
fn divide_modulo() {
    let source = "18 / 3 % 4";
    check_ast(
        source,
        &[
            Number(0),
            Number(1),
            BinaryOp {
                op: AstOp::Divide,
                lhs: 0,
                rhs: 1,
            },
            Number(2),
            BinaryOp {
                op: AstOp::Modulo,
                lhs: 2,
                rhs: 3,
            },
            MainBlock {
                body: vec![4],
                local_count: 0,
            },
        ],
        Some(&[
            number(18.0),
            number(3.0),
            number(4.0),
        ]),
    )
}

#[test]
fn string_and_id() {
    let source = "\"hello\" + x";
    check_ast(
        source,
        &[
            Str(0),
            Id(1),
            BinaryOp {
                op: AstOp::Add,
                lhs: 0,
                rhs: 1,
            },
            MainBlock {
                body: vec![2],
                local_count: 0,
            },
        ],
        Some(&[string("hello"), string("x")]),
    )
}

#[test]
fn and_or() {
    let source = "0 < 1 and 1 > 0 or true";
    check_ast(
        source,
        &[
            Number0,
            Number1,
            BinaryOp {
                op: AstOp::Less,
                lhs: 0,
                rhs: 1,
            },
            Number1,
            Number0,
            BinaryOp {
                op: AstOp::Greater,
                lhs: 3,
                rhs: 4,
            },
            BinaryOp {
                op: AstOp::And,
                lhs: 2,
                rhs: 5,
            },
            BoolTrue,
            BinaryOp {
                op: AstOp::Or,
                lhs: 6,
                rhs: 7,
            },
            MainBlock {
                body: vec![8],
                local_count: 0,
            },
        ],
        None,
    )
}

#[test]
fn chained_comparisons() {
    let source = "0 < 1 <= 1";
    check_ast(
        source,
        &[
            Number0,
            Number1,
            Number1,
            BinaryOp {
                op: AstOp::LessOrEqual,
                lhs: 1,
                rhs: 2,
            },
            BinaryOp {
                op: AstOp::Less,
                lhs: 0,
                rhs: 3,
            },
            MainBlock {
                body: vec![4],
                local_count: 0,
            },
        ],
        None,
    )
}

#[test]
fn if_inline() {
    let source = "1 + if true then 0 else 1";
    check_ast(
        source,
        &[
            Number1,
            BoolTrue,
            Number0,
            Number1,
            If(AstIf {
                condition: 1,
                then_node: 2,
                else_if_blocks: vec![],
                else_node: Some(3),
            }),
            BinaryOp {
                op: AstOp::Add,
                lhs: 0,
                rhs: 4,
            },
            MainBlock {
                body: vec![5],
                local_count: 0,
            },
        ],
        None,
    )
}

#[test]
fn if_block() {
    let source = "\
a = if false
  0
else if true
  1
else if false
  0
else
  1
a";
    check_ast(
        source,
        &[
            Id(0),
            BoolFalse,
            Number0,
            BoolTrue,
            Number1,
            BoolFalse, // 5
            Number0,
            Number1,
            If(AstIf {
                condition: 1,
                then_node: 2,
                else_if_blocks: vec![(3, 4), (5, 6)],
                else_node: Some(7),
            }),
            Assign {
                target: AssignTarget {
                    target_index: 0,
                    scope: Scope::Local,
                },
                op: AssignOp::Equal,
                expression: 8,
            },
            Id(0),
            MainBlock {
                body: vec![9, 10],
                local_count: 1,
            }, // 10
        ],
        None,
    )
}

#[test]
fn if_inline_multi_expressions() {
    let source = "a, b = if true then 0, 1 else 1, 0";
    check_ast(
        source,
        &[
            Id(0),
            Id(1),
            BoolTrue,
            Number0,
            Number1,
            Expressions(vec![3, 4]), // 5
            Number1,
            Number0,
            Expressions(vec![6, 7]),
            If(AstIf {
                condition: 2,
                then_node: 5,
                else_if_blocks: vec![],
                else_node: Some(8),
            }),
            MultiAssign {
                targets: vec![
                    AssignTarget {
                        target_index: 0,
                        scope: Scope::Local,
                    },
                    AssignTarget {
                        target_index: 1,
                        scope: Scope::Local,
                    },
                ],
                expressions: 9,
            }, // 10
            MainBlock {
                body: vec![10],
                local_count: 2,
            },
        ],
        Some(&[string("a"), string("b")]),
    )
}

#[test]
fn for_inline() {
    let source = "x for x in 0..1";
    check_ast(
        source,
        &[
            Id(0),
            Number0,
            Number1,
            Range {
                start: 1,
                end: 2,
                inclusive: false,
            },
            For(AstFor {
                args: vec![0],
                ranges: vec![3],
                condition: None,
                body: 0,
            }),
            MainBlock {
                body: vec![4],
                local_count: 1,
            },
        ],
        Some(&[string("x")]),
    )
}

#[test]
fn for_inline_multi() {
    let source = "x, y for x, y in a, b";
    check_ast(
        source,
        &[
            Id(0),
            Id(1),
            Id(2),
            Id(3),
            Expressions(vec![0, 1]),
            For(AstFor {
                args: vec![0, 1],
                ranges: vec![2, 3],
                condition: None,
                body: 4,
            }), // 5
            MainBlock {
                body: vec![5],
                local_count: 2,
            },
        ],
        Some(&[
            string("x"),
            string("y"),
            string("a"),
            string("b"),
        ]),
    )
}

#[test]
fn for_inline_conditional() {
    let source = "x for x in y if x == 0";
    check_ast(
        source,
        &[
            Id(0),
            Id(1),
            Id(0),
            Number0,
            BinaryOp {
                op: AstOp::Equal,
                lhs: 2,
                rhs: 3,
            },
            For(AstFor {
                args: vec![0],
                ranges: vec![1],
                condition: Some(4),
                body: 0,
            }), // 5
            MainBlock {
                body: vec![5],
                local_count: 1,
            },
        ],
        Some(&[string("x"), string("y")]),
    )
}

#[test]
fn for_block() {
    let source = "\
for x in y if x > 0
  f x";
    check_ast(
        source,
        &[
            Id(1),
            Id(0),
            Number0,
            BinaryOp {
                op: AstOp::Greater,
                lhs: 1,
                rhs: 2,
            },
            Id(2),
            Id(0), // 5
            Call {
                function: 4,
                args: vec![5],
            },
            For(AstFor {
                args: vec![0],   // constant 0
                ranges: vec![0], // ast 0
                condition: Some(3),
                body: 6,
            }),
            MainBlock {
                body: vec![7],
                local_count: 1,
            },
        ],
        Some(&[string("x"), string("y"), string("f")]),
    )
}

#[test]
fn while_inline() {
    let source = "x while true";
    check_ast(
        source,
        &[
            Id(0),
            BoolTrue,
            While {
                condition: 1,
                body: 0,
            },
            MainBlock {
                body: vec![2],
                local_count: 0,
            },
        ],
        Some(&[string("x")]),
    )
}

#[test]
fn until_inline() {
    let source = "y until false";
    check_ast(
        source,
        &[
            Id(0),
            BoolFalse,
            Until {
                condition: 1,
                body: 0,
            },
            MainBlock {
                body: vec![2],
                local_count: 0,
            },
        ],
        Some(&[string("y")]),
    )
}

#[test]
fn while_block() {
    let source = "\
while x > y
  f x";
    check_ast(
        source,
        &[
            Id(0),
            Id(1),
            BinaryOp {
                op: AstOp::Greater,
                lhs: 0,
                rhs: 1,
            },
            Id(2),
            Id(0),
            Call {
                function: 3,
                args: vec![4],
            }, // 5
            While {
                condition: 2,
                body: 5,
            },
            MainBlock {
                body: vec![6],
                local_count: 0,
            },
        ],
        Some(&[string("x"), string("y"), string("f")]),
    )
}

#[test]
fn until_block() {
    let source = "\
until x < y
  f y";
    check_ast(
        source,
        &[
            Id(0),
            Id(1),
            BinaryOp {
                op: AstOp::Less,
                lhs: 0,
                rhs: 1,
            },
            Id(2),
            Id(1),
            Call {
                function: 3,
                args: vec![4],
            }, // 5
            Until {
                condition: 2,
                body: 5,
            },
            MainBlock {
                body: vec![6],
                local_count: 0,
            },
        ],
        Some(&[string("x"), string("y"), string("f")]),
    )
}

#[test]
fn list_comprehension_for() {
    let source = "[x y for x in 0..1]";
    check_ast(
        source,
        &[
            Id(0),
            Id(1),
            Number0,
            Number1,
            Range {
                start: 2,
                end: 3,
                inclusive: false,
            },
            Call {
                function: 0,
                args: vec![1],
            }, // 5
            For(AstFor {
                args: vec![0],
                ranges: vec![4],
                condition: None,
                body: 5,
            }),
            List(vec![6]),
            MainBlock {
                body: vec![7],
                local_count: 1,
            },
        ],
        Some(&[string("x"), string("y")]),
    )
}

#[test]
fn list_comprehension_while() {
    let source = "[f x while (f y) < 10]";
    check_ast(
        source,
        &[
            Id(0),
            Id(1),
            Id(0),
            Id(2),
            Call {
                function: 2,
                args: vec![3],
            },
            Number(3), // 5
            BinaryOp {
                op: AstOp::Less,
                lhs: 4,
                rhs: 5,
            },
            Call {
                function: 0,
                args: vec![1],
            },
            While {
                condition: 6,
                body: 7,
            },
            List(vec![8]),
            MainBlock {
                body: vec![9],
                local_count: 0,
            },
        ],
        Some(&[
            string("f"),
            string("x"),
            string("y"),
            number(10.0),
        ]),
    )
}

#[test]
fn list_comprehension_until() {
    let source = "[f x until (f y) >= 10]";
    check_ast(
        source,
        &[
            Id(0),
            Id(1),
            Id(0),
            Id(2),
            Call {
                function: 2,
                args: vec![3],
            },
            Number(3), // 5
            BinaryOp {
                op: AstOp::GreaterOrEqual,
                lhs: 4,
                rhs: 5,
            },
            Call {
                function: 0,
                args: vec![1],
            },
            Until {
                condition: 6,
                body: 7,
            },
            List(vec![8]),
            MainBlock {
                body: vec![9],
                local_count: 0,
            },
        ],
        Some(&[
            string("f"),
            string("x"),
            string("y"),
            number(10.0),
        ]),
    )
}

#[test]
fn inline_no_args() {
    let source = "
a = || 42
a()";
    check_ast(
        source,
        &[
            Id(0),
            Number(1),
            Node::Function(Function {
                args: vec![],
                local_count: 0,
                accessed_non_locals: vec![],
                body: 1,
                is_instance_function: false,
            }),
            Assign {
                target: AssignTarget {
                    target_index: 0,
                    scope: Scope::Local,
                },
                op: AssignOp::Equal,
                expression: 2,
            },
            Lookup(vec![LookupNode::Id(0), LookupNode::Call(vec![])]),
            MainBlock {
                body: vec![3, 4],
                local_count: 1,
            },
        ],
        Some(&[string("a"), number(42.0)]),
    )
}

#[test]
fn inline_two_args() {
    let source = "|x y| x + y";
    check_ast(
        source,
        &[
            Id(0),
            Id(1),
            BinaryOp {
                op: AstOp::Add,
                lhs: 0,
                rhs: 1,
            },
            Node::Function(Function {
                args: vec![0, 1],
                local_count: 2,
                accessed_non_locals: vec![],
                body: 2,
                is_instance_function: false,
            }),
            MainBlock {
                body: vec![3],
                local_count: 0,
            },
        ],
        Some(&[string("x"), string("y")]),
    )
}

#[test]
fn with_body() {
    let source = "\
f = |x|
  y = x
  y = y + 1
  y
f 42";
    check_ast(
        source,
        &[
            Id(0), // f
            Id(2), // y
            Id(1), // x
            Assign {
                target: AssignTarget {
                    target_index: 1,
                    scope: Scope::Local,
                },
                op: AssignOp::Equal,
                expression: 2,
            },
            Id(2), // y
            Id(2), // y // 5
            Number1,
            BinaryOp {
                op: AstOp::Add,
                lhs: 5,
                rhs: 6,
            },
            Assign {
                target: AssignTarget {
                    target_index: 4,
                    scope: Scope::Local,
                },
                op: AssignOp::Equal,
                expression: 7,
            },
            Id(2),                // y
            Block(vec![3, 8, 9]), // 10
            Node::Function(Function {
                args: vec![1],
                local_count: 2,
                accessed_non_locals: vec![],
                body: 10,
                is_instance_function: false,
            }),
            Assign {
                target: AssignTarget {
                    target_index: 0,
                    scope: Scope::Local,
                },
                op: AssignOp::Equal,
                expression: 11,
            },
            Id(0),
            Number(3),
            Call {
                function: 13,
                args: vec![14],
            }, // 15
            MainBlock {
                body: vec![12, 15],
                local_count: 1,
            },
        ],
        Some(&[
            string("f"),
            string("x"),
            string("y"),
            number(42.0),
        ]),
    )
}

#[test]
fn with_body_nested() {
    let source = "\
f = |x|
  y = |z|
    z
  y x
f 42";
    check_ast(
        source,
        &[
            Id(0), // f
            Id(2), // y
            Id(3), // z
            Node::Function(Function {
                args: vec![3],
                local_count: 1,
                accessed_non_locals: vec![],
                body: 2,
                is_instance_function: false,
            }),
            Assign {
                target: AssignTarget {
                    target_index: 1,
                    scope: Scope::Local,
                },
                op: AssignOp::Equal,
                expression: 3,
            },
            Id(2), // y // 5
            Id(1), // x
            Call {
                function: 5,
                args: vec![6],
            },
            Block(vec![4, 7]),
            Node::Function(Function {
                args: vec![1],
                local_count: 2,
                accessed_non_locals: vec![],
                body: 8,
                is_instance_function: false,
            }),
            Assign {
                target: AssignTarget {
                    target_index: 0,
                    scope: Scope::Local,
                },
                op: AssignOp::Equal,
                expression: 9,
            }, // 10
            Id(0), // f
            Number(4),
            Call {
                function: 11,
                args: vec![12],
            },
            MainBlock {
                body: vec![10, 13],
                local_count: 1,
            },
        ],
        Some(&[
            string("f"),
            string("x"),
            string("y"),
            string("z"),
            number(42.0),
        ]),
    )
}

#[test]
fn call_negative_arg() {
    let source = "\
f 0 -x";
    check_ast(
        source,
        &[
            Id(0),
            Number0,
            Id(1),
            Negate(2),
            Call {
                function: 0,
                args: vec![1, 3],
            },
            MainBlock {
                body: vec![4],
                local_count: 0,
            },
        ],
        Some(&[string("f"), string("x")]),
    )
}

#[test]
fn instance_function() {
    let source = "{foo: 42, bar: |self x| self.foo = x}";
    check_ast(
        source,
        &[
            Number(1),
            Lookup(vec![LookupNode::Id(3), LookupNode::Id(0)]),
            Id(4), // x
            Assign {
                target: AssignTarget {
                    target_index: 1,
                    scope: Scope::Local,
                },
                op: AssignOp::Equal,
                expression: 2,
            },
            Node::Function(Function {
                args: vec![3, 4],
                local_count: 2,
                accessed_non_locals: vec![],
                body: 3,
                is_instance_function: true,
            }),
            MapLiteral(vec![(0, 0), (2, 4)]), // Map entries are constant/ast index pairs
            MainBlock {
                body: vec![5],
                local_count: 0,
            },
        ],
        Some(&[
            string("foo"),
            number(42.0),
            string("bar"),
            string("self"),
            string("x"),
        ]),
    )
}

#[test]
fn instance_function_block() {
    let source = "
f = ||
  foo: 42
  bar: |self x| self.foo = x
f()";
    check_ast(
        source,
        &[
            Id(0),
            Number(2),
            Lookup(vec![LookupNode::Id(4), LookupNode::Id(1)]),
            Id(5), // x
            Assign {
                target: AssignTarget {
                    target_index: 2,
                    scope: Scope::Local,
                },
                op: AssignOp::Equal,
                expression: 3,
            },
            Node::Function(Function {
                args: vec![4, 5],
                local_count: 2,
                accessed_non_locals: vec![],
                body: 4,
                is_instance_function: true,
            }), // 5
            MapLiteral(vec![(1, 1), (3, 5)]), // Map entries are constant/ast index pairs
            Node::Function(Function {
                args: vec![],
                local_count: 0,
                accessed_non_locals: vec![],
                body: 6,
                is_instance_function: false,
            }),
            Assign {
                target: AssignTarget {
                    target_index: 0,
                    scope: Scope::Local,
                },
                op: AssignOp::Equal,
                expression: 7,
            },
            Lookup(vec![LookupNode::Id(0), LookupNode::Call(vec![])]),
            MainBlock {
                body: vec![8, 9],
                local_count: 1,
            },
        ],
        Some(&[
            string("f"),
            string("foo"),
            number(42.0),
            string("bar"),
            string("self"),
            string("x"),
        ]),
    )
}

#[test]
fn nested_function_with_loops_and_ifs() {
    let source = "\
f = |n|
  f2 = |n|
    for i in 0..1
      if i == n
        return i

  for x in 0..1
    if x == n
      return f2 n
f 1
";
    check_ast(
        source,
        &[
            Id(0), // f
            Id(2), // f2
            Number0,
            Number1,
            Range {
                start: 2,
                end: 3,
                inclusive: false,
            },
            Id(3), // 5 - i
            Id(1), // n
            BinaryOp {
                op: AstOp::Equal,
                lhs: 5,
                rhs: 6,
            },
            Id(3),
            ReturnExpression(8),
            If(AstIf {
                condition: 7,
                then_node: 9,
                else_if_blocks: vec![],
                else_node: None,
            }), // 10
            For(AstFor {
                args: vec![3],
                ranges: vec![4],
                condition: None,
                body: 10,
            }),
            Node::Function(Function {
                args: vec![1],
                local_count: 2,
                accessed_non_locals: vec![],
                body: 11,
                is_instance_function: false,
            }),
            Assign {
                target: AssignTarget {
                    target_index: 1,
                    scope: Scope::Local,
                },
                op: AssignOp::Equal,
                expression: 12,
            },
            Number0,
            Number1, // 15
            Range {
                start: 14,
                end: 15,
                inclusive: false,
            },
            Id(4), // x
            Id(1), // n
            BinaryOp {
                op: AstOp::Equal,
                lhs: 17,
                rhs: 18,
            },
            Id(2), // 20 - f2
            Id(1), // n
            Call {
                function: 20,
                args: vec![21],
            },
            ReturnExpression(22),
            If(AstIf {
                condition: 19,
                then_node: 23,
                else_if_blocks: vec![],
                else_node: None,
            }),
            For(AstFor {
                args: vec![4], // x
                ranges: vec![16],
                condition: None,
                body: 24,
            }), // 25
            Block(vec![13, 25]),
            Node::Function(Function {
                args: vec![1],
                local_count: 3,
                accessed_non_locals: vec![],
                body: 26,
                is_instance_function: false,
            }),
            Assign {
                target: AssignTarget {
                    target_index: 0,
                    scope: Scope::Local,
                },
                op: AssignOp::Equal,
                expression: 27,
            },
            Id(0),   // f
            Number1, // 30
            Call {
                function: 29,
                args: vec![30],
            },
            MainBlock {
                body: vec![28, 31],
                local_count: 1,
            },
        ],
        Some(&[
            string("f"),
            string("n"),
            string("f2"),
            string("i"),
            string("x"),
        ]),
    )
}

#[test]
fn non_local_access() {
    let source = "|| x += 1";
    check_ast(
        source,
        &[
            Id(0),
            Number1,
            Assign {
                target: AssignTarget {
                    target_index: 0,
                    scope: Scope::Local,
                },
                op: AssignOp::Add,
                expression: 1,
            },
            Node::Function(Function {
                args: vec![],
                local_count: 0,
                accessed_non_locals: vec![0], // initial read of x via capture
                body: 2,
                is_instance_function: false,
            }),
            MainBlock {
                body: vec![3],
                local_count: 0,
            },
        ],
        Some(&[string("x")]),
    )
}

#[test]
fn call_with_functor() {
    let source = "\
z = y [0..20] |x| x > 1
y z";
    check_ast(
        source,
        &[
            Id(0),
            Id(1),
            Number0,
            Number(2),
            Range {
                start: 2,
                end: 3,
                inclusive: false,
            },
            List(vec![4]), // 5
            Id(3),
            Number1,
            BinaryOp {
                op: AstOp::Greater,
                lhs: 6,
                rhs: 7,
            },
            Node::Function(Function {
                args: vec![3],
                local_count: 1,
                accessed_non_locals: vec![],
                body: 8,
                is_instance_function: false,
            }),
            Call {
                function: 1,
                args: vec![5, 9],
            }, // 10
            Assign {
                target: AssignTarget {
                    target_index: 0,
                    scope: Scope::Local,
                },
                op: AssignOp::Equal,
                expression: 10,
            },
            Id(1),
            Id(0),
            Call {
                function: 12,
                args: vec![13],
            },
            MainBlock {
                body: vec![11, 14],
                local_count: 1,
            },
        ],
        Some(&[
            string("z"),
            string("y"),
            number(20.0),
            string("x"),
        ]),
    )
}

#[test]
fn array_indexing() {
    let source = "\
a[0] = a[1]
x[..]
y[..3]
z[10..][0]";
    check_ast(
        source,
        &[
            Number0,
            Lookup(vec![LookupNode::Id(0), LookupNode::Index(0)]),
            Number1,
            Lookup(vec![LookupNode::Id(0), LookupNode::Index(2)]),
            Assign {
                target: AssignTarget {
                    target_index: 1,
                    scope: Scope::Local,
                },
                op: AssignOp::Equal,
                expression: 3,
            },
            RangeFull, // 5
            Lookup(vec![LookupNode::Id(1), LookupNode::Index(5)]),
            Number(3),
            RangeTo {
                end: 7,
                inclusive: false,
            },
            Lookup(vec![LookupNode::Id(2), LookupNode::Index(8)]),
            Number(5), // 10
            RangeFrom { start: 10 },
            Number0,
            Lookup(vec![
                LookupNode::Id(4),
                LookupNode::Index(11),
                LookupNode::Index(12),
            ]),
            MainBlock {
                body: vec![4, 6, 9, 13],
                local_count: 0,
            },
        ],
        Some(&[
            string("a"),
            string("x"),
            string("y"),
            number(3.0),
            string("z"),
            number(10.0),
        ]),
    )
}

#[test]
fn map_lookup() {
    let source = "\
x.foo
x.bar()
x.bar().baz = 1
x.foo 42";
    check_ast(
        source,
        &[
            Lookup(vec![LookupNode::Id(0), LookupNode::Id(1)]),
            Lookup(vec![
                LookupNode::Id(0),
                LookupNode::Id(2),
                LookupNode::Call(vec![]),
            ]),
            Lookup(vec![
                LookupNode::Id(0),
                LookupNode::Id(2),
                LookupNode::Call(vec![]),
                LookupNode::Id(3),
            ]),
            Number1,
            Assign {
                target: AssignTarget {
                    target_index: 2,
                    scope: Scope::Local,
                },
                op: AssignOp::Equal,
                expression: 3,
            },
            Number(4), // 5
            Lookup(vec![
                LookupNode::Id(0),
                LookupNode::Id(1),
                LookupNode::Call(vec![5]),
            ]),
            MainBlock {
                body: vec![0, 1, 4, 6],
                local_count: 0,
            },
        ],
        Some(&[
            string("x"),
            string("foo"),
            string("bar"),
            string("baz"),
            number(42.0),
        ]),
    )
}

#[test]
fn map_lookup_in_list() {
    let source = "[m.foo m.bar]";
    check_ast(
        source,
        &[
            Lookup(vec![LookupNode::Id(0), LookupNode::Id(1)]),
            Lookup(vec![LookupNode::Id(0), LookupNode::Id(2)]),
            List(vec![0, 1]),
            MainBlock {
                body: vec![2],
                local_count: 0,
            },
        ],
        Some(&[
            string("m"),
            string("foo"),
            string("bar"),
        ]),
    )
}

#[test]
fn flow() {
    let source = "\
break
continue
return
return 1";
    check_ast(
        source,
        &[
            Break,
            Continue,
            Return,
            Number1,
            ReturnExpression(3),
            MainBlock {
                body: vec![0, 1, 2, 4],
                local_count: 0,
            },
        ],
        None,
    )
}

#[test]
fn expressions() {
    let source = "\
copy x
not true
debug x + x";
    check_ast(
        source,
        &[
            Id(0),
            CopyExpression(0),
            BoolTrue,
            Negate(2),
            Id(0),
            Id(0), // 5
            BinaryOp {
                op: AstOp::Add,
                lhs: 4,
                rhs: 5,
            },
            Node::Debug {
                expression_string: 1,
                expression: 6,
            },
            MainBlock {
                body: vec![1, 3, 7],
                local_count: 0,
            },
        ],
        Some(&[string("x"), string("x + x")]),
    )
}

#[test]
fn arithmetic() {
    let source = r"
a = 1 + \
    2 + \
    3
";
    check_ast(
        source,
        &[
            Id(0),
            Number1,
            Number(1),
            BinaryOp {
                op: AstOp::Add,
                lhs: 1,
                rhs: 2,
            },
            Number(2),
            BinaryOp {
                op: AstOp::Add,
                lhs: 3,
                rhs: 4,
            }, // 5
            Assign {
                target: AssignTarget {
                    target_index: 0,
                    scope: Scope::Local,
                },
                op: AssignOp::Equal,
                expression: 5,
            },
            MainBlock {
                body: vec![6],
                local_count: 1,
            },
        ],
        Some(&[
            string("a"),
            number(2.0),
            number(3.0),
        ]),
    )
}

#[test]
fn import_module() {
    let source = "import foo";
    check_ast(
        source,
        &[
            Import {
                module: vec![0],
                items: vec![],
            },
            MainBlock {
                body: vec![0],
                local_count: 1,
            },
        ],
        Some(&[string("foo")]),
    )
}

#[test]
fn import_item() {
    let source = "import foo.bar";
    check_ast(
        source,
        &[
            Import {
                module: vec![0, 1],
                items: vec![],
            },
            MainBlock {
                body: vec![0],
                local_count: 1,
            },
        ],
        Some(&[string("foo"), string("bar")]),
    )
}

#[test]
fn import_item_used_in_assignment() {
    let source = "x = import foo.bar";
    check_ast(
        source,
        &[
            Id(0),
            Import {
                module: vec![1, 2],
                items: vec![],
            },
            Assign {
                target: AssignTarget {
                    target_index: 0,
                    scope: Scope::Local,
                },
                op: AssignOp::Equal,
                expression: 1,
            },
            MainBlock {
                body: vec![2],
                local_count: 2, // x and bar both assigned locally
            },
        ],
        Some(&[
            string("x"),
            string("foo"),
            string("bar"),
        ]),
    )
}

#[test]
fn import_items() {
    let source = "import [bar baz] from foo";
    check_ast(
        source,
        &[
            Import {
                module: vec![2],
                items: vec![0, 1],
            },
            MainBlock {
                body: vec![0],
                local_count: 3,
            },
        ],
        Some(&[
            string("bar"),
            string("baz"),
            string("foo"),
        ]),
    )
}

#[test]
fn import_items_from_child() {
    let source = "import [abc xyz] from foo.bar";
    check_ast(
        source,
        &[
            Import {
                module: vec![2, 3],
                items: vec![0, 1],
            },
            MainBlock {
                body: vec![0],
                local_count: 3,
            },
        ],
        Some(&[
            string("abc"),
            string("xyz"),
            string("foo"),
            string("bar"),
        ]),
    )
}

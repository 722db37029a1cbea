//! The scopes of a script, and the ids that they read from outside.

use koto_parser::frame::Frame;
use koto_parser::node::Node;
use koto_parser::node::{AssignTarget, Scope};
use koto_parser::parser::{Options, Parser};

fn read_number(literal: &str) -> Option<u64> {
    match literal.parse::<f64>() {
        Ok(number) => Some(number.to_bits()),
        Err(_) => None,
    }
}

fn nodes(source: &str, export_all_top_level: bool) -> Vec<Node> {
    match Parser::parse(source, Options { export_all_top_level }, read_number) {
        Ok((ast, _)) => ast.nodes().iter().map(|node| node.node.clone()).collect(),
        Err(error) => panic!("{:?}", error),
    }
}

/// The ids that the functions of a script capture, in the order in which the functions end.
fn captures(source: &str) -> Vec<Vec<u32>> {
    let mut captures = Vec::new();
    for node in nodes(source, false) {
        if let Node::Function(function) = node {
            let mut ids = function.accessed_non_locals.clone();
            ids.sort();
            captures.push(ids);
        }
    }
    captures
}

fn scopes(source: &str, export_all_top_level: bool) -> Vec<Scope> {
    let mut scopes = Vec::new();
    for node in nodes(source, export_all_top_level) {
        if let Node::Assign { target: AssignTarget { scope, .. }, .. } = node {
            scopes.push(scope);
        }
    }
    scopes
}

fn main_local_count(source: &str, export_all_top_level: bool) -> usize {
    match nodes(source, export_all_top_level).last() {
        Some(Node::MainBlock { local_count, .. }) => *local_count,
        _ => panic!("no main block"),
    }
}

#[test]
fn reads_and_assignments_of_an_id() {
    // a = 1
    let mut frame = Frame::new(false, &vec![]);
    frame.increment_expression_access_for_id(7);
    assert_eq!(frame.decrement_expression_access_for_id(7), Ok(()));
    assert_eq!(frame.access(7), Some(0));
    frame.assign_target(7);
    frame.complete_target(7);
    frame.finish_expressions();
    assert_eq!(frame.non_locals(), vec![]);
    assert_eq!(frame.local_count(), 1);
    assert_eq!(frame.access(7), None);

    // a = a = a
    let mut frame = Frame::new(false, &vec![]);
    frame.increment_expression_access_for_id(7);
    assert_eq!(frame.decrement_expression_access_for_id(7), Ok(()));
    frame.assign_target(7);
    frame.increment_expression_access_for_id(7);
    assert_eq!(frame.decrement_expression_access_for_id(7), Ok(()));
    frame.assign_target(7);
    frame.increment_expression_access_for_id(7);
    assert_eq!(frame.access(7), Some(1));
    frame.complete_target(7);
    frame.complete_target(7);
    frame.finish_expressions();
    assert_eq!(frame.non_locals(), vec![7]);
    assert_eq!(frame.local_count(), 0);

    // a = 1, then a = a
    let mut frame = Frame::new(false, &vec![]);
    frame.increment_expression_access_for_id(7);
    assert_eq!(frame.decrement_expression_access_for_id(7), Ok(()));
    frame.assign_target(7);
    frame.complete_target(7);
    frame.finish_expressions();
    frame.increment_expression_access_for_id(7);
    assert_eq!(frame.decrement_expression_access_for_id(7), Ok(()));
    frame.assign_target(7);
    frame.increment_expression_access_for_id(7);
    frame.complete_target(7);
    frame.finish_expressions();
    assert_eq!(frame.non_locals(), vec![]);
    assert_eq!(frame.local_count(), 1);

    // A target is new until its assignment is complete, whatever ends before that
    let mut frame = Frame::new(false, &vec![]);
    frame.increment_expression_access_for_id(7);
    assert_eq!(frame.decrement_expression_access_for_id(7), Ok(()));
    frame.assign_target(7);
    frame.increment_expression_access_for_id(8);
    frame.finish_expressions();
    frame.increment_expression_access_for_id(7);
    frame.finish_expressions();
    frame.complete_target(7);
    let mut ids = frame.non_locals();
    ids.sort();
    assert_eq!(ids, vec![7, 8]);
    assert_eq!(frame.local_count(), 0);
}

#[test]
fn counts_of_locals() {
    // As many as are assigned, less those that are non-locals
    let mut frame = Frame::new(false, &vec![1, 2, 3]);
    assert_eq!(frame.local_count(), 3);
    frame.increment_expression_access_for_id(4);
    frame.finish_expressions();
    assert_eq!(frame.local_count(), 3);
    frame.assign(4);
    assert_eq!(frame.local_count(), 3);
    assert_eq!(frame.non_locals(), vec![4]);
}

#[test]
fn targets_are_new_until_their_value_is_read() {
    // f, a, c, b
    assert_eq!(captures("f = ||\n  a = if c\n    b\n    a\n"), vec![vec![1, 2, 3]]);
    assert_eq!(captures("f = ||\n  a = if c\n    a\n"), vec![vec![1, 2]]);
    assert_eq!(captures("f = ||\n  a = if c\n    a = 1\n    a\n"), vec![vec![2]]);
    assert_eq!(captures("f = ||\n  a = if c\n    b\n  a\n"), vec![vec![2, 3]]);
}

#[test]
fn loops_and_imports_assign_at_once() {
    // f, a, xs
    assert_eq!(captures("f = || [a for a in xs]"), vec![vec![2]]);
    assert_eq!(captures("f = || a = [a for a in xs]"), vec![vec![2]]);
    assert_eq!(captures("f = || a = a for a in xs"), vec![vec![2]]);
    assert_eq!(captures("f = || a = a + [a for a in xs]"), vec![vec![2]]);
    // f, a, c, xs
    assert_eq!(captures("f = ||\n  a = if c\n    for a in xs\n      a\n"), vec![vec![2, 3]]);
    // f, a, c
    assert_eq!(captures("f = ||\n  a = if c\n    import a\n    a\n"), vec![vec![2]]);
    assert_eq!(captures("f = ||\n  a = if c\n    import [a] from b\n    a\n"), vec![vec![2]]);
    assert_eq!(captures("f = ||\n  a = if c\n    import b.a\n    a\n"), vec![vec![2]]);
    assert_eq!(main_local_count("x = [x for x in y]", false), 1);
    assert_eq!(main_local_count("x = x for x in y", false), 1);
    assert_eq!(main_local_count("a = if c\n  for a in xs\n    a\n", false), 1);

    // An id that is a target, and is then assigned at once, is a local
    let mut frame = Frame::new(false, &vec![]);
    frame.increment_expression_access_for_id(7);
    assert_eq!(frame.decrement_expression_access_for_id(7), Ok(()));
    frame.assign_target(7);
    frame.assign(7);
    frame.increment_expression_access_for_id(7);
    frame.finish_expressions();
    assert_eq!(frame.non_locals(), vec![]);
    assert_eq!(frame.local_count(), 1);
    frame.increment_expression_access_for_id(7);
    frame.complete_target(7);
    frame.finish_expressions();
    assert_eq!(frame.non_locals(), vec![]);
    assert_eq!(frame.local_count(), 1);
}

#[test]
fn functions_close_their_scopes() {
    let source = "f = |a b a|\n  c = || d\n  a + d\n";
    let functions: Vec<(usize, usize, Vec<u32>)> = nodes(source, false)
        .iter()
        .filter_map(|node| match node {
            Node::Function(function) => Some((
                function.args.len(),
                function.local_count,
                function.accessed_non_locals.clone(),
            )),
            _ => None,
        })
        .collect();
    // f, a, b, c, d
    assert_eq!(functions, vec![(0, 0, vec![4]), (3, 3, vec![4])]);
    assert_eq!(main_local_count(source, false), 1);
}

#[test]
fn assignments_of_ids_that_do_not_occur() {
    let mut frame = Frame::new(false, &vec![]);
    assert_eq!(frame.decrement_expression_access_for_id(3), Err(()));
    frame.increment_expression_access_for_id(3);
    assert_eq!(frame.decrement_expression_access_for_id(4), Err(()));
    assert_eq!(frame.access(3), Some(1));
    assert_eq!(frame.access(4), None);
}

#[test]
fn ids_that_are_assigned_are_no_non_locals() {
    let mut frame = Frame::new(false, &vec![1, 2, 1]);
    assert_eq!(frame.local_count(), 2);
    assert!(!frame.is_top_level());
    frame.increment_expression_access_for_id(1);
    frame.increment_expression_access_for_id(3);
    frame.finish_expressions();
    assert_eq!(frame.non_locals(), vec![3]);
    frame.assign(3);
    assert_eq!(frame.local_count(), 2);
}

#[test]
fn non_locals_of_nested_frames() {
    let mut nested = Frame::new(false, &vec![]);
    nested.increment_expression_access_for_id(1);
    nested.increment_expression_access_for_id(2);
    nested.finish_expressions();
    let mut outer = Frame::new(true, &vec![1]);
    assert!(outer.is_top_level());
    outer.add_nested_accessed_non_locals(&nested);
    assert_eq!(outer.non_locals(), vec![2]);
    assert_eq!(outer.local_count(), 1);
}

#[test]
fn captures_of_functions() {
    // f, a
    assert_eq!(captures("f = || a = 1"), vec![Vec::<u32>::new()]);
    assert_eq!(captures("f = || a = a"), vec![vec![1]]);
    assert_eq!(captures("f = || a = a = a"), vec![vec![1]]);
    assert_eq!(captures("f = |a| a + b"), vec![vec![2]]);
    assert_eq!(captures("f = ||\n  a = 1\n  a = a\n"), vec![Vec::<u32>::new()]);
    assert_eq!(captures("f = || [x for x in xs]"), vec![vec![2]]);
    // A function reads what the functions in it read
    assert_eq!(captures("f = |a| |b| a + b + c"), vec![vec![1, 3], vec![3]]);
    // f, n, x
    assert_eq!(captures("f = |n|\n  x = n\n  || x\n"), vec![vec![2], vec![]]);
}

#[test]
fn scopes_of_assignments() {
    assert_eq!(scopes("a = 1", false), vec![Scope::Local]);
    assert_eq!(scopes("a = 1", true), vec![Scope::Global]);
    assert_eq!(scopes("f = || a = 1", true), vec![Scope::Local, Scope::Global]);
    assert_eq!(scopes("export a = 1", false), vec![Scope::Global]);
    assert_eq!(scopes("f = ||\n  export a = 1\n  a\n", false), vec![Scope::Global, Scope::Local]);
    match &nodes("a, b.c = 1, 2", true)[5] {
        Node::MultiAssign { targets, expressions } => {
            let target = |target_index| AssignTarget { target_index, scope: Scope::Global };
            assert_eq!(*targets, vec![target(0), target(1)]);
            assert_eq!(*expressions, 4);
        }
        node => panic!("{:?}", node),
    }
    assert_eq!(main_local_count("a = 1\nb = 2\na = 3", false), 2);
    assert_eq!(main_local_count("a = 1\nb = 2\na = 3", true), 0);
    assert_eq!(main_local_count("for x, y in z\n  a = x\n", false), 3);
    assert_eq!(main_local_count("import [a b] from c.d", false), 3);
}

#[test]
fn instance_functions() {
    let functions: Vec<bool> = nodes("f = |self a| a\ng = |a self| a\nh = || 1", false)
        .iter()
        .filter_map(|node| match node {
            Node::Function(function) => Some(function.is_instance_function),
            _ => None,
        })
        .collect();
    assert_eq!(functions, vec![true, false, false]);
}

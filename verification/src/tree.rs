//! What holds of every syntax tree that a script is read as.

use crate::ast::AstNodeView;
use crate::constant_pool::ConstantView;
use crate::node::{AssignTarget, AstIndex, ConstantIndex, LookupNodeView, NodeView};
use vstd::prelude::*;

verus! {

/// Whether an index is that of a node before the `count`th.
pub open spec fn is_node(count: int, index: AstIndex) -> bool {
    index < count
}

/// Whether all indices are those of nodes before the `count`th.
pub open spec fn are_nodes(count: int, indices: Seq<AstIndex>) -> bool {
    forall|k: int| 0 <= k < indices.len() ==> is_node(count, #[trigger] indices[k])
}

/// Whether a constant is a string.
pub open spec fn is_string(constants: Seq<ConstantView>, constant: ConstantIndex) -> bool {
    constant < constants.len() && constants[constant as int] is Str
}

/// Whether a constant is a number.
pub open spec fn is_number(constants: Seq<ConstantView>, constant: ConstantIndex) -> bool {
    constant < constants.len() && constants[constant as int] is Number
}

/// Whether all constants are strings.
pub open spec fn are_strings(constants: Seq<ConstantView>, indices: Seq<ConstantIndex>) -> bool {
    forall|k: int| 0 <= k < indices.len() ==> is_string(constants, #[trigger] indices[k])
}

/// Whether a node can be assigned to.
pub open spec fn is_target(nodes: Seq<AstNodeView>, index: AstIndex) -> bool {
    &&& index < nodes.len()
    &&& nodes[index as int].node is Id || nodes[index as int].node is Lookup
}

/// Whether all nodes can be assigned to.
pub open spec fn are_targets(nodes: Seq<AstNodeView>, targets: Seq<AssignTarget>) -> bool {
    forall|k: int|
        0 <= k < targets.len() ==> is_target(nodes, (#[trigger] targets[k]).target_index)
}

/// Whether a step of a lookup is made of nodes and constants that are there.
pub open spec fn is_step(count: int, constants: Seq<ConstantView>, step: LookupNodeView) -> bool {
    match step {
        LookupNodeView::Id(id) => is_string(constants, id),
        LookupNodeView::Index(index) => is_node(count, index),
        LookupNodeView::Call(args) => are_nodes(count, args),
    }
}

/// Whether a lookup starts at an id, and its steps are made of nodes and constants that are there.
pub open spec fn is_lookup(
    count: int,
    constants: Seq<ConstantView>,
    lookup: Seq<LookupNodeView>,
) -> bool {
    &&& lookup.len() > 0
    &&& lookup[0] is Id
    &&& forall|k: int| 0 <= k < lookup.len() ==> is_step(count, constants, #[trigger] lookup[k])
}

/// Whether all keys are strings and all values are nodes.
pub open spec fn are_entries(
    count: int,
    constants: Seq<ConstantView>,
    entries: Seq<(ConstantIndex, AstIndex)>,
) -> bool {
    forall|k: int|
        0 <= k < entries.len() ==> is_string(constants, (#[trigger] entries[k]).0) && is_node(
            count,
            entries[k].1,
        )
}

/// Whether both of each pair are nodes.
pub open spec fn are_pairs(count: int, pairs: Seq<(AstIndex, AstIndex)>) -> bool {
    forall|k: int|
        0 <= k < pairs.len() ==> is_node(count, (#[trigger] pairs[k]).0) && is_node(
            count,
            pairs[k].1,
        )
}

/// Whether a node can stand behind the given nodes: the nodes that it refers to are among them,
/// its constants are there and of the right kind, and it has as many parts as its form allows. The
/// arguments of a function are not among the ids that it reads from outside.
pub open spec fn fits(
    nodes: Seq<AstNodeView>,
    constants: Seq<ConstantView>,
    node: NodeView,
) -> bool {
    let count = nodes.len() as int;
    match node {
        NodeView::Number(constant) => is_number(constants, constant),
        NodeView::Str(constant) => is_string(constants, constant),
        NodeView::Id(constant) => is_string(constants, constant),
        NodeView::Lookup(lookup) => is_lookup(count, constants, lookup),
        NodeView::Num2(args) => are_nodes(count, args) && 1 <= args.len() <= 2,
        NodeView::Num4(args) => are_nodes(count, args) && 1 <= args.len() <= 4,
        NodeView::List(entries) => are_nodes(count, entries),
        NodeView::MapLiteral(entries) => are_entries(count, constants, entries),
        NodeView::Range { start, end, .. } => is_node(count, start) && is_node(count, end),
        NodeView::RangeFrom { start } => is_node(count, start),
        NodeView::RangeTo { end, .. } => is_node(count, end),
        NodeView::MainBlock { body, .. } => are_nodes(count, body),
        NodeView::Block(body) => are_nodes(count, body) && body.len() != 1,
        NodeView::Expressions(expressions) => are_nodes(count, expressions) && expressions.len()
            >= 2,
        NodeView::CopyExpression(expression) => is_node(count, expression),
        NodeView::Negate(expression) => is_node(count, expression),
        NodeView::Function(function) => {
            &&& are_strings(constants, function.args)
            &&& forall|id: ConstantIndex|
                function.accessed_non_locals.contains(id) ==> #[trigger] is_string(constants, id)
            &&& forall|k: int|
                0 <= k < function.args.len() ==> !function.accessed_non_locals.contains(
                    #[trigger] function.args[k],
                )
            &&& forall|id: ConstantIndex| #[trigger] function.accessed_non_locals.count(id) <= 1
            &&& function.args.to_set().len() <= function.local_count
            &&& is_node(count, function.body)
        },
        NodeView::Call { function, args } => {
            &&& is_node(count, function)
            &&& are_nodes(count, args)
            &&& args.len() > 0
        },
        NodeView::Import { module, items } => {
            &&& are_strings(constants, module)
            &&& are_strings(constants, items)
            &&& module.len() > 0
        },
        NodeView::Assign { target, expression, .. } => {
            &&& is_target(nodes, target.target_index)
            &&& is_node(count, expression)
        },
        NodeView::MultiAssign { targets, expressions } => {
            &&& are_targets(nodes, targets)
            &&& targets.len() >= 2
            &&& is_node(count, expressions)
        },
        NodeView::BinaryOp { lhs, rhs, .. } => is_node(count, lhs) && is_node(count, rhs),
        NodeView::If(ast_if) => {
            &&& is_node(count, ast_if.condition)
            &&& is_node(count, ast_if.then_node)
            &&& are_pairs(count, ast_if.else_if_blocks)
            &&& ast_if.else_node matches Some(else_node) ==> is_node(count, else_node)
        },
        NodeView::For(ast_for) => {
            &&& are_strings(constants, ast_for.args)
            &&& ast_for.args.len() > 0
            &&& are_nodes(count, ast_for.ranges)
            &&& ast_for.ranges.len() > 0
            &&& ast_for.condition matches Some(condition) ==> is_node(count, condition)
            &&& is_node(count, ast_for.body)
        },
        NodeView::While { condition, body } => is_node(count, condition) && is_node(count, body),
        NodeView::Until { condition, body } => is_node(count, condition) && is_node(count, body),
        NodeView::ReturnExpression(expression) => is_node(count, expression),
        NodeView::Debug { expression_string, expression } => {
            &&& is_string(constants, expression_string)
            &&& is_node(count, expression)
        },
        _ => true,
    }
}

/// Whether every node fits behind the nodes before it. So a tree has no cycles, and a node's parts
/// come before it.
#[verifier::opaque]
pub open spec fn is_tree(nodes: Seq<AstNodeView>, constants: Seq<ConstantView>) -> bool {
    forall|i: int|
        0 <= i < nodes.len() ==> fits(nodes.take(i), constants, (#[trigger] nodes[i]).node)
}

/// A tree stays one when a node that fits is added.
pub proof fn lemma_tree_push(
    nodes: Seq<AstNodeView>,
    constants: Seq<ConstantView>,
    node: AstNodeView,
)
    requires
        is_tree(nodes, constants),
        fits(nodes, constants, node.node),
    ensures
        is_tree(nodes.push(node), constants),
{
    reveal(is_tree);
    let more = nodes.push(node);
    assert forall|i: int| 0 <= i < more.len() implies fits(
        more.take(i),
        constants,
        (#[trigger] more[i]).node,
    ) by {
        if i < nodes.len() {
            assert(more.take(i) =~= nodes.take(i));
            assert(more[i] == nodes[i]);
        } else {
            assert(more.take(i) =~= nodes);
        }
    }
}

/// A node that fits still does when a constant is added.
proof fn lemma_fits_more_constants(
    nodes: Seq<AstNodeView>,
    constants: Seq<ConstantView>,
    constant: ConstantView,
    node: NodeView,
)
    requires
        fits(nodes, constants, node),
    ensures
        fits(nodes, constants.push(constant), node),
{
    let more = constants.push(constant);
    assert forall|index: ConstantIndex| is_string(constants, index) implies is_string(
        more,
        index,
    ) by {}
    match node {
        NodeView::Lookup(lookup) => {
            assert forall|k: int| 0 <= k < lookup.len() implies is_step(
                nodes.len() as int,
                more,
                #[trigger] lookup[k],
            ) by {
                assert(is_step(nodes.len() as int, constants, lookup[k]));
            }
        },
        _ => {},
    }
}

/// A tree stays one when a constant is added.
pub proof fn lemma_tree_more_constants(
    nodes: Seq<AstNodeView>,
    constants: Seq<ConstantView>,
    constant: ConstantView,
)
    requires
        is_tree(nodes, constants),
    ensures
        is_tree(nodes, constants.push(constant)),
{
    reveal(is_tree);
    assert forall|i: int| 0 <= i < nodes.len() implies fits(
        nodes.take(i),
        constants.push(constant),
        (#[trigger] nodes[i]).node,
    ) by {
        lemma_fits_more_constants(nodes.take(i), constants, constant, nodes[i].node);
    }
}

} // verus!

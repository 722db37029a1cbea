//! The nodes of a syntax tree.

use vstd::multiset::Multiset;
use vstd::prelude::*;

verus! {

/// The place of a node in an [`crate::ast::Ast`].
pub type AstIndex = u32;

/// The place of a constant in a [`crate::constant_pool::ConstantPool`].
pub type ConstantIndex = u32;

/// The operations of a [`Node::BinaryOp`].
#[derive(Clone, Copy, Debug, PartialEq, Eq, Structural)]
pub enum AstOp {
    Add,
    Subtract,
    Multiply,
    Divide,
    Modulo,
    Equal,
    NotEqual,
    Less,
    LessOrEqual,
    Greater,
    GreaterOrEqual,
    And,
    Or,
}

/// The operations of a [`Node::Assign`].
#[derive(Clone, Copy, Debug, PartialEq, Eq, Structural)]
pub enum AssignOp {
    Equal,
    Add,
    Subtract,
    Multiply,
    Divide,
    Modulo,
}

/// Where an assigned value can be seen from.
#[derive(Clone, Copy, Debug, PartialEq, Eq, Structural)]
pub enum Scope {
    Local,
    Global,
}

#[derive(Clone, Copy, Debug, PartialEq, Eq, Structural)]
pub struct AssignTarget {
    pub target_index: AstIndex,
    pub scope: Scope,
}

/// A step of a lookup, as in `id.key[index](args)`.
#[derive(Clone, Debug, PartialEq)]
pub enum LookupNode {
    Id(ConstantIndex),
    Index(AstIndex),
    Call(Vec<AstIndex>),
}

#[derive(Clone, Debug, PartialEq)]
pub struct Function {
    pub args: Vec<ConstantIndex>,
    pub local_count: usize,
    /// The ids that the function reads from the scopes around it, in no particular order.
    pub accessed_non_locals: Vec<ConstantIndex>,
    pub body: AstIndex,
    /// Whether the function's first argument is `self`.
    pub is_instance_function: bool,
}

#[derive(Clone, Debug, PartialEq)]
pub struct AstIf {
    pub condition: AstIndex,
    pub then_node: AstIndex,
    /// Pairs of a condition and the block that it guards.
    pub else_if_blocks: Vec<(AstIndex, AstIndex)>,
    pub else_node: Option<AstIndex>,
}

#[derive(Clone, Debug, PartialEq)]
pub struct AstFor {
    pub args: Vec<ConstantIndex>,
    pub ranges: Vec<AstIndex>,
    pub condition: Option<AstIndex>,
    pub body: AstIndex,
}

/// A part of a script.
#[derive(Clone, Debug, PartialEq)]
pub enum Node {
    Empty,
    BoolTrue,
    BoolFalse,
    Number0,
    Number1,
    Number(ConstantIndex),
    Str(ConstantIndex),
    Id(ConstantIndex),
    Lookup(Vec<LookupNode>),
    Num2(Vec<AstIndex>),
    Num4(Vec<AstIndex>),
    List(Vec<AstIndex>),
    /// Pairs of a key and the node of its value.
    MapLiteral(Vec<(ConstantIndex, AstIndex)>),
    Range { start: AstIndex, end: AstIndex, inclusive: bool },
    RangeFrom { start: AstIndex },
    RangeTo { end: AstIndex, inclusive: bool },
    RangeFull,
    MainBlock { body: Vec<AstIndex>, local_count: usize },
    Block(Vec<AstIndex>),
    Expressions(Vec<AstIndex>),
    CopyExpression(AstIndex),
    Negate(AstIndex),
    Function(Function),
    Call { function: AstIndex, args: Vec<AstIndex> },
    Import { module: Vec<ConstantIndex>, items: Vec<ConstantIndex> },
    Assign { target: AssignTarget, op: AssignOp, expression: AstIndex },
    MultiAssign { targets: Vec<AssignTarget>, expressions: AstIndex },
    BinaryOp { op: AstOp, lhs: AstIndex, rhs: AstIndex },
    If(AstIf),
    For(AstFor),
    While { condition: AstIndex, body: AstIndex },
    Until { condition: AstIndex, body: AstIndex },
    Break,
    Continue,
    Return,
    ReturnExpression(AstIndex),
    Debug { expression_string: ConstantIndex, expression: AstIndex },
}

/// What a [`LookupNode`] holds.
pub enum LookupNodeView {
    Id(ConstantIndex),
    Index(AstIndex),
    Call(Seq<AstIndex>),
}

impl View for LookupNode {
    type V = LookupNodeView;

    open spec fn view(&self) -> LookupNodeView {
        match *self {
            LookupNode::Id(id) => LookupNodeView::Id(id),
            LookupNode::Index(index) => LookupNodeView::Index(index),
            LookupNode::Call(args) => LookupNodeView::Call(args@),
        }
    }
}

/// What the steps of a lookup hold.
pub open spec fn lookup_view(lookup: Seq<LookupNode>) -> Seq<LookupNodeView> {
    lookup.map_values(|step: LookupNode| step@)
}

/// One more step of a lookup is one more step of its view.
pub proof fn lemma_lookup_push(lookup: Seq<LookupNode>, step: LookupNode)
    ensures
        lookup_view(lookup.push(step)) == lookup_view(lookup).push(step@),
{
    assert(lookup_view(lookup.push(step)) =~= lookup_view(lookup).push(step@));
}

/// What a [`Function`] holds.
pub struct FunctionView {
    pub args: Seq<ConstantIndex>,
    pub local_count: usize,
    pub accessed_non_locals: Multiset<ConstantIndex>,
    pub body: AstIndex,
    pub is_instance_function: bool,
}

/// What an [`AstIf`] holds.
pub struct AstIfView {
    pub condition: AstIndex,
    pub then_node: AstIndex,
    pub else_if_blocks: Seq<(AstIndex, AstIndex)>,
    pub else_node: Option<AstIndex>,
}

/// What an [`AstFor`] holds.
pub struct AstForView {
    pub args: Seq<ConstantIndex>,
    pub ranges: Seq<AstIndex>,
    pub condition: Option<AstIndex>,
    pub body: AstIndex,
}

/// What a [`Node`] holds.
pub enum NodeView {
    Empty,
    BoolTrue,
    BoolFalse,
    Number0,
    Number1,
    Number(ConstantIndex),
    Str(ConstantIndex),
    Id(ConstantIndex),
    Lookup(Seq<LookupNodeView>),
    Num2(Seq<AstIndex>),
    Num4(Seq<AstIndex>),
    List(Seq<AstIndex>),
    MapLiteral(Seq<(ConstantIndex, AstIndex)>),
    Range { start: AstIndex, end: AstIndex, inclusive: bool },
    RangeFrom { start: AstIndex },
    RangeTo { end: AstIndex, inclusive: bool },
    RangeFull,
    MainBlock { body: Seq<AstIndex>, local_count: usize },
    Block(Seq<AstIndex>),
    Expressions(Seq<AstIndex>),
    CopyExpression(AstIndex),
    Negate(AstIndex),
    Function(FunctionView),
    Call { function: AstIndex, args: Seq<AstIndex> },
    Import { module: Seq<ConstantIndex>, items: Seq<ConstantIndex> },
    Assign { target: AssignTarget, op: AssignOp, expression: AstIndex },
    MultiAssign { targets: Seq<AssignTarget>, expressions: AstIndex },
    BinaryOp { op: AstOp, lhs: AstIndex, rhs: AstIndex },
    If(AstIfView),
    For(AstForView),
    While { condition: AstIndex, body: AstIndex },
    Until { condition: AstIndex, body: AstIndex },
    Break,
    Continue,
    Return,
    ReturnExpression(AstIndex),
    Debug { expression_string: ConstantIndex, expression: AstIndex },
}

impl View for Node {
    type V = NodeView;

    open spec fn view(&self) -> NodeView {
        match *self {
            Node::Empty => NodeView::Empty,
            Node::BoolTrue => NodeView::BoolTrue,
            Node::BoolFalse => NodeView::BoolFalse,
            Node::Number0 => NodeView::Number0,
            Node::Number1 => NodeView::Number1,
            Node::Number(constant) => NodeView::Number(constant),
            Node::Str(constant) => NodeView::Str(constant),
            Node::Id(constant) => NodeView::Id(constant),
            Node::Lookup(lookup) => NodeView::Lookup(lookup_view(lookup@)),
            Node::Num2(args) => NodeView::Num2(args@),
            Node::Num4(args) => NodeView::Num4(args@),
            Node::List(entries) => NodeView::List(entries@),
            Node::MapLiteral(entries) => NodeView::MapLiteral(entries@),
            Node::Range { start, end, inclusive } => NodeView::Range { start, end, inclusive },
            Node::RangeFrom { start } => NodeView::RangeFrom { start },
            Node::RangeTo { end, inclusive } => NodeView::RangeTo { end, inclusive },
            Node::RangeFull => NodeView::RangeFull,
            Node::MainBlock { body, local_count } => NodeView::MainBlock {
                body: body@,
                local_count,
            },
            Node::Block(body) => NodeView::Block(body@),
            Node::Expressions(expressions) => NodeView::Expressions(expressions@),
            Node::CopyExpression(expression) => NodeView::CopyExpression(expression),
            Node::Negate(expression) => NodeView::Negate(expression),
            Node::Function(function) => NodeView::Function(
                FunctionView {
                    args: function.args@,
                    local_count: function.local_count,
                    accessed_non_locals: function.accessed_non_locals@.to_multiset(),
                    body: function.body,
                    is_instance_function: function.is_instance_function,
                },
            ),
            Node::Call { function, args } => NodeView::Call { function, args: args@ },
            Node::Import { module, items } => NodeView::Import { module: module@, items: items@ },
            Node::Assign { target, op, expression } => NodeView::Assign { target, op, expression },
            Node::MultiAssign { targets, expressions } => NodeView::MultiAssign {
                targets: targets@,
                expressions,
            },
            Node::BinaryOp { op, lhs, rhs } => NodeView::BinaryOp { op, lhs, rhs },
            Node::If(ast_if) => NodeView::If(
                AstIfView {
                    condition: ast_if.condition,
                    then_node: ast_if.then_node,
                    else_if_blocks: ast_if.else_if_blocks@,
                    else_node: ast_if.else_node,
                },
            ),
            Node::For(ast_for) => NodeView::For(
                AstForView {
                    args: ast_for.args@,
                    ranges: ast_for.ranges@,
                    condition: ast_for.condition,
                    body: ast_for.body,
                },
            ),
            Node::While { condition, body } => NodeView::While { condition, body },
            Node::Until { condition, body } => NodeView::Until { condition, body },
            Node::Break => NodeView::Break,
            Node::Continue => NodeView::Continue,
            Node::Return => NodeView::Return,
            Node::ReturnExpression(expression) => NodeView::ReturnExpression(expression),
            Node::Debug { expression_string, expression } => NodeView::Debug {
                expression_string,
                expression,
            },
        }
    }
}

} // verus!

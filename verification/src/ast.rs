//! The syntax tree of a script.

use crate::error::{self, ErrorType, InternalError, ParserError};
use crate::node::{AstIndex, Node, NodeView};
use crate::token::Span;
use vstd::prelude::*;

verus! {

/// A node, and the source that it was read from.
#[derive(Clone, Debug, PartialEq)]
pub struct AstNode {
    pub node: Node,
    pub span: Span,
}

/// What an [`AstNode`] holds.
pub struct AstNodeView {
    pub node: NodeView,
    pub span: Span,
}

impl View for AstNode {
    type V = AstNodeView;

    open spec fn view(&self) -> AstNodeView {
        AstNodeView { node: self.node@, span: self.span }
    }
}

/// A syntax tree: its nodes in the order in which they were added, and the index of the node that
/// a script starts at.
#[derive(Debug)]
pub struct Ast {
    nodes: Vec<AstNode>,
    entry_point: AstIndex,
}

impl View for Ast {
    type V = Seq<AstNodeView>;

    closed spec fn view(&self) -> Seq<AstNodeView> {
        self.nodes@.map_values(|node: AstNode| node@)
    }
}

impl Ast {
    /// The index of the node that the script starts at.
    pub closed spec fn spec_entry_point(&self) -> AstIndex {
        self.entry_point
    }

    /// A tree without nodes, with room for some.
    pub fn with_capacity(capacity: usize) -> (ast: Self)
        ensures
            ast@ == Seq::<AstNodeView>::empty(),
            ast.spec_entry_point() == 0,
    {
        let ast = Ast { nodes: Vec::with_capacity(capacity), entry_point: 0 };
        assert(ast@ =~= Seq::<AstNodeView>::empty());
        ast
    }

    /// Adds a node and returns its index, if the tree has an index left for it.
    pub fn push(&mut self, node: Node, span: Span) -> (r: Result<AstIndex, ParserError>)
        ensures
            final(self).spec_entry_point() == old(self).spec_entry_point(),
            old(self)@.len() <= u32::MAX ==> {
                &&& r == Ok::<AstIndex, ParserError>(old(self)@.len() as u32)
                &&& final(self)@ == old(self)@.push(AstNodeView { node: node@, span })
            },
            old(self)@.len() > u32::MAX ==> {
                &&& r == Err::<AstIndex, ParserError>(
                    error::internal_error_at(InternalError::AstCapacityOverflow, span),
                )
                &&& final(self)@ == old(self)@
            },
    {
        let index = self.nodes.len();
        if index as u64 > u32::MAX as u64 {
            return Err(
                ParserError {
                    error: ErrorType::InternalError(InternalError::AstCapacityOverflow),
                    span,
                },
            );
        }
        self.nodes.push(AstNode { node, span });
        assert(self@ =~= old(self)@.push(AstNodeView { node: node@, span }));
        Ok(index as u32)
    }

    /// The node with the given index.
    pub fn node(&self, index: AstIndex) -> (node: &AstNode)
        requires
            index < self@.len(),
        ensures
            node@ == self@[index as int],
    {
        &self.nodes[index as usize]
    }

    /// All nodes, in the order in which they were added.
    pub fn nodes(&self) -> (nodes: &Vec<AstNode>)
        ensures
            nodes@.map_values(|node: AstNode| node@) == self@,
    {
        &self.nodes
    }

    /// The index of the node that the script starts at.
    pub fn entry_point(&self) -> (index: AstIndex)
        ensures
            index == self.spec_entry_point(),
    {
        self.entry_point
    }

    /// Makes the node with the given index the one that the script starts at.
    pub fn set_entry_point(&mut self, index: AstIndex)
        ensures
            final(self)@ == old(self)@,
            final(self).spec_entry_point() == index,
    {
        self.entry_point = index;
    }
}

} // verus!

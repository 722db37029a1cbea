//! Scripts, and what has been read of them.

use crate::ast::AstNodeView;
use crate::constant_pool::{self, ConstantView};
use crate::error::{self, InternalError, ParserError, SyntaxError};
use crate::frame::FrameView;
use crate::node::{AstIndex, ConstantIndex, NodeView};
use crate::token::{self, LexemeView, Span, Token};
use crate::tree;
use vstd::prelude::*;

verus! {

/// A script: its tokens, and whether assignments at its top level are exported.
pub struct Script {
    pub tokens: Seq<LexemeView>,
    pub export_all_top_level: bool,
}

/// What has been read of a script.
pub struct State {
    /// The number of tokens that have been taken.
    pub at: int,
    pub nodes: Seq<AstNodeView>,
    pub constants: Seq<ConstantView>,
    /// The scopes that are open, the innermost last.
    pub frames: Seq<FrameView>,
}

/// What reading a form leads to: a state and a result, or an error.
pub type Outcome<T> = Result<(State, T), ParserError>;

// Tokens

/// Tokens that only separate others on a line.
pub open spec fn is_space(token: Token) -> bool {
    token == Token::Whitespace || token == Token::NewLineSkipped
}

/// Tokens that mean nothing between lines.
pub open spec fn is_filler(token: Token) -> bool {
    ||| is_space(token)
    ||| token == Token::NewLine
    ||| token == Token::NewLineIndented
    ||| token == Token::CommentMulti
    ||| token == Token::CommentSingle
}

impl State {
    /// The state at another place.
    pub open spec fn moved(self, at: int) -> State {
        State { at, ..self }
    }

    /// The innermost scope.
    pub open spec fn top(self) -> FrameView {
        self.frames.last()
    }

    /// The state with another innermost scope.
    pub open spec fn with_top(self, frame: FrameView) -> State {
        State { frames: self.frames.drop_last().push(frame), ..self }
    }
}

impl Script {
    /// The token at a place, unless the script ends there.
    pub open spec fn token_at(self, at: int) -> Option<Token> {
        if 0 <= at < self.tokens.len() {
            Some(self.tokens[at].token)
        } else {
            None
        }
    }

    /// The next token.
    pub open spec fn next(self, s: State) -> Option<Token> {
        self.token_at(s.at)
    }

    /// The first place from `at` on that is not a space.
    pub open spec fn skip_spaces(self, at: int) -> int
        decreases self.tokens.len() - at,
    {
        if 0 <= at < self.tokens.len() && is_space(self.tokens[at].token) {
            self.skip_spaces(at + 1)
        } else {
            at
        }
    }

    /// The first place from `at` on that is not a filler.
    pub open spec fn skip_fillers(self, at: int) -> int
        decreases self.tokens.len() - at,
    {
        if 0 <= at < self.tokens.len() && is_filler(self.tokens[at].token) {
            self.skip_fillers(at + 1)
        } else {
            at
        }
    }

    /// The state with one more token taken, if there is one.
    pub open spec fn taken(self, s: State) -> State {
        if 0 <= s.at < self.tokens.len() {
            s.moved(s.at + 1)
        } else {
            s
        }
    }

    /// The state behind the spaces.
    pub open spec fn spaced(self, s: State) -> State {
        s.moved(self.skip_spaces(s.at))
    }

    /// The state behind the fillers.
    pub open spec fn filled(self, s: State) -> State {
        s.moved(self.skip_fillers(s.at))
    }

    /// Where the last token that was taken stands.
    pub open spec fn span(self, s: State) -> Span {
        if 0 < s.at <= self.tokens.len() {
            self.tokens[s.at - 1].span
        } else {
            token::first_span()
        }
    }

    /// The line that the last token ends on.
    pub open spec fn line(self, s: State) -> u32 {
        self.span(s).end.line
    }

    /// The text of the last token.
    pub open spec fn text(self, s: State) -> Seq<char> {
        self.tokens[s.at - 1].text
    }

    /// The indentation at the last token.
    pub open spec fn indent(self, s: State) -> usize {
        if 0 < s.at <= self.tokens.len() {
            self.tokens[s.at - 1].indent
        } else {
            0
        }
    }

    /// The indentation at the next token.
    pub open spec fn next_indent(self, s: State) -> usize {
        if 0 <= s.at < self.tokens.len() {
            self.tokens[s.at].indent
        } else {
            self.indent(s)
        }
    }

    /// The text of the tokens from one place up to another.
    pub open spec fn text_between(self, from: int, to: int) -> Seq<char>
        decreases to - from,
    {
        if from < to {
            self.text_between(from, to - 1) + self.tokens[to - 1].text
        } else {
            Seq::empty()
        }
    }

    /// Whether a state is at a place of the script, with no more constants than tokens before that
    /// place, and there are no more tokens than can be numbered.
    pub open spec fn is_reached(self, s: State) -> bool {
        s.constants.len() <= s.at <= self.tokens.len() <= u32::MAX
    }

    /// The number of tokens that are left.
    pub open spec fn left(self, s: State) -> nat {
        if s.at <= self.tokens.len() {
            (self.tokens.len() - s.at) as nat
        } else {
            0
        }
    }
}

// Outcomes

impl State {
    /// A node is added, if there is an index left for it.
    pub open spec fn add_spanned_node(self, node: NodeView, span: Span) -> Outcome<AstIndex> {
        if self.nodes.len() <= u32::MAX {
            Ok(
                (
                    State { nodes: self.nodes.push(AstNodeView { node, span }), ..self },
                    self.nodes.len() as AstIndex,
                ),
            )
        } else {
            Err(error::internal_error_at(InternalError::AstCapacityOverflow, span))
        }
    }

    /// A constant is added, unless it is there already.
    pub open spec fn add_constant(self, constant: ConstantView) -> (State, ConstantIndex) {
        (
            State { constants: constant_pool::constants_with(self.constants, constant), ..self },
            constant_pool::constant_index(self.constants, constant) as ConstantIndex,
        )
    }
}

impl Script {
    /// A node is added for what ends at the last token.
    pub open spec fn add_node(self, s: State, node: NodeView) -> Outcome<AstIndex> {
        s.add_spanned_node(node, self.span(s))
    }

    /// The script is refused for a fault at the last token.
    pub open spec fn refused<T>(self, s: State, fault: SyntaxError) -> Outcome<T> {
        Err(error::syntax_error_at(fault, self.span(s)))
    }

    /// Reading fails at the last token.
    pub open spec fn failed<T>(self, s: State, failure: InternalError) -> Outcome<T> {
        Err(error::internal_error_at(failure, self.span(s)))
    }

    /// A script is only ever read forwards: an outcome that lies before the place it was read from
    /// stands for nothing.
    pub open spec fn onward<T>(self, s: State, outcome: Outcome<T>) -> Outcome<T> {
        match outcome {
            Ok((s1, _)) => if self.left(s1) <= self.left(s) {
                outcome
            } else {
                Err(arbitrary())
            },
            Err(_) => outcome,
        }
    }

    /// As [`Script::onward`], for a form that takes at least one token.
    pub open spec fn past<T>(self, s: State, outcome: Outcome<T>) -> Outcome<T> {
        match outcome {
            Ok((s1, _)) => if self.left(s1) < self.left(s) {
                outcome
            } else {
                Err(arbitrary())
            },
            Err(_) => outcome,
        }
    }

    /// As [`Script::onward`], for a form that takes at least one token where it is present.
    pub open spec fn forward(self, s: State, outcome: Outcome<Option<AstIndex>>) -> Outcome<
        Option<AstIndex>,
    > {
        match outcome {
            Ok((s1, node)) => if self.left(s1) < self.left(s) || (node is None && self.left(s1)
                == self.left(s)) {
                outcome
            } else {
                Err(arbitrary())
            },
            Err(_) => outcome,
        }
    }

    /// An id, or a placeholder where one is allowed.
    #[verifier::opaque]
    pub open spec fn id(self, s: State, allow_placeholders: bool) -> (
        State,
        Option<ConstantIndex>,
    ) {
        let s1 = self.spaced(s);
        if self.next(s1) == Some(Token::Id) || (allow_placeholders && self.next(s1) == Some(
            Token::Placeholder,
        )) {
            let s2 = self.taken(s1);
            let (s3, constant) = s2.add_constant(ConstantView::Str(self.text(s2)));
            (s3, Some(constant))
        } else {
            (s1, None)
        }
    }
}

// Places

/// Skipping spaces leads forwards.
pub broadcast proof fn lemma_skip_spaces(e: Script, at: int)
    ensures
        at <= #[trigger] e.skip_spaces(at),
        at <= e.tokens.len() ==> e.skip_spaces(at) <= e.tokens.len(),
        0 <= e.skip_spaces(at) < e.tokens.len() ==> !is_space(e.tokens[e.skip_spaces(at)].token),
    decreases e.tokens.len() - at,
{
    if 0 <= at < e.tokens.len() && is_space(e.tokens[at].token) {
        lemma_skip_spaces(e, at + 1);
    }
}

/// Skipping fillers leads forwards.
pub broadcast proof fn lemma_skip_fillers(e: Script, at: int)
    ensures
        at <= #[trigger] e.skip_fillers(at),
        at <= e.tokens.len() ==> e.skip_fillers(at) <= e.tokens.len(),
        0 <= e.skip_fillers(at) < e.tokens.len() ==> !is_filler(e.tokens[e.skip_fillers(at)].token),
    decreases e.tokens.len() - at,
{
    if 0 <= at < e.tokens.len() && is_filler(e.tokens[at].token) {
        lemma_skip_fillers(e, at + 1);
    }
}

/// An id leads forwards.
pub broadcast proof fn lemma_id(e: Script, s: State, allow_placeholders: bool)
    ensures
        e.left((#[trigger] e.id(s, allow_placeholders)).0) <= e.left(s),
        e.id(s, allow_placeholders).1 is Some ==> e.left(e.id(s, allow_placeholders).0) < e.left(
            s,
        ),
{
    reveal(Script::id);
    lemma_skip_spaces(e, s.at);
}

pub broadcast group group_places {
    lemma_skip_spaces,
    lemma_skip_fillers,
    lemma_id,
}

// Reading on

/// Whether one state can be reached from another by reading on: nodes and constants are only added,
/// the scopes that were open are open still, and what was assigned in them has stayed local.
#[verifier::opaque]
pub open spec fn extends(before: State, after: State) -> bool {
    &&& before.at <= after.at
    &&& before.nodes.len() <= after.nodes.len()
    &&& forall|i: int|
        0 <= i < before.nodes.len() ==> #[trigger] after.nodes[i] == before.nodes[i]
    &&& before.constants.len() <= after.constants.len()
    &&& forall|i: int|
        0 <= i < before.constants.len() ==> #[trigger] after.constants[i] == before.constants[i]
    &&& before.frames.len() == after.frames.len()
    &&& forall|i: int|
        0 <= i < before.frames.len() ==> before.frames[i].grows_to(#[trigger] after.frames[i])
}

/// Where nothing was read, nothing changed.
pub broadcast proof fn lemma_extends_refl(a: State)
    ensures
        #[trigger] extends(a, a),
{
    reveal(extends);
}

/// Reading on twice is reading on.
pub broadcast proof fn lemma_extends_trans(a: State, b: State, c: State)
    requires
        #[trigger] extends(a, b),
        #[trigger] extends(b, c),
    ensures
        extends(a, c),
{
    reveal(extends);
}

/// What was a string constant is still the same one.
pub broadcast proof fn lemma_string_stays(a: State, b: State, id: ConstantIndex)
    requires
        #[trigger] extends(a, b),
        #[trigger] tree::is_string(a.constants, id),
    ensures
        tree::is_string(b.constants, id),
{
    reveal(extends);
}

/// What was a node is still the same one.
pub broadcast proof fn lemma_node_stays(a: State, b: State, node: AstIndex)
    requires
        #[trigger] extends(a, b),
        node < a.nodes.len(),
    ensures
        node < b.nodes.len(),
        #[trigger] b.nodes[node as int] == a.nodes[node as int],
{
    reveal(extends);
}

pub broadcast group group_extends {
    lemma_extends_refl,
    lemma_extends_trans,
    lemma_string_stays,
    lemma_node_stays,
}

} // verus!

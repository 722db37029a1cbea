//! Reading scripts: where a script stands, and the steps that every form is read with.

use crate::ast::{Ast, AstNode, AstNodeView};
use crate::constant_pool::{ConstantPool, ConstantView};
use crate::error::{self, ErrorType, InternalError, ParserError, SyntaxError};
use crate::frame::{self, Frame, FrameView};
use crate::grammar;
use crate::lexer;
use crate::node::{AstIndex, ConstantIndex, Node, NodeView};
use crate::script::{self, Outcome, Script, State};
use crate::text;
use crate::token::{self, Lexeme, LexemeView, Span, Token};
use crate::tree;
use vstd::prelude::*;
use vstd::string::*;
use vstd::utf8::encode_utf8;

verus! {

broadcast use {crate::script::group_places, crate::script::group_extends};

/// How a script is read.
#[derive(Clone, Copy, Debug, PartialEq, Eq, Structural)]
pub struct Options {
    /// Whether assignments at the top level of a script are exported.
    pub export_all_top_level: bool,
}

impl Default for Options {
    fn default() -> (options: Self)
        ensures
            options == (Options { export_all_top_level: false }),
    {
        Options { export_all_top_level: false }
    }
}

/// A script that is being read.
pub struct Parser<'source> {
    ast: Ast,
    constants: ConstantPool,
    lexemes: &'source Vec<Lexeme>,
    /// The number of lexemes that have been taken.
    position: usize,
    frame_stack: Vec<Frame>,
    options: Options,
}

/// What frames hold.
pub open spec fn frame_views(frames: Seq<Frame>) -> Seq<FrameView> {
    frames.map_values(|frame: Frame| frame@)
}

/// What holds of every script that is not refused. All of it has been read, and none of its tokens
/// is an error. Its nodes make a tree, with the main block as the last node and the only one of its
/// kind. It has every constant once. The scopes of its functions are closed.
pub open spec fn is_whole(script: Script, state: State, main_block: AstIndex) -> bool {
    &&& state.at == script.tokens.len()
    &&& forall|i: int|
        0 <= i < script.tokens.len() ==> (#[trigger] script.tokens[i]).token != Token::Error
    &&& tree::is_tree(state.nodes, state.constants)
    &&& main_block == state.nodes.len() - 1
    &&& forall|i: int|
        0 <= i < state.nodes.len() ==> ((#[trigger] state.nodes[i]).node is MainBlock <==> i
            == main_block)
    &&& state.constants.no_duplicates()
    &&& state.frames.len() == 1
}

/// Whether a result is what a script is read as: its tree and its constants, or the error that it
/// is refused with, which is one that can occur.
pub open spec fn is_reading(
    script: Script,
    r: Result<(Ast, ConstantPool), ParserError>,
) -> bool {
    match (grammar::main_block(script), r) {
        (Ok((state, main_block)), Ok((ast, constants))) => {
            &&& ast@ == state.nodes
            &&& ast.spec_entry_point() == main_block
            &&& constants@ == state.constants
            &&& constants.wf()
            &&& is_whole(script, state, main_block)
        },
        (Err(expected), Err(error)) => error == expected && error::is_possible(error),
        _ => false,
    }
}

/// Whether there is a token that only separates others on a line.
fn is_space(token: Option<Token>) -> (r: bool)
    ensures
        r == (token matches Some(token) && script::is_space(token)),
{
    matches!(token, Some(Token::Whitespace) | Some(Token::NewLineSkipped))
}

/// Whether there is a token that means nothing between lines.
fn is_filler(token: Option<Token>) -> (r: bool)
    ensures
        r == (token matches Some(token) && script::is_filler(token)),
{
    matches!(
        token,
        Some(Token::Whitespace)
        | Some(Token::NewLine)
        | Some(Token::NewLineIndented)
        | Some(Token::NewLineSkipped)
        | Some(Token::CommentMulti)
        | Some(Token::CommentSingle)
    )
}

impl<'source> Parser<'source> {
    /// The script that is being read.
    pub closed spec fn script(&self) -> Script {
        Script {
            tokens: lexer::lexeme_views(self.lexemes@),
            export_all_top_level: self.options.export_all_top_level,
        }
    }

    /// What has been read.
    pub closed spec fn state(&self) -> State {
        State {
            at: self.position as int,
            nodes: self.ast@,
            constants: self.constants@,
            frames: frame_views(self.frame_stack@),
        }
    }

    /// What holds while a script is being read: there is a scope, and the ids of every scope are
    /// names; the nodes make a tree, without a main block so far; there are no more constants than
    /// tokens that were taken, and no token that was taken is an error.
    pub closed spec fn wf(&self) -> bool {
        &&& self.constants.wf()
        &&& self.position <= self.lexemes@.len() <= u32::MAX
        &&& lexer::strings_are_quoted(self.script().tokens)
        &&& self.frame_stack@.len() > 0
        &&& self.constants@.len() <= self.position
        &&& tree::is_tree(self.ast@, self.constants@)
        &&& forall|i: int|
            0 <= i < self.frame_stack@.len() ==> (
            #[trigger] self.frame_stack@[i])@.accesses_within(self.position as nat)
        &&& forall|i: int|
            0 <= i < self.frame_stack@.len() ==> (
            #[trigger] self.frame_stack@[i])@.has_names(self.constants@)
        &&& forall|i: int|
            0 <= i < self.ast@.len() ==> !((#[trigger] self.ast@[i]).node is MainBlock)
        &&& forall|i: int|
            0 <= i < self.position ==> (#[trigger] self.lexemes@[i]).token != Token::Error
    }

    /// The number of tokens that are left.
    pub open spec fn left(&self) -> nat {
        self.script().left(self.state())
    }

    /// Whether reading on leads from here to `next`.
    pub open spec fn leads_to(&self, next: &Parser<'source>) -> bool {
        &&& next.wf()
        &&& next.script() == self.script()
        &&& script::extends(self.state(), next.state())
        &&& self.state().at <= next.state().at
        &&& self.state().nodes.len() <= next.state().nodes.len()
        &&& next.left() <= self.left()
        &&& next.state().constants.len() - self.state().constants.len() <= next.state().at
            - self.state().at
    }

    /// What reading led to.
    pub open spec fn outcome<T>(&self, r: Result<T, ParserError>) -> Outcome<T> {
        match r {
            Ok(value) => Ok((self.state(), value)),
            Err(error) => Err(error),
        }
    }

    /// Whether reading on from here leads to `next` with the given outcome. Where the form that is
    /// read is called for, an error is one that can occur.
    pub open spec fn attempts<T>(
        &self,
        next: &Parser<'source>,
        r: Result<T, ParserError>,
        outcome: Outcome<T>,
        called_for: bool,
    ) -> bool {
        &&& next.outcome(r) == outcome
        &&& r is Ok ==> self.leads_to(next)
        &&& called_for ==> (r matches Err(error) ==> error::is_possible(error))
    }

    /// As [`Parser::attempts`], for a form that is called for.
    pub open spec fn reads<T>(
        &self,
        next: &Parser<'source>,
        r: Result<T, ParserError>,
        outcome: Outcome<T>,
    ) -> bool {
        self.attempts(next, r, outcome, true)
    }

    /// As [`Parser::attempts`], for a form that takes at least one token and makes a node where it
    /// is present.
    pub open spec fn attempts_form(
        &self,
        next: &Parser<'source>,
        r: Result<Option<AstIndex>, ParserError>,
        outcome: Outcome<Option<AstIndex>>,
        called_for: bool,
    ) -> bool {
        &&& self.attempts(next, r, outcome, called_for)
        &&& r matches Ok(Some(node)) ==> node < next.state().nodes.len() && next.left()
            < self.left()
    }

    /// As [`Parser::attempts_form`], for a form that is called for.
    pub open spec fn reads_form(
        &self,
        next: &Parser<'source>,
        r: Result<Option<AstIndex>, ParserError>,
        outcome: Outcome<Option<AstIndex>>,
    ) -> bool {
        self.attempts_form(next, r, outcome, true)
    }

    /// As [`Parser::attempts`], for a form that makes a node.
    pub open spec fn attempts_node(
        &self,
        next: &Parser<'source>,
        r: Result<AstIndex, ParserError>,
        outcome: Outcome<AstIndex>,
        called_for: bool,
    ) -> bool {
        &&& self.attempts(next, r, outcome, called_for)
        &&& r matches Ok(node) ==> node < next.state().nodes.len()
    }

    /// As [`Parser::attempts_node`], for a form that is called for.
    pub open spec fn reads_node(
        &self,
        next: &Parser<'source>,
        r: Result<AstIndex, ParserError>,
        outcome: Outcome<AstIndex>,
    ) -> bool {
        self.attempts_node(next, r, outcome, true)
    }

    /// As [`Parser::attempts`], for a form that makes a list.
    pub open spec fn attempts_list<T>(
        &self,
        next: &Parser<'source>,
        r: Result<Vec<T>, ParserError>,
        outcome: Outcome<Seq<T>>,
        called_for: bool,
    ) -> bool {
        &&& outcome == match r {
            Ok(list) => Ok((next.state(), list@)),
            Err(error) => Err(error),
        }
        &&& r is Ok ==> self.leads_to(next)
        &&& called_for ==> (r matches Err(error) ==> error::is_possible(error))
    }

    /// As [`Parser::attempts_list`], for a form that is called for.
    pub open spec fn reads_list<T>(
        &self,
        next: &Parser<'source>,
        r: Result<Vec<T>, ParserError>,
        outcome: Outcome<Seq<T>>,
    ) -> bool {
        self.attempts_list(next, r, outcome, true)
    }

    /// Whether the indices are those of nodes that have been read.
    pub open spec fn has_nodes(&self, indices: Seq<AstIndex>) -> bool {
        tree::are_nodes(self.state().nodes.len() as int, indices)
    }

    // Scripts

    /// Reads a source. `read_number` gives the bits of the double precision number that a number
    /// literal stands for, if it stands for one.
    pub fn parse<F: Fn(&str) -> Option<u64>>(
        source: &str,
        options: Options,
        read_number: F,
    ) -> (r: Result<(Ast, ConstantPool), ParserError>)
        requires
            encode_utf8(source@).len() < u32::MAX,
            forall|literal: &str| call_requires(read_number, (literal,)),
        ensures
            exists|tokens: Seq<LexemeView>| #[trigger]
                lexer::are_lexemes(source@, read_number, tokens) && is_reading(
                    Script { tokens, export_all_top_level: options.export_all_top_level },
                    r,
                ),
    {
        let lexemes = lexer::lex(source, read_number);
        let r = Parser::parse_tokens(&lexemes, options);
        assert(lexer::are_lexemes(source@, read_number, lexer::lexeme_views(lexemes@)));
        r
    }

    /// Reads the tokens of a script.
    pub fn parse_tokens(lexemes: &'source Vec<Lexeme>, options: Options) -> (r: Result<
        (Ast, ConstantPool),
        ParserError,
    >)
        requires
            lexemes@.len() <= u32::MAX,
            lexer::strings_are_quoted(lexer::lexeme_views(lexemes@)),
        ensures
            is_reading(
                Script {
                    tokens: lexer::lexeme_views(lexemes@),
                    export_all_top_level: options.export_all_top_level,
                },
                r,
            ),
    {
        let mut frame_stack: Vec<Frame> = Vec::new();
        frame_stack.push(Frame::new(true, &Vec::new()));
        let mut parser = Parser {
            ast: Ast::with_capacity(lexemes.len()),
            constants: ConstantPool::new(),
            lexemes,
            position: 0,
            frame_stack,
            options,
        };
        proof {
            reveal(tree::is_tree);
            let frame = parser.frame_stack@[0]@;
            assert(Seq::<ConstantIndex>::empty().to_set() =~= Set::<ConstantIndex>::empty());
            assert(parser.state().frames =~= grammar::initial_state().frames);
        }
        let main_block = parser.parse_main_block()?;
        parser.ast.set_entry_point(main_block);
        Ok((parser.ast, parser.constants))
    }

    /// Reads the lines of a script.
    #[verifier::loop_isolation(false)]
    fn parse_main_block(&mut self) -> (r: Result<AstIndex, ParserError>)
        requires
            old(self).wf(),
            old(self).state().frames.len() == 1,
        ensures
            final(self).outcome(r) == grammar::main_block_from(
                old(self).script(),
                old(self).state(),
                Seq::empty(),
            ),
            r matches Ok(node) ==> is_whole(old(self).script(), final(self).state(), node),
            r matches Err(error) ==> error::is_possible(error),
            r is Ok ==> final(self).constants.wf(),
    {
        let mut body: Vec<AstIndex> = Vec::new();
        assert(body@ =~= Seq::<AstIndex>::empty());
        let ghost e = self.script();
        let ghost from_here = grammar::main_block_from(e, self.state(), body@);
        while self.consume_until_next_token().is_some()
            invariant
                self.script() == e,
                old(self).leads_to(self),
                self.has_nodes(body@),
                grammar::main_block_from(e, self.state(), body@) == from_here,
            decreases self.left(),
        {
            reveal(grammar::main_block_from);
            match self.parse_line()? {
                Some(expression) => body.push(expression),
                None => {
                    return Err(self.syntax_error(SyntaxError::ExpectedExpressionInMainBlock));
                },
            }
        }
        reveal(grammar::main_block_from);
        proof {
            self.lemma_frames(0);
        }
        let local_count = self.frame()?.local_count();
        let node = Node::MainBlock { body, local_count };
        proof {
            reveal(script::extends);
            self.constants.lemma_distinct();
            tree::lemma_tree_push(
                self.state().nodes,
                self.state().constants,
                AstNodeView { node: node@, span: token::first_span() },
            );
        }
        self.ast.push(node, Span::default())
    }

    // Tokens

    /// The next token.
    pub(crate) fn peek_token(&self) -> (token: Option<Token>)
        requires
            self.wf(),
        ensures
            token == self.script().next(self.state()),
    {
        if self.position < self.lexemes.len() {
            Some(self.lexemes[self.position].token)
        } else {
            None
        }
    }

    /// The token behind the next `n` tokens.
    pub(crate) fn peek_token_n(&self, n: usize) -> (token: Option<Token>)
        requires
            self.wf(),
        ensures
            token == self.script().token_at(self.state().at + n),
    {
        if n < self.lexemes.len() - self.position {
            Some(self.lexemes[self.position + n].token)
        } else {
            None
        }
    }

    /// Takes the next token, if there is one.
    pub(crate) fn consume_token(&mut self) -> (token: Option<Token>)
        requires
            old(self).wf(),
        ensures
            token == old(self).script().next(old(self).state()),
            final(self).script() == old(self).script(),
            final(self).state() == old(self).script().taken(old(self).state()),
            token != Some(Token::Error) ==> old(self).leads_to(final(self)),
            token is Some ==> final(self).left() < old(self).left(),
    {
        reveal(script::extends);
        let token = self.peek_token();
        if self.position < self.lexemes.len() {
            self.position = self.position + 1;
        }
        token
    }

    /// The first token from here on that is not a filler.
    pub(crate) fn peek_until_next_token(&self) -> (token: Option<Token>)
        requires
            self.wf(),
        ensures
            token == self.script().token_at(self.script().skip_fillers(self.state().at)),
    {
        let mut n: usize = 0;
        let mut token = self.peek_token();
        while is_filler(token)
            invariant
                self.wf(),
                n <= self.left(),
                token == self.script().token_at(self.state().at + n),
                self.script().skip_fillers(self.state().at) == self.script().skip_fillers(
                    self.state().at + n,
                ),
            decreases self.left() - n,
        {
            n = n + 1;
            token = self.peek_token_n(n);
        }
        token
    }

    /// Takes the fillers, and looks at the token behind them.
    pub(crate) fn consume_until_next_token(&mut self) -> (token: Option<Token>)
        requires
            old(self).wf(),
        ensures
            final(self).state() == old(self).script().filled(old(self).state()),
            token == final(self).script().next(final(self).state()),
            old(self).leads_to(final(self)),
    {
        reveal(script::extends);
        let mut token = self.peek_token();
        while is_filler(token)
            invariant
                self.wf(),
                token == self.script().next(self.state()),
                old(self).leads_to(self),
                self.state() == old(self).state().moved(self.state().at),
                self.script().skip_fillers(old(self).state().at) == self.script().skip_fillers(
                    self.state().at,
                ),
            decreases self.left(),
        {
            self.consume_token();
            token = self.peek_token();
        }
        token
    }

    /// Takes the spaces, and looks at the token behind them.
    pub(crate) fn skip_whitespace_and_peek(&mut self) -> (token: Option<Token>)
        requires
            old(self).wf(),
        ensures
            final(self).state() == old(self).script().spaced(old(self).state()),
            token == final(self).script().next(final(self).state()),
            old(self).leads_to(final(self)),
    {
        reveal(script::extends);
        let mut token = self.peek_token();
        while is_space(token)
            invariant
                self.wf(),
                token == self.script().next(self.state()),
                old(self).leads_to(self),
                self.state() == old(self).state().moved(self.state().at),
                self.script().skip_spaces(old(self).state().at) == self.script().skip_spaces(
                    self.state().at,
                ),
            decreases self.left(),
        {
            self.consume_token();
            token = self.peek_token();
        }
        token
    }

    /// Takes the spaces and the token behind them.
    pub(crate) fn skip_whitespace_and_next(&mut self) -> (token: Option<Token>)
        requires
            old(self).wf(),
        ensures
            final(self).script() == old(self).script(),
            token == old(self).script().next(old(self).script().spaced(old(self).state())),
            final(self).state() == old(self).script().taken(
                old(self).script().spaced(old(self).state()),
            ),
            token != Some(Token::Error) ==> old(self).leads_to(final(self)),
            token is Some ==> final(self).left() < old(self).left(),
    {
        self.skip_whitespace_and_peek();
        self.consume_token()
    }

    /// Where the last token that was taken stands.
    pub(crate) fn span(&self) -> (span: Span)
        ensures
            span == self.script().span(self.state()),
    {
        if 0 < self.position && self.position <= self.lexemes.len() {
            self.lexemes[self.position - 1].span
        } else {
            Span::default()
        }
    }

    /// The line that the last token ends on.
    pub(crate) fn line_number(&self) -> (line: u32)
        ensures
            line == self.script().line(self.state()),
    {
        self.span().end.line
    }

    /// The indentation at the last token.
    pub(crate) fn current_indent(&self) -> (indent: usize)
        ensures
            indent == self.script().indent(self.state()),
    {
        if 0 < self.position && self.position <= self.lexemes.len() {
            self.lexemes[self.position - 1].indent
        } else {
            0
        }
    }

    /// The indentation at the next token.
    pub(crate) fn next_indent(&self) -> (indent: usize)
        ensures
            indent == self.script().next_indent(self.state()),
    {
        if self.position < self.lexemes.len() {
            self.lexemes[self.position].indent
        } else {
            self.current_indent()
        }
    }

    // Errors

    /// The error for a fault at the last token.
    pub(crate) fn syntax_error(&self, fault: SyntaxError) -> (error: ParserError)
        ensures
            error == error::syntax_error_at(fault, self.script().span(self.state())),
    {
        ParserError { error: ErrorType::SyntaxError(fault), span: self.span() }
    }

    /// The error for a failure at the last token.
    pub(crate) fn internal_error(&self, failure: InternalError) -> (error: ParserError)
        ensures
            error == error::internal_error_at(failure, self.script().span(self.state())),
    {
        ParserError { error: ErrorType::InternalError(failure), span: self.span() }
    }

    // Nodes

    /// The node with the given index.
    pub(crate) fn node(&self, index: AstIndex) -> (node: &AstNode)
        requires
            index < self.state().nodes.len(),
        ensures
            node@ == self.state().nodes[index as int],
    {
        self.ast.node(index)
    }

    /// Adds a node for a stretch of source.
    pub(crate) fn push_spanned_node(&mut self, node: Node, span: Span) -> (r: Result<
        AstIndex,
        ParserError,
    >)
        requires
            old(self).wf(),
            tree::fits(old(self).state().nodes, old(self).state().constants, node@),
            !(node@ is MainBlock),
        ensures
            old(self).reads_node(final(self), r, old(self).state().add_spanned_node(node@, span)),
    {
        reveal(script::extends);
        proof {
            tree::lemma_tree_push(
                self.state().nodes,
                self.state().constants,
                AstNodeView { node: node@, span },
            );
        }
        self.ast.push(node, span)
    }

    /// Adds a node for what ends at the last token.
    pub(crate) fn push_node(&mut self, node: Node) -> (r: Result<AstIndex, ParserError>)
        requires
            old(self).wf(),
            tree::fits(old(self).state().nodes, old(self).state().constants, node@),
            !(node@ is MainBlock),
        ensures
            old(self).reads_node(
                final(self),
                r,
                old(self).script().add_node(old(self).state(), node@),
            ),
    {
        let span = self.span();
        self.push_spanned_node(node, span)
    }

    /// Adds a node for what starts at a span and ends at the last token.
    pub(crate) fn push_node_with_start_span(&mut self, node: Node, start_span: Span) -> (r: Result<
        AstIndex,
        ParserError,
    >)
        requires
            old(self).wf(),
            tree::fits(old(self).state().nodes, old(self).state().constants, node@),
            !(node@ is MainBlock),
        ensures
            old(self).reads_node(
                final(self),
                r,
                old(self).state().add_spanned_node(
                    node@,
                    (Span {
                        start: start_span.start,
                        end: old(self).script().span(old(self).state()).end,
                    }),
                ),
            ),
    {
        let end = self.span().end;
        self.push_spanned_node(node, Span { start: start_span.start, end })
    }

    // Constants

    /// While a script is being read, a scope is open. There are no more constants than tokens that
    /// were taken, so that a token can become a constant for as long as there are fewer.
    pub proof fn lemma_reached(&self)
        requires
            self.wf(),
        ensures
            self.script().is_reached(self.state()),
            self.state().frames.len() > 0,
    {
    }

    /// What holds of the nodes and the scopes still does when a constant is added.
    proof fn lemma_more_constants(&self, constant: ConstantView)
        requires
            self.wf(),
        ensures
            tree::is_tree(self.ast@, self.constants@.push(constant)),
            forall|i: int|
                0 <= i < self.frame_stack@.len() ==> (
                #[trigger] self.frame_stack@[i])@.has_names(self.constants@.push(constant)),
    {
        tree::lemma_tree_more_constants(self.ast@, self.constants@, constant);
        assert forall|i: int| 0 <= i < self.frame_stack@.len() implies (
        #[trigger] self.frame_stack@[i])@.has_names(self.constants@.push(constant)) by {
            frame::lemma_more_names(self.frame_stack@[i]@, self.constants@, constant);
        }
    }

    /// Adds a string, unless it is there already.
    pub(crate) fn add_string(&mut self, text: &str) -> (constant: ConstantIndex)
        requires
            old(self).wf(),
            old(self).state().constants.len() < old(self).state().at,
        ensures
            final(self).wf(),
            final(self).script() == old(self).script(),
            (final(self).state(), constant) == old(self).state().add_constant(
                ConstantView::Str(text@),
            ),
            script::extends(old(self).state(), final(self).state()),
            final(self).state().constants.len() <= old(self).state().constants.len() + 1,
            tree::is_string(final(self).state().constants, constant),
    {
        reveal(script::extends);
        proof {
            self.lemma_more_constants(ConstantView::Str(text@));
        }
        self.constants.add_string(text) as u32
    }

    /// Adds a number, unless it is there already.
    pub(crate) fn add_number(&mut self, bits: u64) -> (constant: ConstantIndex)
        requires
            old(self).wf(),
            old(self).state().constants.len() < old(self).state().at,
        ensures
            final(self).wf(),
            final(self).script() == old(self).script(),
            (final(self).state(), constant) == old(self).state().add_constant(
                ConstantView::Number(bits),
            ),
            script::extends(old(self).state(), final(self).state()),
            final(self).state().constants.len() <= old(self).state().constants.len() + 1,
            tree::is_number(final(self).state().constants, constant),
    {
        reveal(script::extends);
        proof {
            self.lemma_more_constants(ConstantView::Number(bits));
        }
        self.constants.add_number(bits) as u32
    }

    /// Whether a constant is the given string.
    pub(crate) fn constant_is(&self, constant: ConstantIndex, text: &str) -> (r: bool)
        requires
            constant < self.state().constants.len(),
        ensures
            r == (self.state().constants[constant as int] == ConstantView::Str(text@)),
    {
        self.constants.is_string(constant as usize, text)
    }

    /// The text of the last token.
    pub(crate) fn slice(&self) -> (text: &'source str)
        requires
            self.wf(),
            self.state().at > 0,
        ensures
            text@ == self.script().text(self.state()),
            self.script().tokens[self.state().at - 1].token == Token::Str ==> text::is_quoted(
                text@,
            ),
    {
        proof {
            assert(self.script().tokens[self.position - 1] == self.lexemes@[self.position - 1]@);
        }
        let lexemes: &'source Vec<Lexeme> = self.lexemes;
        lexemes[self.position - 1].text.as_str()
    }

    /// The value of the last token.
    pub(crate) fn number(&self) -> (number: Option<u64>)
        requires
            self.wf(),
            self.state().at > 0,
        ensures
            number == self.script().tokens[self.state().at - 1].number,
    {
        self.lexemes[self.position - 1].number
    }

    /// The text of the tokens from a place up to the last token.
    pub(crate) fn text_since(&self, from: usize) -> (text: String)
        requires
            self.wf(),
            from <= self.state().at,
        ensures
            text@ == self.script().text_between(from as int, self.state().at),
    {
        let mut text = String::new();
        let mut i: usize = from;
        while i < self.position
            invariant
                self.wf(),
                from <= i <= self.position,
                text@ == self.script().text_between(from as int, i as int),
            decreases self.position - i,
        {
            text.append(self.lexemes[i].text.as_str());
            i = i + 1;
            assert(self.script().tokens[i - 1] == self.lexemes@[i - 1]@);
        }
        text
    }

    /// The number of tokens that have been taken.
    pub(crate) fn position(&self) -> (position: usize)
        ensures
            position == self.state().at,
    {
        self.position
    }

    // Scopes

    /// The constant of an id is a string.
    pub(crate) proof fn lemma_id_node(&self, index: AstIndex)
        requires
            self.wf(),
            index < self.state().nodes.len(),
        ensures
            self.state().nodes[index as int].node matches NodeView::Id(id) ==> tree::is_string(
                self.state().constants,
                id,
            ),
    {
        reveal(tree::is_tree);
        assert(tree::fits(
            self.state().nodes.take(index as int),
            self.state().constants,
            self.state().nodes[index as int].node,
        ));
    }

    /// There is a scope, and no id has been read more often in it than tokens were taken.
    pub(crate) proof fn lemma_frames(&self, id: ConstantIndex)
        requires
            self.wf(),
        ensures
            self.state().frames.len() > 0,
            self.state().top().has_names(self.state().constants),
            self.state().top().access_count(id) <= self.state().at <= u32::MAX,
    {
        let top = self.frame_stack@.last();
        assert(top@ == self.state().top());
        assert(top@.accesses_within(self.position as nat));
        assert(top@.has_names(self.constants@));
    }

    /// The innermost scope.
    pub(crate) fn frame(&self) -> (r: Result<&Frame, ParserError>)
        ensures
            self.state().frames.len() == 0 ==> r == Err::<&Frame, ParserError>(
                error::internal_error_at(InternalError::MissingScope, token::first_span()),
            ),
            self.state().frames.len() > 0 ==> r is Ok && r->Ok_0@ == self.state().top(),
    {
        match self.frame_stack.last() {
            Some(frame) => Ok(frame),
            None => Err(
                ParserError {
                    error: ErrorType::InternalError(InternalError::MissingScope),
                    span: Span::default(),
                },
            ),
        }
    }

    /// The innermost scope, to be changed.
    pub(crate) fn frame_mut(&mut self) -> (r: Result<&mut Frame, ParserError>)
        requires
            old(self).wf(),
        ensures
            r is Ok,
            (*r->Ok_0)@ == old(self).state().top(),
            final(self).script() == old(self).script(),
            final(self).state() == old(self).state().with_top((*final(r->Ok_0))@),
            ({
                let frame = (*final(r->Ok_0))@;
                frame.accesses_within(old(self).state().at as nat) && frame.has_names(
                    old(self).state().constants,
                )
            }) ==> final(self).wf(),
            old(self).state().top().grows_to((*final(r->Ok_0))@) ==> script::extends(
                old(self).state(),
                final(self).state(),
            ),
    {
        reveal(script::extends);
        proof {
            let frames = self.frame_stack@;
            let last = frames.len() - 1;
            assert forall|frame: Frame| #[trigger]
                frame_views(frames.update(last, frame)) == frame_views(frames).drop_last().push(
                    frame@,
                ) by {
                assert(frame_views(frames.update(last, frame)) =~= frame_views(
                    frames,
                ).drop_last().push(frame@));
            }
        }
        match self.frame_stack.last_mut() {
            Some(frame) => Ok(frame),
            None => Err(
                ParserError {
                    error: ErrorType::InternalError(InternalError::MissingScope),
                    span: Span::default(),
                },
            ),
        }
    }

    /// Whether assignments at the top level are exported.
    pub(crate) fn exports_top_level(&self) -> (r: bool)
        ensures
            r == self.script().export_all_top_level,
    {
        self.options.export_all_top_level
    }

    /// Opens the scope of a function with the given arguments.
    pub(crate) fn push_frame(&mut self, args: &Vec<ConstantIndex>)
        requires
            old(self).wf(),
            tree::are_strings(old(self).state().constants, args@),
        ensures
            final(self).wf(),
            final(self).script() == old(self).script(),
            final(self).state() == (State {
                frames: old(self).state().frames.push(
                    frame::new_frame(false, args@.to_set()),
                ),
                ..old(self).state()
            }),
    {
        self.frame_stack.push(Frame::new(false, args));
        assert(self.state().frames =~= old(self).state().frames.push(
            frame::new_frame(false, args@.to_set()),
        ));
    }

    /// Closes the innermost scope, for what it reads from outside to be read by the scope around
    /// it.
    pub(crate) fn pop_frame(&mut self) -> (r: Result<Frame, ParserError>)
        requires
            old(self).wf(),
            old(self).state().frames.len() > 1,
        ensures
            r is Ok,
            r->Ok_0@ == old(self).state().top(),
            r->Ok_0@.has_names(final(self).state().constants),
            final(self).wf(),
            final(self).script() == old(self).script(),
            final(self).state() == ({
                let s = old(self).state();
                let outer = State { frames: s.frames.drop_last(), ..s };
                outer.with_top(outer.top().with_nested(r->Ok_0@))
            }),
    {
        proof {
            self.lemma_frames(0);
        }
        let error = self.internal_error(InternalError::MissingScope);
        let frame = match self.frame_stack.pop() {
            Some(frame) => frame,
            None => {
                return Err(error);
            },
        };
        assert(self.state().frames =~= old(self).state().frames.drop_last());
        proof {
            assert forall|id: ConstantIndex| #[trigger]
                self.state().top().with_nested(frame@).access_count(id) <= self.state().at by {
                self.lemma_frames(id);
            }
        }
        self.frame_mut()?.add_nested_accessed_non_locals(&frame);
        Ok(frame)
    }

    /// Counts one more read of an id in the innermost scope.
    pub(crate) fn read_id(&mut self, id: ConstantIndex) -> (r: Result<(), ParserError>)
        requires
            old(self).wf(),
            old(self).state().top().access_count(id) < old(self).state().at,
            tree::is_string(old(self).state().constants, id),
        ensures
            r is Ok,
            final(self).state() == old(self).state().with_top(
                old(self).state().top().with_access(id),
            ),
            old(self).leads_to(final(self)),
    {
        proof {
            self.lemma_frames(id);
            let before = self.state().top();
            let after = before.with_access(id);
            assert forall|other: ConstantIndex| #[trigger]
                after.access_count(other) <= self.state().at by {
                self.lemma_frames(other);
            }
        }
        self.frame_mut()?.increment_expression_access_for_id(id);
        Ok(())
    }

    /// Counts one read less of an id that turns out to be assigned, in the innermost scope.
    pub(crate) fn unread_id(&mut self, id: ConstantIndex) -> (r: Result<(), ParserError>)
        requires
            old(self).wf(),
        ensures
            old(self).state().top().access_count(id) == 0 ==> r == Err::<(), ParserError>(
                error::internal_error_at(
                    InternalError::UnexpectedIdInExpression,
                    old(self).script().span(old(self).state()),
                ),
            ),
            old(self).state().top().access_count(id) > 0 ==> {
                &&& r is Ok
                &&& final(self).state() == old(self).state().with_top(
                    old(self).state().top().without_access(id),
                )
                &&& old(self).leads_to(final(self))
            },
    {
        proof {
            self.lemma_frames(id);
            let before = self.state().top();
            let after = before.without_access(id);
            if before.access_count(id) > 0 {
                assert forall|other: ConstantIndex| #[trigger]
                    after.access_count(other) <= self.state().at by {
                    self.lemma_frames(other);
                }
            }
        }
        let error = self.internal_error(InternalError::UnexpectedIdInExpression);
        let count = match self.frame()?.access(id) {
            Some(count) => count,
            None => 0,
        };
        if count == 0 {
            return Err(error);
        }
        match self.frame_mut()?.decrement_expression_access_for_id(id) {
            Ok(()) => Ok(()),
            Err(()) => Err(error),
        }
    }

    /// Assigns an id in the innermost scope, other than as a target.
    pub(crate) fn assign_id(&mut self, id: ConstantIndex) -> (r: Result<(), ParserError>)
        requires
            old(self).wf(),
            tree::is_string(old(self).state().constants, id),
        ensures
            r is Ok,
            final(self).state() == old(self).state().with_top(
                old(self).state().top().with_assigned(id),
            ),
            old(self).leads_to(final(self)),
    {
        proof {
            self.lemma_frames(id);
            assert forall|other: ConstantIndex| #[trigger]
                self.state().top().with_assigned(id).access_count(other)
                    <= self.state().at by {
                self.lemma_frames(other);
            }
        }
        self.frame_mut()?.assign(id);
        Ok(())
    }

    /// Assigns an id in the innermost scope, as a target of an assignment.
    pub(crate) fn assign_target(&mut self, id: ConstantIndex) -> (r: Result<(), ParserError>)
        requires
            old(self).wf(),
            tree::is_string(old(self).state().constants, id),
        ensures
            r is Ok,
            final(self).state() == old(self).state().with_top(
                old(self).state().top().with_target(id),
            ),
            old(self).leads_to(final(self)),
    {
        proof {
            self.lemma_frames(id);
            assert forall|other: ConstantIndex| #[trigger]
                self.state().top().with_target(id).access_count(other)
                    <= self.state().at by {
                self.lemma_frames(other);
            }
        }
        self.frame_mut()?.assign_target(id);
        Ok(())
    }

    /// Ends the assignment to a target in the innermost scope.
    pub(crate) fn complete_target(&mut self, id: ConstantIndex) -> (r: Result<(), ParserError>)
        requires
            old(self).wf(),
            tree::is_string(old(self).state().constants, id),
        ensures
            r is Ok,
            final(self).state() == old(self).state().with_top(
                old(self).state().top().with_complete(id),
            ),
            old(self).leads_to(final(self)),
    {
        proof {
            self.lemma_frames(id);
            assert forall|other: ConstantIndex| #[trigger]
                self.state().top().with_complete(id).access_count(other)
                    <= self.state().at by {
                self.lemma_frames(other);
            }
        }
        self.frame_mut()?.complete_target(id);
        Ok(())
    }

    /// Ends the current expression in the innermost scope.
    pub(crate) fn finish_expressions(&mut self) -> (r: Result<(), ParserError>)
        requires
            old(self).wf(),
        ensures
            r is Ok,
            final(self).state() == old(self).state().with_top(
                old(self).state().top().finished(),
            ),
            old(self).leads_to(final(self)),
    {
        proof {
            self.lemma_frames(0);
        }
        self.frame_mut()?.finish_expressions();
        Ok(())
    }

    // Ids

    /// Reads an id, or a placeholder where one is allowed.
    pub(crate) fn parse_id(&mut self, allow_placeholders: bool) -> (id: Option<ConstantIndex>)
        requires
            old(self).wf(),
        ensures
            (final(self).state(), id) == old(self).script().id(
                old(self).state(),
                allow_placeholders,
            ),
            old(self).leads_to(final(self)),
            id matches Some(id) ==> tree::is_string(final(self).state().constants, id),
            id is Some ==> final(self).left() < old(self).left(),
            final(self).state().nodes == old(self).state().nodes,
            final(self).state().frames == old(self).state().frames,
    {
        reveal(Script::id);
        proof {
            self.lemma_reached();
        }
        let is_id = match self.skip_whitespace_and_peek() {
            Some(Token::Id) => true,
            Some(Token::Placeholder) => allow_placeholders,
            _ => false,
        };
        if is_id {
            self.consume_token();
            let text = self.slice();
            Some(self.add_string(text))
        } else {
            None
        }
    }
}

} // verus!

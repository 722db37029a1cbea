//! Faults: what is refused, with which error, and where.

use crate::error::{ParserError, SyntaxError};
use crate::forms::assignments;
use crate::forms::blocks;
use crate::grammar;
use crate::node::{AssignOp, AstIndex, NodeView};
use crate::parts::{self, Part};
use crate::script::{Outcome, Script, State};
use crate::token::{self, Token};
use vstd::prelude::*;

verus! {

broadcast use crate::script::group_places;

/// A script is refused for a fault at the token before a place.
pub open spec fn refusal<T>(e: Script, at: int, fault: SyntaxError) -> Outcome<T> {
    Err(
        crate::error::syntax_error_at(
            fault,
            if 0 < at <= e.tokens.len() {
                e.tokens[at - 1].span
            } else {
                token::first_span()
            },
        ),
    )
}

/// Parentheses around an expression are closed directly behind it.
pub proof fn law_unclosed_parentheses(e: Script, s: State, part: Part)
    requires
        e.next(s) == Some(Token::ParenOpen),
        part.is_expression(e, 0),
        part.starts_behind(e, s.at + 1),
        part.fits(s.moved(part.from)),
        0 <= s.at,
        e.token_at(part.to) != Some(Token::ParenClose),
    ensures
        grammar::nested_expression(e, s) == refusal::<Option<AstIndex>>(
            e,
            part.to,
            SyntaxError::ExpectedCloseParen,
        ),
{
    reveal(grammar::nested_expression);
    assert(e.spaced(s) == s);
    assert(e.spaced(e.taken(s)) == s.moved(part.from));
    parts::lemma_is_expression(e, part, 0, s.moved(part.from));
    parts::lemma_expression_behind_spaces(e, e.taken(s), Seq::empty(), 0);
}

/// `not` and `copy` have an expression behind them.
pub proof fn law_prefix_alone(e: Script, s: State, copy: bool)
    requires
        e.next(s) is Some,
        0 <= s.at,
        parts::starts_nothing(e, s.at + 1),
    ensures
        grammar::operand(e, s, copy) == refusal::<Option<AstIndex>>(
            e,
            e.skip_spaces(s.at + 1),
            SyntaxError::ExpectedExpression,
        ),
{
    reveal(grammar::operand);
    parts::lemma_no_expression(e, e.taken(s), Seq::empty(), 0);
}

/// A minus sign directly before something has an id or an expression in parentheses behind it.
pub proof fn law_minus_alone(e: Script, s: State)
    requires
        e.next(s) == Some(Token::Subtract),
        0 <= s.at,
        e.token_at(s.at + 1) != Some(Token::Whitespace),
        e.token_at(s.at + 1) != Some(Token::Id),
        e.token_at(s.at + 1) != Some(Token::ParenOpen),
    ensures
        grammar::negated(e, s) == refusal::<Option<AstIndex>>(
            e,
            s.at + 1,
            SyntaxError::ExpectedNegatableExpression,
        ),
{
    reveal(grammar::negated);
    reveal(grammar::negatable);
    assert(e.spaced(s) == s);
}

/// A binary operator has an expression to its right.
pub proof fn law_operator_alone(e: Script, s: State, lhs: AstIndex)
    requires
        grammar::is_operator(e.next(s)),
        0 <= s.at,
        parts::starts_nothing(e, s.at + 1),
    ensures
        grammar::operation(e, s, lhs) == refusal::<AstIndex>(
            e,
            e.skip_spaces(s.at + 1),
            SyntaxError::ExpectedRhsExpression,
        ),
{
    reveal(grammar::operation);
    reveal(grammar::map_block);
    let s1 = e.taken(s);
    let s2 = e.spaced(s1);
    assert(e.spaced(s2) == s2);
    assert(grammar::map_block(e, s1, e.indent(s1), None) == Ok::<_, ParserError>(
        (s2, None::<AstIndex>),
    ));
    parts::lemma_no_expression(
        e,
        s2,
        Seq::empty(),
        grammar::right_precedence(e.tokens[s.at].token),
    );
}

/// An index is an expression, and a bracket closes it.
pub proof fn law_open_index(e: Script, s: State, part: Part)
    requires
        e.next(s) == Some(Token::ListStart),
        0 <= s.at,
        part.is_expression(e, 1),
        part.starts_behind(e, s.at + 1),
        part.fits(s.moved(part.from)),
        !grammar::is_range(e.token_at(part.to)),
        e.token_at(e.skip_spaces(part.to)) != Some(Token::ListEnd),
    ensures
        grammar::index(e, s) == refusal::<AstIndex>(
            e,
            e.skip_spaces(part.to),
            SyntaxError::ExpectedIndexEnd,
        ),
{
    reveal(grammar::index);
    assert(e.spaced(e.taken(s)) == s.moved(part.from));
    parts::lemma_is_expression(e, part, 1, s.moved(part.from));
    parts::lemma_expression_behind_spaces(e, e.taken(s), Seq::empty(), 1);
}

/// Brackets behind an id are not empty.
pub proof fn law_empty_index(e: Script, s: State)
    requires
        e.next(s) == Some(Token::ListStart),
        0 <= s.at,
        parts::starts_nothing(e, s.at + 1),
    ensures
        grammar::index(e, s) == refusal::<AstIndex>(
            e,
            e.skip_spaces(s.at + 1),
            SyntaxError::ExpectedIndexExpression,
        ),
{
    reveal(grammar::index);
    let s1 = e.taken(s);
    parts::lemma_no_expression(e, s1, Seq::empty(), 1);
    let s2 = e.spaced(s1);
    assert(e.spaced(s2) == s2);
}

/// An `if` has a condition.
pub proof fn law_if_alone(e: Script, s: State)
    requires
        e.next(s) == Some(Token::If),
        0 <= s.at,
        parts::starts_nothing(e, s.at + 1),
    ensures
        grammar::if_expression(e, s) == refusal::<Option<AstIndex>>(
            e,
            e.skip_spaces(s.at + 1),
            SyntaxError::ExpectedIfCondition,
        ),
{
    reveal(grammar::if_expression);
    parts::lemma_no_expression(e, e.taken(s), Seq::empty(), 0);
}

/// Where nothing starts there are no expressions.
proof fn lemma_no_sequence(e: Script, s: State, allow_initial_indentation: bool)
    requires
        parts::starts_nothing(e, s.at),
    ensures
        grammar::expressions(e, s, allow_initial_indentation) == Ok::<_, ParserError>(
            (e.spaced(s), None::<AstIndex>),
        ),
{
    reveal(grammar::expressions);
    reveal(grammar::expressions_at);
    let s1 = e.spaced(s);
    assert(e.spaced(s1) == s1);
    parts::lemma_no_expression(e, s1, Seq::empty(), 0);
    parts::lemma_no_expression(e, s, Seq::empty(), 0);
}

/// `then` has a value behind it.
pub proof fn law_then_alone(e: Script, s: State, condition: AstIndex)
    requires
        e.next(s) == Some(Token::Then),
        0 <= s.at,
        parts::starts_nothing(e, s.at + 1),
    ensures
        grammar::if_then(e, s, condition) == refusal::<AstIndex>(
            e,
            e.skip_spaces(s.at + 1),
            SyntaxError::ExpectedThenExpression,
        ),
{
    reveal(grammar::if_then);
    reveal(grammar::expressions);
    lemma_no_sequence(e, e.taken(s), false);
}

/// `else` has a value behind it.
pub proof fn law_else_alone(e: Script, s: State, condition: AstIndex, value: Part)
    requires
        e.next(s) == Some(Token::Then),
        0 <= s.at,
        value.is_sequence(e),
        value.from == s.at + 1,
        value.fits(s.moved(s.at + 1)),
        e.token_at(e.skip_spaces(value.to)) == Some(Token::Else),
        parts::starts_nothing(e, e.skip_spaces(value.to) + 1),
    ensures
        grammar::if_then(e, s, condition) == refusal::<AstIndex>(
            e,
            e.skip_spaces(e.skip_spaces(value.to) + 1),
            SyntaxError::ExpectedElseExpression,
        ),
{
    reveal(grammar::if_then);
    reveal(grammar::expressions);
    let s1 = e.taken(s);
    parts::lemma_is_sequence(e, value, s1);
    let s2 = (value.read)(s1).0;
    lemma_no_sequence(e, e.taken(e.spaced(s2)), false);
}

/// `while` and `until` have a condition.
pub proof fn law_loop_alone(
    e: Script,
    s: State,
    inline_body: Option<Seq<AstIndex>>,
    primary: bool,
)
    requires
        e.next(s) == Some(Token::While) || e.next(s) == Some(Token::Until),
        0 <= s.at,
        parts::starts_nothing(e, s.at + 1),
    ensures
        grammar::loop_form(e, s, inline_body, primary) == refusal::<AstIndex>(
            e,
            e.skip_spaces(s.at + 1),
            if e.next(s) == Some(Token::While) {
                SyntaxError::ExpectedWhileCondition
            } else {
                SyntaxError::ExpectedUntilCondition
            },
        ),
{
    reveal(grammar::loop_form);
    reveal(grammar::while_loop);
    reveal(grammar::until_loop);
    parts::lemma_no_expression(e, e.taken(s), Seq::empty(), 0);
}

/// `for` has names behind it.
pub proof fn law_for_without_names(
    e: Script,
    s: State,
    inline_body: Option<Seq<AstIndex>>,
    primary: bool,
)
    requires
        e.next(s) == Some(Token::For),
        0 <= s.at,
        e.token_at(e.skip_spaces(s.at + 1)) != Some(Token::Id),
        e.token_at(e.skip_spaces(s.at + 1)) != Some(Token::Placeholder),
    ensures
        grammar::loop_form(e, s, inline_body, primary) == refusal::<AstIndex>(
            e,
            e.skip_spaces(s.at + 1),
            SyntaxError::ExpectedForArgs,
        ),
{
    reveal(grammar::loop_form);
    reveal(grammar::for_loop);
    reveal(grammar::for_args);
    reveal(Script::id);
}

/// An assignment symbol has a value behind it.
pub proof fn law_symbol_alone(
    e: Script,
    s: State,
    lhs: Seq<AstIndex>,
    op: AssignOp,
)
    requires
        e.next(s) is Some,
        0 <= s.at,
        lhs.len() > 0,
        grammar::targets_from(
            e,
            e.taken(s),
            lhs,
            0,
            op,
            assignments::scope_of(e, s.top()),
        ) matches Ok(s1),
        parts::starts_nothing(e, s.at + 1),
    ensures
        grammar::assignment(e, s, lhs, op) == refusal::<Option<AstIndex>>(
            e,
            e.skip_spaces(s.at + 1),
            SyntaxError::ExpectedRhsExpression,
        ),
{
    reveal(grammar::assignment);
    reveal(grammar::expressions);
    let scope = assignments::scope_of(e, s.top());
    grammar::lemma_targets_stay(e, e.taken(s), lhs, 0, op, scope);
    let s1 = grammar::targets_from(e, e.taken(s), lhs, 0, op, scope)->Ok_0;
    lemma_no_sequence(e, s1, true);
}

/// A value is only assigned to an id or a lookup.
pub proof fn law_no_target(e: Script, s: State, lhs: Seq<AstIndex>, op: AssignOp)
    requires
        e.next(s) is Some,
        0 <= s.at,
        lhs.len() > 0,
        !(s.nodes[lhs[0] as int].node is Id),
        !(s.nodes[lhs[0] as int].node is Lookup),
    ensures
        grammar::assignment(e, s, lhs, op) == refusal::<Option<AstIndex>>(
            e,
            s.at + 1,
            SyntaxError::ExpectedAssignmentTarget,
        ),
{
    reveal(grammar::assignment);
    reveal(grammar::targets_from);
}

/// Arguments in parentheses are followed by the closing one.
pub proof fn law_unclosed_arguments(e: Script, s: State)
    requires
        e.next(s) == Some(Token::ParenOpen),
        0 <= s.at,
        parts::starts_nothing(e, e.skip_fillers(s.at + 1)),
        e.token_at(e.skip_fillers(s.at + 1)) != Some(Token::ParenClose),
    ensures
        ({
            let at = e.skip_fillers(s.at + 1);
            grammar::parenthesized_args(e, s) == refusal::<Seq<AstIndex>>(
                e,
                if at < e.tokens.len() {
                    at + 1
                } else {
                    at
                },
                SyntaxError::ExpectedArgsEnd,
            )
        }),
{
    reveal(grammar::parenthesized_args);
    reveal(grammar::parenthesized_args_from);
    assert(e.spaced(s) == s);
    let s1 = e.filled(e.taken(s));
    assert(e.spaced(s1) == s1);
    assert(e.filled(s1) == s1);
    parts::lemma_no_expression(e, s1, Seq::empty(), 1);
}

/// A list is followed by the closing bracket.
pub proof fn law_unclosed_list(e: Script, s: State)
    requires
        e.next(s) == Some(Token::ListStart),
        0 <= s.at,
        parts::starts_nothing(e, e.skip_fillers(s.at + 1)),
        e.token_at(e.skip_fillers(s.at + 1)) != Some(Token::ListEnd),
    ensures
        ({
            let at = e.skip_fillers(s.at + 1);
            grammar::list(e, s) == refusal::<Option<AstIndex>>(
                e,
                if at < e.tokens.len() {
                    at + 1
                } else {
                    at
                },
                SyntaxError::ExpectedListEnd,
            )
        }),
{
    reveal(grammar::list);
    reveal(grammar::list_from);
    let s1 = e.filled(e.taken(s));
    assert(e.spaced(s1) == s1);
    assert(e.filled(s1) == s1);
    parts::lemma_no_term(e, s1, false);
}

/// A map in braces has entries, and a brace closes it.
pub proof fn law_unclosed_map(e: Script, s: State)
    requires
        e.next(s) == Some(Token::MapStart),
        0 <= s.at,
        e.token_at(e.skip_fillers(s.at + 1)) != Some(Token::Id),
        e.token_at(e.skip_fillers(s.at + 1)) != Some(Token::MapEnd),
    ensures
        ({
            let at = e.skip_fillers(s.at + 1);
            grammar::inline_map(e, s) == refusal::<Option<AstIndex>>(
                e,
                if at < e.tokens.len() {
                    at + 1
                } else {
                    at
                },
                SyntaxError::ExpectedMapEnd,
            )
        }),
{
    reveal(grammar::inline_map);
    reveal(grammar::inline_map_from);
    reveal(Script::id);
    let s1 = e.filled(e.taken(s));
    assert(e.spaced(s1) == s1);
}

/// The key of a map in braces has a colon directly behind it, and a value behind that.
pub proof fn law_key_alone(e: Script, s: State, pairs: Seq<(u32, AstIndex)>)
    requires
        0 <= s.at,
        e.token_at(e.skip_fillers(s.at)) == Some(Token::Id),
        ({
            let next = e.skip_fillers(s.at) + 1;
            ||| e.token_at(next) is Some && e.token_at(next) != Some(Token::Colon)
            ||| e.token_at(next) == Some(Token::Colon) && parts::starts_nothing(
                e,
                e.skip_fillers(next + 1),
            )
        }),
    ensures
        ({
            let next = e.skip_fillers(s.at) + 1;
            grammar::inline_map_from(e, s, pairs) == if e.token_at(next) == Some(Token::Colon) {
                refusal::<Seq<(u32, AstIndex)>>(
                    e,
                    e.skip_fillers(next + 1),
                    SyntaxError::ExpectedMapValue,
                )
            } else {
                refusal::<Seq<(u32, AstIndex)>>(e, next + 1, SyntaxError::ExpectedMapSeparator)
            }
        }),
{
    reveal(grammar::inline_map_from);
    reveal(Script::id);
    let s0 = e.filled(s);
    assert(e.spaced(s0) == s0);
    let s1 = e.id(s0, false).0;
    let s3 = e.filled(e.taken(s1));
    assert(e.spaced(s3) == s3);
    if e.next(s1) == Some(Token::Colon) {
        parts::lemma_no_expression(e, s3, Seq::empty(), 0);
    }
}

/// A lookup has a key directly behind each dot.
pub proof fn law_dot_alone(
    e: Script,
    s: State,
    primary: bool,
    lookup: Seq<crate::node::LookupNodeView>,
)
    requires
        0 <= s.at,
        e.next(s) == Some(Token::Dot),
        e.token_at(e.skip_spaces(s.at + 1)) != Some(Token::Id),
    ensures
        grammar::lookup_from(e, s, primary, lookup) == refusal::<AstIndex>(
            e,
            e.skip_spaces(s.at + 1),
            SyntaxError::ExpectedMapKey,
        ),
{
    reveal(grammar::lookup_from);
    reveal(Script::id);
}

/// A function has a bar behind its arguments.
pub proof fn law_unclosed_function(e: Script, s: State)
    requires
        0 <= s.at,
        e.next(s) == Some(Token::Function),
        e.token_at(e.skip_fillers(s.at + 1)) is Some,
        e.token_at(e.skip_fillers(s.at + 1)) != Some(Token::Id),
        e.token_at(e.skip_fillers(s.at + 1)) != Some(Token::Placeholder),
        e.token_at(e.skip_fillers(s.at + 1)) != Some(Token::Function),
    ensures
        grammar::function(e, s) == refusal::<Option<AstIndex>>(
            e,
            e.skip_fillers(s.at + 1) + 1,
            SyntaxError::ExpectedFunctionArgsEnd,
        ),
{
    reveal(grammar::function);
    reveal(grammar::function_args);
    reveal(Script::id);
    assert(e.spaced(s) == s);
    let s1 = e.filled(e.taken(s));
    assert(e.spaced(s1) == s1);
}

/// An import names a module.
pub proof fn law_import_alone(e: Script, s: State)
    requires
        0 <= s.at,
        e.next(s) == Some(Token::Import),
        e.token_at(e.skip_spaces(s.at + 1)) != Some(Token::Id),
        e.token_at(e.skip_spaces(s.at + 1)) != Some(Token::ListStart),
    ensures
        grammar::import(e, s) == refusal::<Option<AstIndex>>(
            e,
            e.skip_spaces(s.at + 1),
            SyntaxError::ExpectedImportModuleId,
        ),
{
    reveal(grammar::import);
    reveal(grammar::import_items);
    reveal(grammar::import_module);
    reveal(Script::id);
    let s1 = e.spaced(e.taken(s));
    assert(e.spaced(s1) == s1);
}

/// An export names an id, and a value or the end of the line follows.
pub proof fn law_export_alone(e: Script, s: State)
    requires
        0 <= s.at,
        e.next(s) == Some(Token::Export),
        ({
            let name = e.skip_spaces(s.at + 1);
            let next = e.token_at(e.skip_spaces(name + 1));
            ||| e.token_at(name) != Some(Token::Id)
            ||| {
                &&& s.nodes.len() <= u32::MAX
                &&& next != Some(Token::Assign)
                &&& next != Some(Token::NewLine)
                &&& next != Some(Token::NewLineIndented)
            }
        }),
    ensures
        ({
            let name = e.skip_spaces(s.at + 1);
            grammar::export(e, s) == if e.token_at(name) != Some(Token::Id) {
                refusal::<Option<AstIndex>>(e, name, SyntaxError::ExpectedExportExpression)
            } else {
                refusal::<Option<AstIndex>>(
                    e,
                    e.skip_spaces(name + 1),
                    SyntaxError::UnexpectedTokenAfterExportId,
                )
            }
        }),
{
    reveal(grammar::export);
    reveal(Script::id);
    assert(e.spaced(s) == s);
}

/// What the lexer does not know is refused, at the start of a line and anywhere else.
pub proof fn law_unknown_token(e: Script, s: State, primary: bool)
    requires
        0 <= s.at,
        e.next(s) == Some(Token::Error),
    ensures
        grammar::term(e, s, primary) == refusal::<Option<AstIndex>>(
            e,
            s.at,
            SyntaxError::LexerError,
        ),
        grammar::line_form(e, s) == refusal::<Option<AstIndex>>(
            e,
            s.at,
            SyntaxError::UnexpectedToken,
        ),
{
    reveal(grammar::term);
    reveal(grammar::line_form);
    assert(e.spaced(s) == s);
}

/// The lines of a block are not indented further than its first line.
pub proof fn law_unexpected_indentation(
    e: Script,
    s: State,
    line: Part,
    indent: usize,
    body: Seq<AstIndex>,
)
    requires
        line.is_line(e),
        line.fits(s),
        ({
            let next = e.skip_fillers(line.to);
            0 < next <= e.tokens.len() && e.tokens[next - 1].indent > indent
        }),
    ensures
        grammar::block_from(e, s, indent, body) == refusal::<AstIndex>(
            e,
            e.skip_fillers(line.to),
            SyntaxError::UnexpectedIndentation,
        ),
{
    reveal(grammar::block_from);
    reveal(grammar::line);
    parts::lemma_is_line(e, line, s);
}

/// Lines that are not indented further than the line before them are no block of it.
pub proof fn law_no_block(e: Script, s: State, current_indent: usize)
    requires
        0 <= s.at,
        e.token_at(e.skip_fillers(s.at)) is Some,
        e.tokens[e.skip_fillers(s.at)].indent <= current_indent,
        !(e.token_at(e.skip_fillers(s.at)) == Some(Token::Id) && e.token_at(
            e.skip_fillers(s.at) + 1,
        ) == Some(Token::Colon)),
    ensures
        grammar::map_or_block(e, s, current_indent) == Ok::<_, ParserError>(
            (s.moved(e.skip_fillers(s.at)), None::<AstIndex>),
        ),
{
    reveal(grammar::map_or_block);
    reveal(grammar::map_block);
    reveal(grammar::map_block_at);
    reveal(grammar::indented_block);
    let s1 = e.filled(s);
    assert(e.filled(s1) == s1);
}

/// A loop has no block where the next line is not indented further.
pub proof fn law_no_loop_block(e: Script, s: State, current_indent: usize)
    requires
        0 <= s.at,
        e.token_at(e.skip_spaces(s.at)) == Some(Token::NewLineIndented) ==> e.tokens[e.skip_spaces(
            s.at,
        )].indent <= current_indent,
    ensures
        grammar::indented_block(e, s, current_indent, None) == Ok::<_, ParserError>(
            (e.spaced(s), None::<AstIndex>),
        ),
        forall|primary: bool, absent: SyntaxError| #[trigger]
            grammar::loop_body(e, s, None, primary, current_indent, absent) == refusal::<AstIndex>(
                e,
                e.skip_spaces(s.at),
                absent,
            ),
{
    reveal(grammar::indented_block);
    reveal(grammar::loop_body);
}

/// An `if` without `then` has a block that is indented further.
pub proof fn law_if_without_block(
    e: Script,
    s: State,
    condition: AstIndex,
    current_indent: usize,
)
    requires
        0 <= s.at,
        e.token_at(e.skip_fillers(s.at)) is Some,
        e.tokens[e.skip_fillers(s.at)].indent <= current_indent,
        !(e.token_at(e.skip_fillers(s.at)) == Some(Token::Id) && e.token_at(
            e.skip_fillers(s.at) + 1,
        ) == Some(Token::Colon)),
    ensures
        grammar::if_block(e, s, condition, current_indent) == refusal::<AstIndex>(
            e,
            e.skip_fillers(s.at),
            SyntaxError::ExpectedThenKeywordOrBlock,
        ),
{
    law_no_block(e, s, current_indent);
    reveal(grammar::if_block);
    reveal(grammar::map_or_block);
}

/// A map on the next line is indented further than the line before it.
pub proof fn law_no_map(e: Script, s: State, current_indent: usize)
    requires
        0 <= s.at,
        e.token_at(e.skip_spaces(s.at)) == Some(Token::NewLineIndented) ==> e.tokens[e.skip_spaces(
            s.at,
        )].indent <= current_indent,
    ensures
        grammar::map_block(e, s, current_indent, None) == Ok::<_, ParserError>(
            (e.spaced(s), None::<AstIndex>),
        ),
{
    reveal(grammar::map_block);
}

/// A value on the next line is indented further than the line before it.
pub proof fn law_no_value_on_next_line(e: Script, s: State)
    requires
        0 <= s.at,
        e.token_at(e.skip_spaces(s.at)) == Some(Token::NewLineIndented),
        e.indent(e.filled(e.spaced(s))) <= e.indent(s),
    ensures
        grammar::expressions(e, s, true) == Ok::<_, ParserError>(
            (e.filled(e.spaced(s)), None::<AstIndex>),
        ),
{
    reveal(grammar::expressions);
}

/// Expressions end behind a separator where the next line is not indented further, and are refused
/// where the lines behind the first are not indented alike.
pub proof fn law_separator_at_line_end(
    e: Script,
    s: State,
    current_indent: usize,
    expected_indent: Option<usize>,
    nodes: Seq<AstIndex>,
)
    requires
        0 <= s.at,
        e.token_at(e.skip_spaces(s.at)) == Some(Token::Separator),
        e.token_at(e.skip_spaces(e.skip_spaces(s.at) + 1)) == Some(Token::NewLineIndented),
        e.token_at(e.skip_fillers(e.skip_spaces(s.at) + 1)) is Some,
    ensures
        ({
            let next = e.skip_fillers(e.skip_spaces(s.at) + 1);
            let indent = e.tokens[next].indent;
            let ended = if nodes.len() == 1 {
                Ok((s.moved(next), nodes[0]))
            } else {
                e.add_node(s.moved(next), NodeView::Expressions(nodes))
            };
            let outcome = grammar::expressions_from(
                e,
                s,
                current_indent,
                expected_indent,
                nodes,
            );
            &&& expected_indent is None && indent <= current_indent ==> outcome == ended
            &&& expected_indent matches Some(expected) ==> {
                &&& indent < expected ==> outcome == ended
                &&& indent > expected ==> outcome == refusal::<AstIndex>(
                    e,
                    next,
                    SyntaxError::UnexpectedIndentation,
                )
            }
        }),
{
    reveal(grammar::expressions_from);
    let separator = e.skip_spaces(s.at);
    blocks::lemma_fillers_behind_spaces(e, separator + 1);
    assert(e.skip_fillers(e.skip_spaces(separator + 1)) == e.skip_fillers(separator + 1)) by {
        reveal_with_fuel(Script::skip_fillers, 2);
    }
    let s2 = e.spaced(e.taken(e.spaced(s)));
    assert(e.filled(s2) == s.moved(e.skip_fillers(separator + 1)));
}

/// The body of a function on the next line is indented further than the function; where the next
/// line is not, there is no body.
pub proof fn law_function_without_body(e: Script, s: State, current_indent: usize)
    requires
        0 <= s.at,
        e.token_at(e.skip_spaces(s.at)) == Some(Token::NewLine),
    ensures
        grammar::function_body(e, s, current_indent) == refusal::<AstIndex>(
            e,
            e.skip_spaces(s.at),
            SyntaxError::ExpectedFunctionBody,
        ),
{
    reveal(grammar::function_body);
    reveal(grammar::line);
    reveal(grammar::line_form);
    reveal(grammar::expressions);
    reveal(grammar::expressions_at);
    let s1 = e.spaced(s);
    assert(e.spaced(s1) == s1);
    parts::lemma_no_expression(e, s1, Seq::empty(), 0);
}

/// An id is read where one stands behind the spaces, and a placeholder only where one is allowed.
/// Its text becomes a constant, and nothing else is read or changed.
pub proof fn law_id(e: Script, s: State, allow_placeholders: bool)
    requires
        0 <= s.at <= e.tokens.len(),
        s.constants.len() <= u32::MAX,
    ensures
        ({
            let at = e.skip_spaces(s.at);
            let (s1, found) = e.id(s, allow_placeholders);
            &&& s1.nodes == s.nodes
            &&& s1.frames == s.frames
            &&& found is Some <==> e.token_at(at) == Some(Token::Id) || (allow_placeholders
                && e.token_at(at) == Some(Token::Placeholder))
            &&& found is None ==> s1.at == at && s1.constants == s.constants
            &&& found matches Some(id) ==> {
                &&& s1.at == at + 1
                &&& id < s1.constants.len()
                &&& s1.constants[id as int] == crate::constant_pool::ConstantView::Str(
                    e.tokens[at].text,
                )
            }
        }),
{
    reveal(Script::id);
}

/// Whether a token stands directly before a place.
pub open spec fn is_behind(e: Script, at: int, token: Token) -> bool {
    0 < at <= e.tokens.len() && e.tokens[at - 1].token == token
}

/// What is opened is closed: where a form in parentheses, brackets or braces is read, it ends with
/// the token that closes it.
pub proof fn law_forms_are_closed(e: Script, s: State)
    requires
        e.next(s) is Some,
    ensures
        grammar::nested_expression(e, s) matches Ok((s1, Some(_))) ==> is_behind(
            e,
            s1.at,
            Token::ParenClose,
        ),
        grammar::parenthesized_args(e, s) matches Ok((s1, _)) ==> is_behind(
            e,
            s1.at,
            Token::ParenClose,
        ),
        grammar::list(e, s) matches Ok((s1, Some(_))) ==> is_behind(e, s1.at, Token::ListEnd),
        grammar::index(e, s) matches Ok((s1, _)) ==> is_behind(e, s1.at, Token::ListEnd),
        grammar::inline_map(e, s) matches Ok((s1, Some(_))) ==> is_behind(
            e,
            s1.at,
            Token::MapEnd,
        ),
{
    lemma_closed_expressions(e, s);
    lemma_closed_lists(e, s);
}

proof fn lemma_closed_expressions(e: Script, s: State)
    requires
        e.next(s) is Some,
    ensures
        grammar::nested_expression(e, s) matches Ok((s1, Some(_))) ==> is_behind(
            e,
            s1.at,
            Token::ParenClose,
        ),
        grammar::parenthesized_args(e, s) matches Ok((s1, _)) ==> is_behind(
            e,
            s1.at,
            Token::ParenClose,
        ),
        grammar::index(e, s) matches Ok((s1, _)) ==> is_behind(e, s1.at, Token::ListEnd),
{
    reveal(grammar::nested_expression);
    reveal(grammar::parenthesized_args);
    reveal(grammar::index);
}

proof fn lemma_closed_lists(e: Script, s: State)
    requires
        e.next(s) is Some,
    ensures
        grammar::list(e, s) matches Ok((s1, Some(_))) ==> is_behind(e, s1.at, Token::ListEnd),
        grammar::inline_map(e, s) matches Ok((s1, Some(_))) ==> is_behind(
            e,
            s1.at,
            Token::MapEnd,
        ),
{
    reveal(grammar::list);
    reveal(grammar::inline_map);
}

} // verus!

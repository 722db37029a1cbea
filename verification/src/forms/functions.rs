//! Functions.

use crate::ast::AstNodeView;
use crate::constant_pool::ConstantView;
use crate::error::ParserError;
use crate::forms::blocks;
use crate::frame::{self, FrameView};
use crate::grammar;
use crate::node::{FunctionView, NodeView};
use crate::parts::{self, Part};
use crate::script::{Script, State};
use crate::token::{Span, Token};
use vstd::multiset::Multiset;
use vstd::prelude::*;

verus! {

broadcast use crate::script::group_places;

/// Whether names stand from a place on, over any number of lines, up to the bar behind them.
pub open spec fn are_args(e: Script, at: int, names: Seq<int>) -> bool
    decreases names.len(),
{
    let next = e.skip_fillers(at);
    if names.len() == 0 {
        e.token_at(next) == Some(Token::Function)
    } else {
        &&& 0 <= at
        &&& names[0] == next
        &&& e.token_at(next) == Some(Token::Id) || e.token_at(next) == Some(Token::Placeholder)
        &&& are_args(e, next + 1, names.drop_first())
    }
}

/// The place of the bar behind the names.
pub open spec fn args_end(e: Script, at: int, names: Seq<int>) -> int
    decreases names.len(),
{
    if names.len() == 0 {
        e.skip_fillers(at)
    } else {
        args_end(e, names[0] + 1, names.drop_first())
    }
}

/// The state with the names among the constants, and their constants in order, behind those that
/// were read.
pub open spec fn read_args(e: Script, names: Seq<int>, s: State, args: Seq<u32>) -> (
    State,
    Seq<u32>,
)
    decreases names.len(),
{
    if names.len() == 0 {
        (s, args)
    } else {
        let (s1, id) = s.moved(names[0] + 1).add_constant(
            ConstantView::Str(e.tokens[names[0]].text),
        );
        read_args(e, names.drop_first(), s1, args.push(id))
    }
}

proof fn lemma_args(e: Script, names: Seq<int>, s: State, args: Seq<u32>)
    requires
        are_args(e, s.at, names),
        parts::is_ready(s),
    ensures
        ({
            let (s1, all) = read_args(e, names, s, args);
            let end = args_end(e, s.at, names);
            &&& grammar::function_args(e, s, args) == (s1.moved(end), all)
            &&& s1.at <= end
            &&& s.at <= end < e.tokens.len()
            &&& e.token_at(end) == Some(Token::Function)
            &&& parts::goes_on(s, s1)
            &&& s1.frames == s.frames
            &&& s1.nodes == s.nodes
            &&& s1.constants.len() <= s.constants.len() + names.len()
        }),
    decreases names.len(),
{
    reveal(grammar::function_args);
    reveal(Script::id);
    parts::lemma_ready(s);
    let s0 = e.filled(s);
    assert(e.spaced(s0) == s0);
    if names.len() == 0 {
        parts::lemma_moved(s, s.at);
        assert(s.moved(s.at) == s);
    } else {
        let at = names[0];
        let s1 = s.moved(at + 1);
        parts::lemma_moved(s, at + 1);
        let constant = ConstantView::Str(e.tokens[at].text);
        parts::lemma_constant(s1, constant);
        let (s2, id) = s1.add_constant(constant);
        parts::lemma_goes_on(s1, s2);
        parts::lemma_goes_on_trans(s, s1, s2);
        lemma_args(e, names.drop_first(), s2, args.push(id));
        parts::lemma_goes_on_trans(
            s,
            s2,
            read_args(e, names.drop_first(), s2, args.push(id)).0,
        );
    }
}

/// Whether a function stands at a place: names between bars, and a body that is a line or, indented
/// further than the function, a block.
pub open spec fn is_function(e: Script, at: int, names: Seq<int>, body: Part) -> bool {
    let end = args_end(e, at + 1, names);
    let indent = blocks::indent_before(e, at);
    let start = e.skip_spaces(end + 1);
    &&& 0 <= at
    &&& e.token_at(at) == Some(Token::Function)
    &&& are_args(e, at + 1, names)
    &&& body.from == start
    &&& if e.token_at(start) == Some(Token::NewLineIndented) && e.tokens[start].indent > indent {
        body.is_block(e, indent)
    } else {
        body.is_line(e)
    }
}

/// The state with a scope for a function, in which its arguments are assigned.
pub open spec fn with_scope(s: State, args: Seq<u32>) -> State {
    State { frames: s.frames.push(frame::new_frame(false, args.to_set())), ..s }
}

/// The state with the scope of a function closed: what the function reads from outside is read by
/// the scope around it.
pub open spec fn without_scope(s: State) -> State {
    let outer = State { frames: s.frames.drop_last(), ..s };
    outer.with_top(outer.top().with_nested(s.top()))
}

/// The function with the given arguments and body, and what its scope holds when it is read.
pub open spec fn function_of(
    args: Seq<u32>,
    scope: FrameView,
    body: u32,
    is_instance_function: bool,
) -> NodeView {
    NodeView::Function(
        FunctionView {
            args,
            local_count: scope.locals().len() as usize,
            accessed_non_locals: Multiset::from_set(scope.non_locals),
            body,
            is_instance_function,
        },
    )
}

/// Whether the first of some arguments is `self`.
pub open spec fn starts_with_self(s: State, args: Seq<u32>) -> bool {
    args.len() > 0 && s.constants[args[0] as int] == ConstantView::Str("self"@)
}

/// A function.
pub open spec fn function_part(e: Script, at: int, names: Seq<int>, body: Part) -> Part {
    Part {
        from: at,
        to: body.to,
        read: |s: State|
            {
                let (s1, args) = read_args(e, names, s.moved(at + 1), Seq::empty());
                let (s2, node) = (body.read)(with_scope(s1, args).moved(body.from));
                without_scope(s2).add_spanned_node(
                    function_of(args, s2.top(), node, starts_with_self(s1, args)),
                    Span {
                        start: e.tokens[at].span.start,
                        end: e.tokens[body.to - 1].span.end,
                    },
                )->Ok_0
            },
        size: names.len() + body.size + 1,
    }
}

/// A function has the names between its bars as its arguments, in their order, and the line or the
/// block behind them as its body. The body is read in a scope of its own. A function whose first
/// argument is `self` is one of an instance.
pub proof fn law_function(e: Script, at: int, names: Seq<int>, body: Part, primary: bool)
    requires
        is_function(e, at, names, body),
    ensures
        function_part(e, at, names, body).is_term(e, primary),
{
    reveal(Part::is_sound);
    reveal(Part::is_operand);
    reveal(Part::is_term);
    let whole = function_part(e, at, names, body);
    lemma_function_places(e, at, names, body);
    assert forall|s: State| whole.fits(s) implies {
        let read = #[trigger] (whole.read)(s);
        &&& whole.leads_on(s)
        &&& whole.is_read(s, grammar::term(e, s, primary))
        &&& whole.is_read(s, grammar::first_operand(e, s, primary))
    } by {
        lemma_function_at(e, at, names, body, primary, s);
    }
}

/// The first argument of a function is `self` if its first name is.
pub proof fn law_self(e: Script, names: Seq<int>, s: State)
    requires
        s.constants.len() + names.len() <= u32::MAX,
    ensures
        ({
            let (s1, args) = read_args(e, names, s, Seq::empty());
            &&& args.len() == names.len()
            &&& starts_with_self(s1, args) <==> names.len() > 0 && e.tokens[names[0]].text
                == "self"@
        }),
{
    lemma_args_keep(e, names, s, Seq::empty());
    if names.len() > 0 {
        lemma_first_name(e, names, s, Seq::empty());
    }
}

proof fn lemma_function_places(e: Script, at: int, names: Seq<int>, body: Part)
    requires
        is_function(e, at, names, body),
    ensures
        at < body.from < body.to <= e.tokens.len(),
{
    let indent = blocks::indent_before(e, at);
    lemma_args_places(e, at + 1, names);
    if e.token_at(body.from) == Some(Token::NewLineIndented) && e.tokens[body.from].indent
        > indent {
        parts::lemma_is_block(e, body, indent, arbitrary());
    } else {
        parts::lemma_is_line(e, body, arbitrary());
    }
}

proof fn lemma_args_places(e: Script, at: int, names: Seq<int>)
    requires
        are_args(e, at, names),
        0 <= at,
    ensures
        at <= args_end(e, at, names) < e.tokens.len(),
    decreases names.len(),
{
    if names.len() > 0 {
        lemma_args_places(e, names[0] + 1, names.drop_first());
    }
}

proof fn lemma_first_name(e: Script, names: Seq<int>, s: State, args: Seq<u32>)
    requires
        names.len() > 0,
        args.len() == 0,
        s.constants.len() + names.len() <= u32::MAX,
    ensures
        ({
            let (s1, all) = read_args(e, names, s, args);
            &&& all.len() > 0
            &&& all[0] < s1.constants.len()
            &&& s1.constants[all[0] as int] == ConstantView::Str(e.tokens[names[0]].text)
        }),
{
    let (s1, id) = s.moved(names[0] + 1).add_constant(ConstantView::Str(e.tokens[names[0]].text));
    lemma_args_keep(e, names.drop_first(), s1, args.push(id));
    let (s2, all) = read_args(e, names.drop_first(), s1, args.push(id));
    assert(args.push(id)[0] == id);
    assert(all[0] == id);
    assert(s1.constants[id as int] == ConstantView::Str(e.tokens[names[0]].text));
    assert(s2.constants[id as int] == s1.constants[id as int]);
}

proof fn lemma_args_keep(e: Script, names: Seq<int>, s: State, args: Seq<u32>)
    ensures
        ({
            let (s1, all) = read_args(e, names, s, args);
            &&& args.is_prefix_of(all)
            &&& s.constants.is_prefix_of(s1.constants)
            &&& all.len() == args.len() + names.len()
        }),
    decreases names.len(),
{
    if names.len() > 0 {
        let (s1, id) = s.moved(names[0] + 1).add_constant(
            ConstantView::Str(e.tokens[names[0]].text),
        );
        lemma_args_keep(e, names.drop_first(), s1, args.push(id));
        let all = read_args(e, names.drop_first(), s1, args.push(id)).1;
        assert(args.push(id).is_prefix_of(all));
        assert forall|k: int| 0 <= k < args.len() implies all[k] == args[k] by {
            assert(args.push(id)[k] == args[k]);
        }
        assert(args.is_prefix_of(all));
    }
}

proof fn lemma_function_at(
    e: Script,
    at: int,
    names: Seq<int>,
    body: Part,
    primary: bool,
    s: State,
)
    requires
        is_function(e, at, names, body),
        function_part(e, at, names, body).fits(s),
    ensures
        ({
            let whole = function_part(e, at, names, body);
            &&& whole.leads_on(s)
            &&& whole.is_read(s, grammar::term(e, s, primary))
            &&& whole.is_read(s, grammar::first_operand(e, s, primary))
        }),
{
    let whole = function_part(e, at, names, body);
    let indent = blocks::indent_before(e, at);
    let end = args_end(e, at + 1, names);
    lemma_function_places(e, at, names, body);
    parts::lemma_ready(s);
    assert(e.spaced(s) == s);
    parts::lemma_operand_at(e, s, primary);
    let s0 = e.taken(s);
    parts::lemma_moved(s, at + 1);
    lemma_args(e, names, s0, Seq::empty());
    lemma_args_keep(e, names, s0, Seq::empty());
    let (s1, args) = read_args(e, names, s0, Seq::empty());
    parts::lemma_goes_on(s0, s1);
    parts::lemma_goes_on_trans(s, s0, s1);
    let s4 = s1.moved(end);
    assert(e.spaced(s4) == s4);
    let s5 = s1.moved(end + 1);
    assert(e.taken(s4) == s5);
    let s6 = with_scope(s5, args);
    let s7 = s6.moved(body.from);
    assert(s7 == with_scope(s1, args).moved(body.from));
    assert(e.spaced(s6) == s7);
    lemma_scope_ready(s1, args, body.from);
    let (s8, node) = (body.read)(s7);
    lemma_body_at(e, at, names, body, s6);
    parts::lemma_goes_on(s7, s8);
    lemma_scope_closed(s1, s7, s8, args);
    let s9 = without_scope(s8);
    parts::lemma_goes_on(s1, s9);
    let made = function_of(args, s8.top(), node, starts_with_self(s1, args));
    let span = Span { start: e.tokens[at].span.start, end: e.tokens[body.to - 1].span.end };
    parts::lemma_pushed(s9, AstNodeView { node: made, span });
    parts::lemma_goes_on_trans(s, s1, s9);
    parts::lemma_goes_on_trans(s, s9, (whole.read)(s).0);
    assert(s5.constants == s1.constants);
    assert(grammar::function(e, s) == grammar::present(s9.add_spanned_node(made, span))) by {
        reveal(grammar::function);
        reveal(grammar::function_body);
    }
    lemma_term_at_function(e, s, primary);
}

/// The scope of a function is ready for its body.
proof fn lemma_scope_ready(s: State, args: Seq<u32>, at: int)
    requires
        parts::is_ready(s),
        s.at <= at,
    ensures
        parts::is_ready(with_scope(s, args).moved(at)),
{
    reveal(parts::is_ready);
    assert(with_scope(s, args).moved(at).top() == frame::new_frame(false, args.to_set()));
}

/// The scopes around a function are as they were when its own is closed, but for what it reads.
proof fn lemma_scope_closed(before: State, opened: State, read: State, args: Seq<u32>)
    requires
        parts::is_ready(before),
        opened == with_scope(before, args).moved(opened.at),
        before.at <= opened.at,
        parts::goes_on(opened, read),
    ensures
        parts::goes_on(before, without_scope(read)),
{
    parts::lemma_goes_on(opened, read);
    reveal(parts::goes_on);
    reveal(parts::is_ready);
    assert(opened.frames.drop_last() =~= before.frames);
    let after = without_scope(read);
    assert(after.frames.drop_last() =~= before.frames.drop_last());
    assert(after.top() == before.top().with_nested(read.top()));
    assert forall|id: u32| #[trigger] after.top().access_count(id) <= after.at by {
        assert(before.top().access_count(id) <= before.at);
    }
}

proof fn lemma_body_at(e: Script, at: int, names: Seq<int>, body: Part, s: State)
    requires
        is_function(e, at, names, body),
        e.skip_spaces(s.at) == body.from,
        body.fits(s.moved(body.from)),
    ensures
        ({
            let (s1, node) = (body.read)(s.moved(body.from));
            &&& grammar::function_body(e, s, blocks::indent_before(e, at)) == Ok::<_, ParserError>(
                (s1, node),
            )
            &&& body.leads_on(s.moved(body.from))
        }),
{
    reveal(grammar::function_body);
    let indent = blocks::indent_before(e, at);
    let s1 = s.moved(body.from);
    assert(e.spaced(s) == s1);
    if e.token_at(body.from) == Some(Token::NewLineIndented) && e.tokens[body.from].indent
        > indent {
        parts::lemma_is_block(e, body, indent, s1);
    } else {
        parts::lemma_is_line(e, body, s1);
    }
}

proof fn lemma_term_at_function(e: Script, s: State, primary: bool)
    requires
        e.next(s) == Some(Token::Function),
        e.spaced(s) == s,
    ensures
        grammar::term(e, s, primary) == grammar::function(e, s),
{
    reveal(grammar::term);
    reveal(grammar::function);
}

} // verus!

//! Reading imports.

use crate::error::{ParserError, SyntaxError};
use crate::frame;
use crate::grammar;
use crate::node::{AstIndex, ConstantIndex, Node};
use crate::parser::Parser;
use crate::token::Token;
use crate::tree;
use vstd::prelude::*;

verus! {

broadcast use {crate::script::group_places, crate::script::group_extends};

impl<'source> Parser<'source> {
    /// Reads an `import`.
    pub(crate) fn parse_import_expression(&mut self) -> (r: Result<Option<AstIndex>, ParserError>)
        requires
            old(self).wf(),
        ensures
            old(self).reads_form(
                final(self),
                r,
                grammar::import(old(self).script(), old(self).state()),
            ),
    {
        reveal(grammar::import);
        if self.peek_token() != Some(Token::Import) {
            return Ok(None);
        }
        self.consume_token();
        self.skip_whitespace_and_peek();
        let items = self.parse_import_items()?;
        let module = self.parse_import_module()?;
        self.assign_id(module[module.len() - 1])?;
        Ok(Some(self.push_node(Node::Import { module, items })?))
    }

    /// Reads the items of an `import`, if it has a list of them.
    #[verifier::loop_isolation(false)]
    fn parse_import_items(&mut self) -> (r: Result<Vec<ConstantIndex>, ParserError>)
        requires
            old(self).wf(),
        ensures
            old(self).reads_list(
                final(self),
                r,
                grammar::import_items(old(self).script(), old(self).state()),
            ),
            r matches Ok(items) ==> tree::are_strings(final(self).state().constants, items@),
    {
        reveal(grammar::import_items);
        let mut items: Vec<ConstantIndex> = Vec::new();
        assert(items@ =~= Seq::<ConstantIndex>::empty());
        if self.peek_token() != Some(Token::ListStart) {
            return Ok(items);
        }
        self.consume_token();
        match self.parse_id(false) {
            Some(first) => items.push(first),
            None => {
                return Err(self.syntax_error(SyntaxError::ExpectedIdInImportItemList));
            },
        }
        assert(items@ =~= seq![items@[0]]);
        let ghost e = self.script();
        let ghost from_here = grammar::import_items_from(e, self.state(), items@);
        while self.skip_whitespace_and_peek() != Some(Token::ListEnd)
            invariant
                self.script() == e,
                old(self).leads_to(self),
                tree::are_strings(self.state().constants, items@),
                grammar::import_items_from(e, self.state(), items@) == from_here,
            decreases self.left(),
        {
            reveal(grammar::import_items_from);
            match self.parse_id(false) {
                Some(item) => items.push(item),
                None => {
                    return Err(self.syntax_error(SyntaxError::ExpectedIdInImportItemList));
                },
            }
        }
        reveal(grammar::import_items_from);
        if self.consume_token() != Some(Token::ListEnd) {
            return Err(self.syntax_error(SyntaxError::ExpectedListEndInImportItemList));
        }
        if self.skip_whitespace_and_next() != Some(Token::From) {
            return Err(self.syntax_error(SyntaxError::ExpectedFromAfterImportItemList));
        }
        self.assign_ids(&items)?;
        Ok(items)
    }

    /// Assigns ids in the innermost scope.
    #[verifier::loop_isolation(false)]
    fn assign_ids(&mut self, ids: &Vec<ConstantIndex>) -> (r: Result<(), ParserError>)
        requires
            old(self).wf(),
            tree::are_strings(old(self).state().constants, ids@),
        ensures
            r is Ok,
            final(self).state() == old(self).state().with_top(
                old(self).state().top().with_all_assigned(ids@),
            ),
            old(self).leads_to(final(self)),
    {
        proof {
            self.lemma_frames(0);
        }
        let ghost s = self.state();
        let mut k: usize = 0;
        assert(s.top().with_all_assigned(ids@.take(0)).assigned =~= s.top().assigned);
        assert(s.top().with_all_assigned(ids@.take(0)).new_targets =~= s.top().new_targets);
        assert(s.with_top(s.top()).frames =~= s.frames);
        while k < ids.len()
            invariant
                k <= ids@.len(),
                old(self).leads_to(self),
                self.state() == s.with_top(s.top().with_all_assigned(ids@.take(k as int))),
            decreases ids.len() - k,
        {
            let ghost before = self.state();
            self.assign_id(ids[k])?;
            k = k + 1;
            proof {
                let ids = ids@;
                let more = ids.take(k as int);
                frame::lemma_take_set(ids, k as int);
                assert(before.top().with_assigned(ids[k - 1]).assigned
                    =~= s.top().with_all_assigned(more).assigned);
                assert(before.top().with_assigned(ids[k - 1]).new_targets
                    =~= s.top().with_all_assigned(more).new_targets);
                assert(self.state().frames =~= s.with_top(s.top().with_all_assigned(more)).frames);
            }
        }
        assert(ids@.take(k as int) =~= ids@);
        Ok(())
    }

    /// Reads the module of an `import`.
    #[verifier::loop_isolation(false)]
    fn parse_import_module(&mut self) -> (r: Result<Vec<ConstantIndex>, ParserError>)
        requires
            old(self).wf(),
        ensures
            old(self).reads_list(
                final(self),
                r,
                grammar::import_module(old(self).script(), old(self).state()),
            ),
            r matches Ok(module) ==> module@.len() > 0 && tree::are_strings(
                final(self).state().constants,
                module@,
            ),
    {
        reveal(grammar::import_module);
        let mut module: Vec<ConstantIndex> = Vec::new();
        match self.parse_id(false) {
            Some(first) => module.push(first),
            None => {
                return Err(self.syntax_error(SyntaxError::ExpectedImportModuleId));
            },
        }
        assert(module@ =~= seq![module@[0]]);
        let ghost e = self.script();
        let ghost from_here = grammar::import_module_from(e, self.state(), module@);
        while self.peek_token() == Some(Token::Dot)
            invariant
                self.script() == e,
                old(self).leads_to(self),
                module@.len() > 0,
                tree::are_strings(self.state().constants, module@),
                grammar::import_module_from(e, self.state(), module@) == from_here,
            decreases self.left(),
        {
            reveal(grammar::import_module_from);
            self.consume_token();
            match self.parse_id(false) {
                Some(child) => module.push(child),
                None => {
                    return Err(self.syntax_error(SyntaxError::ExpectedImportModuleId));
                },
            }
        }
        reveal(grammar::import_module_from);
        Ok(module)
    }
}

} // verus!

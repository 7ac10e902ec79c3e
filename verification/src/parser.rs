//! A recursive-descent parser.

use crate::ast::{
    self, BinaryOp, Block, BlockItem, CompUnit, ConstDef, Decl, Expr, FuncDecl, FuncDef, FuncParam,
    GlobalItem, Stmt, Type, UnaryOp, VarDef,
};
use crate::error::{fail_at, CompilerResult};
use crate::grammar;
use crate::lexer::{self, KindV, Token, TokenKind, TokenV};
use vstd::prelude::*;

verus! {

broadcast use {
    crate::ast::exprs_push,
    crate::ast::call_view,
    crate::ast::init_list_view,
    crate::ast::block_items_push,
    crate::ast::block_view,
};

/// Whether a list of tokens marks the end of the source.
pub open spec fn marks_end(t: Seq<TokenV>) -> bool {
    exists|i: int| 0 <= i < t.len() && (#[trigger] t[i]).kind == KindV::Other(TokenKind::Eof)
}

/// A list of tokens with an end. One that does not mark the end of the source goes on with its
/// last token, more often than all its tokens before could take it in.
pub open spec fn ended(t: Seq<TokenV>) -> Seq<TokenV> {
    if marks_end(t) {
        t
    } else {
        t + Seq::new(t.len() + 1, |i: int| t.last()) + seq![
            TokenV { kind: KindV::Other(TokenKind::Eof), position: t.last().position },
        ]
    }
}

/// Whether there is a token that marks the end of the source.
fn has_end(tokens: &Vec<Token>) -> (r: bool)
    ensures
        r == marks_end(lexer::tokens_view(tokens@)),
{
    let ghost all = lexer::tokens_view(tokens@);
    let mut i: usize = 0;
    while i < tokens.len()
        invariant
            i <= tokens.len(),
            all == lexer::tokens_view(tokens@),
            forall|k: int| 0 <= k < i ==> (#[trigger] all[k]).kind != KindV::Other(TokenKind::Eof),
        decreases tokens.len() - i,
    {
        assert(all[i as int] == tokens@[i as int].view());
        if matches!(tokens[i].kind, TokenKind::Eof) {
            assert(all[i as int].kind == KindV::Other(TokenKind::Eof));
            return true;
        }
        i = i + 1;
    }
    false
}

/// Parses a program, up to the first token that marks the end of the source.
pub fn parse(tokens: Vec<Token>) -> (r: CompilerResult<CompUnit>)
    requires
        tokens@.len() > 0,
        marks_end(lexer::tokens_view(tokens@)) || 2 * tokens@.len() + 2 <= usize::MAX,
    ensures
        match grammar::program(Seq::empty(), ended(lexer::tokens_view(tokens@)), 0) {
            Ok(items) => r matches Ok(unit) && unit.view() == items,
            Err(e) => r matches Err(x) && x@ == e,
        },
{
    let mut tokens = tokens;
    let ghost t = lexer::tokens_view(tokens@);
    let n = tokens.len();
    if !has_end(&tokens) {
        let last = tokens[n - 1].clone();
        let position = last.position;
        assert(last.view() == t.last());
        let mut i: usize = 0;
        while i <= n
            invariant
                i <= n + 1,
                n == t.len(),
                2 * n + 2 <= usize::MAX,
                last.view() == t.last(),
                lexer::tokens_view(tokens@) =~= t + Seq::new(i as nat, |k: int| t.last()),
            decreases n + 1 - i,
        {
            let ghost before = lexer::tokens_view(tokens@);
            tokens.push(last.clone());
            assert(lexer::tokens_view(tokens@) =~= before.push(t.last()));
            i = i + 1;
        }
        tokens.push(Token { kind: TokenKind::Eof, position });
        assert(lexer::tokens_view(tokens@) =~= ended(t));
        assert(tokens@.last().kind is Eof);
    }
    proof {
        let all = lexer::tokens_view(tokens@);
        let i = if marks_end(t) {
            choose|i: int|
                0 <= i < t.len() && (#[trigger] t[i]).kind == KindV::Other(TokenKind::Eof)
        } else {
            tokens@.len() - 1
        };
        assert(all[i] == tokens@[i].view());
        assert(tokens@[i].kind is Eof);
    }
    assert(tokens.len() <= usize::MAX);
    Parser::new(tokens).parse_comp_unit()
}

struct Parser {
    tokens: Vec<Token>,
    index: usize,
}

impl Parser {
    spec fn toks(self) -> Seq<TokenV> {
        lexer::tokens_view(self.tokens@)
    }

    spec fn wf(self) -> bool {
        &&& self.tokens@.len() <= usize::MAX
        &&& exists|i: int|
            self.index <= i < self.tokens@.len() && (#[trigger] self.tokens@[i]).kind is Eof
    }

    /// Whether `self` is `before` moved on to the token at `next`.
    spec fn moved(self, before: Parser, next: int) -> bool {
        self.tokens == before.tokens && self.wf() && self.index == next && before.index < next
            <= self.tokens@.len()
    }

    fn new(tokens: Vec<Token>) -> (r: Self)
        ensures
            r.tokens == tokens,
            r.index == 0,
    {
        Parser { tokens, index: 0 }
    }

    #[verifier::loop_isolation(false)]
    fn parse_comp_unit(self) -> (r: CompilerResult<CompUnit>)
        requires
            self.wf(),
        ensures
            match grammar::program(Seq::empty(), self.toks(), self.index as int) {
                Ok(items) => r matches Ok(unit) && unit.view() == items,
                Err(e) => r matches Err(x) && x@ == e,
            },
    {
        let mut parser = self;
        let mut items: Vec<GlobalItem> = Vec::new();
        let ghost views = |v: Seq<GlobalItem>| v.map_values(|g: GlobalItem| g.view());
        assert(views(items@) =~= Seq::empty());
        while !matches!(parser.current_kind(), TokenKind::Eof)
            invariant
                parser.wf(),
                parser.tokens == self.tokens,
                grammar::program(Seq::empty(), self.toks(), self.index as int) == grammar::program(
                    items@.map_values(|g: GlobalItem| g.view()),
                    self.toks(),
                    parser.index as int,
                ),
            decreases parser.tokens@.len() - parser.index,
        {
            let ghost before = items@;
            let item = parser.parse_global_item()?;
            items.push(item);
            assert(items@.map_values(|g: GlobalItem| g.view()) =~= before.map_values(
                |g: GlobalItem| g.view(),
            ).push(item.view()));
        }
        Ok(CompUnit { items })
    }

    fn parse_global_item(&mut self) -> (r: CompilerResult<GlobalItem>)
        requires
            old(self).wf(),
        ensures
            final(self).tokens == old(self).tokens,
            match grammar::global_item(old(self).toks(), old(self).index as int) {
                Ok((g, j)) => r matches Ok(x) && x.view() == g && final(self).moved(*old(self), j),
                Err(e) => r matches Err(x) && x@ == e,
            },
    {
        let kind = self.current_kind();
        if matches!(kind, TokenKind::KwConst) {
            let decl = self.parse_const_decl()?;
            Ok(GlobalItem::Decl(decl))
        } else if matches!(kind, TokenKind::KwInt) {
            if self.var_def_follows() {
                let decl = self.parse_var_decl()?;
                Ok(GlobalItem::Decl(decl))
            } else {
                self.advance();
                self.parse_function(Type::Int)
            }
        } else if matches!(kind, TokenKind::KwVoid) {
            self.advance();
            self.parse_function(Type::Void)
        } else {
            Err(fail_at(self.position(), "expected function definition or declaration"))
        }
    }

    /// Whether the token after the current one is a name that starts a variable definition.
    fn var_def_follows(&self) -> (r: bool)
        requires
            self.wf(),
            self.tokens@[self.index as int].kind is KwInt,
        ensures
            r == grammar::is_var_def(self.toks(), self.index + 1),
    {
        if !matches!(self.tokens[self.index + 1].kind, TokenKind::Ident(_)) {
            return false;
        }
        match &self.tokens[self.index + 2].kind {
            TokenKind::Eq => true,
            TokenKind::Comma => true,
            TokenKind::Semicolon => true,
            TokenKind::LBracket => true,
            _ => false,
        }
    }

    fn parse_function(&mut self, ret_type: Type) -> (r: CompilerResult<GlobalItem>)
        requires
            old(self).wf(),
        ensures
            final(self).tokens == old(self).tokens,
            match grammar::function(ret_type, old(self).toks(), old(self).index as int) {
                Ok((g, j)) => r matches Ok(x) && x.view() == g && final(self).moved(*old(self), j),
                Err(e) => r matches Err(x) && x@ == e,
            },
    {
        let name = self.expect_ident()?;
        self.expect_l_paren()?;
        let params = self.parse_func_f_params()?;
        self.expect_r_paren()?;
        if matches!(self.current_kind(), TokenKind::Semicolon) {
            self.advance();
            Ok(GlobalItem::FuncDecl(FuncDecl { ret_type, name, params }))
        } else {
            let body = self.parse_block()?;
            Ok(GlobalItem::FuncDef(FuncDef { ret_type, name, params, body }))
        }
    }

    #[verifier::loop_isolation(false)]
    fn parse_func_f_params(&mut self) -> (r: CompilerResult<Vec<FuncParam>>)
        requires
            old(self).wf(),
        ensures
            final(self).tokens == old(self).tokens,
            match grammar::params(old(self).toks(), old(self).index as int) {
                Ok((p, j)) => r matches Ok(x) && ast::params(x@) == p && final(self).wf()
                    && final(self).index == j && j >= old(self).index,
                Err(e) => r matches Err(x) && x@ == e,
            },
    {
        let mut params: Vec<FuncParam> = Vec::new();
        if matches!(self.current_kind(), TokenKind::KwInt) {
            self.advance();
            let param = self.parse_func_f_param()?;
            params.push(param);
            assert(ast::params(params@) =~= seq![param.view()]);
            let ghost first = ast::params(params@);
            let ghost start = self.index as int;
            while matches!(self.current_kind(), TokenKind::Comma)
                invariant
                    self.wf(),
                    self.tokens == old(self).tokens,
                    self.index >= old(self).index,
                    grammar::more_params(first, self.toks(), start) == grammar::more_params(
                        ast::params(params@),
                        self.toks(),
                        self.index as int,
                    ),
                decreases self.tokens@.len() - self.index,
            {
                let ghost before = params@;
                self.advance();
                self.expect_keyword_int()?;
                let param = self.parse_func_f_param()?;
                params.push(param);
                assert(ast::params(params@) =~= ast::params(before).push(param.view()));
            }
        } else {
            assert(ast::params(params@) =~= Seq::empty());
        }
        Ok(params)
    }

    fn parse_func_f_param(&mut self) -> (r: CompilerResult<FuncParam>)
        requires
            old(self).wf(),
        ensures
            final(self).tokens == old(self).tokens,
            match grammar::param(old(self).toks(), old(self).index as int) {
                Ok((p, j)) => r matches Ok(x) && x.view() == p && final(self).moved(*old(self), j),
                Err(e) => r matches Err(x) && x@ == e,
            },
    {
        let name = self.expect_ident()?;
        if matches!(self.current_kind(), TokenKind::LBracket) {
            self.advance();
            self.expect_r_bracket()?;
            let array_dims = self.parse_array_dims()?;
            Ok(FuncParam { name, is_array: true, array_dims })
        } else {
            let array_dims: Vec<Expr> = Vec::new();
            assert(ast::exprs(array_dims@) =~= Seq::empty());
            Ok(FuncParam { name, is_array: false, array_dims })
        }
    }

    #[verifier::loop_isolation(false)]
    fn parse_block(&mut self) -> (r: CompilerResult<Block>)
        requires
            old(self).wf(),
        ensures
            final(self).tokens == old(self).tokens,
            match grammar::block(old(self).toks(), old(self).index as int) {
                Ok((b, j)) => r matches Ok(x) && x.view() == b && final(self).moved(*old(self), j),
                Err(e) => r matches Err(x) && x@ == e,
            },
        decreases old(self).tokens@.len() - old(self).index, 1int,
    {
        self.expect_l_brace()?;
        let mut items: Vec<BlockItem> = Vec::new();
        let ghost start = self.index as int;
        assert(ast::block_items(items@) =~= Seq::empty());
        while !self.at_block_end()
            invariant
                self.wf(),
                self.tokens == old(self).tokens,
                self.index > old(self).index,
                grammar::items(Seq::empty(), self.toks(), start) == grammar::items(
                    ast::block_items(items@),
                    self.toks(),
                    self.index as int,
                ),
            decreases self.tokens@.len() - self.index,
        {
            let item = self.parse_block_item()?;
            items.push(item);
        }
        self.expect_r_brace()?;
        Ok(Block { items })
    }

    fn at_block_end(&self) -> (r: bool)
        requires
            self.wf(),
        ensures
            r == (grammar::at(self.toks(), self.index as int, TokenKind::RBrace) || grammar::at(
                self.toks(),
                self.index as int,
                TokenKind::Eof,
            )),
    {
        match self.current_kind() {
            TokenKind::RBrace => true,
            TokenKind::Eof => true,
            _ => false,
        }
    }

    fn parse_block_item(&mut self) -> (r: CompilerResult<BlockItem>)
        requires
            old(self).wf(),
        ensures
            final(self).tokens == old(self).tokens,
            match grammar::block_item(old(self).toks(), old(self).index as int) {
                Ok((b, j)) => r matches Ok(x) && x.view() == b && final(self).moved(*old(self), j),
                Err(e) => r matches Err(x) && x@ == e,
            },
        decreases old(self).tokens@.len() - old(self).index, 3int,
    {
        let kind = self.current_kind();
        if matches!(kind, TokenKind::KwConst) {
            let decl = self.parse_const_decl()?;
            Ok(BlockItem::Decl(decl))
        } else if matches!(kind, TokenKind::KwInt) {
            let decl = self.parse_var_decl()?;
            Ok(BlockItem::Decl(decl))
        } else {
            let stmt = self.parse_stmt()?;
            Ok(BlockItem::Stmt(stmt))
        }
    }

    #[verifier::loop_isolation(false)]
    fn parse_const_decl(&mut self) -> (r: CompilerResult<Decl>)
        requires
            old(self).wf(),
            old(self).tokens@[old(self).index as int].kind is KwConst,
        ensures
            final(self).tokens == old(self).tokens,
            match grammar::const_decl(old(self).toks(), old(self).index as int) {
                Ok((d, j)) => r matches Ok(x) && x.view() == d && final(self).moved(*old(self), j),
                Err(e) => r matches Err(x) && x@ == e,
            },
    {
        self.advance();
        self.expect_keyword_int()?;
        let mut defs: Vec<ConstDef> = Vec::new();
        let def = self.parse_const_def()?;
        defs.push(def);
        assert(defs@.map_values(|d: ConstDef| d.view()) =~= seq![def.view()]);
        let ghost first = seq![def.view()];
        let ghost start = self.index as int;
        while matches!(self.current_kind(), TokenKind::Comma)
            invariant
                self.wf(),
                self.tokens == old(self).tokens,
                self.index > old(self).index,
                grammar::more_const_defs(first, self.toks(), start) == grammar::more_const_defs(
                    defs@.map_values(|d: ConstDef| d.view()),
                    self.toks(),
                    self.index as int,
                ),
            decreases self.tokens@.len() - self.index,
        {
            let ghost before = defs@;
            self.advance();
            let def = self.parse_const_def()?;
            defs.push(def);
            assert(defs@.map_values(|d: ConstDef| d.view()) =~= before.map_values(
                |d: ConstDef| d.view(),
            ).push(def.view()));
        }
        self.expect_semicolon()?;
        Ok(Decl::Const(defs))
    }

    fn parse_const_def(&mut self) -> (r: CompilerResult<ConstDef>)
        requires
            old(self).wf(),
        ensures
            final(self).tokens == old(self).tokens,
            match grammar::const_def(old(self).toks(), old(self).index as int) {
                Ok((d, j)) => r matches Ok(x) && x.view() == d && final(self).moved(*old(self), j),
                Err(e) => r matches Err(x) && x@ == e,
            },
    {
        let name = self.expect_ident()?;
        let dims = self.parse_array_dims()?;
        self.expect_eq()?;
        let init = self.parse_init_val()?;
        Ok(ConstDef { name, dims, init })
    }

    #[verifier::loop_isolation(false)]
    fn parse_var_decl(&mut self) -> (r: CompilerResult<Decl>)
        requires
            old(self).wf(),
            old(self).tokens@[old(self).index as int].kind is KwInt,
        ensures
            final(self).tokens == old(self).tokens,
            match grammar::var_decl(old(self).toks(), old(self).index as int) {
                Ok((d, j)) => r matches Ok(x) && x.view() == d && final(self).moved(*old(self), j),
                Err(e) => r matches Err(x) && x@ == e,
            },
    {
        self.advance();
        let mut defs: Vec<VarDef> = Vec::new();
        let def = self.parse_var_def()?;
        defs.push(def);
        assert(defs@.map_values(|d: VarDef| d.view()) =~= seq![def.view()]);
        let ghost first = seq![def.view()];
        let ghost start = self.index as int;
        while matches!(self.current_kind(), TokenKind::Comma)
            invariant
                self.wf(),
                self.tokens == old(self).tokens,
                self.index > old(self).index,
                grammar::more_var_defs(first, self.toks(), start) == grammar::more_var_defs(
                    defs@.map_values(|d: VarDef| d.view()),
                    self.toks(),
                    self.index as int,
                ),
            decreases self.tokens@.len() - self.index,
        {
            let ghost before = defs@;
            self.advance();
            let def = self.parse_var_def()?;
            defs.push(def);
            assert(defs@.map_values(|d: VarDef| d.view()) =~= before.map_values(
                |d: VarDef| d.view(),
            ).push(def.view()));
        }
        self.expect_semicolon()?;
        Ok(Decl::Var(defs))
    }

    fn parse_var_def(&mut self) -> (r: CompilerResult<VarDef>)
        requires
            old(self).wf(),
        ensures
            final(self).tokens == old(self).tokens,
            match grammar::var_def(old(self).toks(), old(self).index as int) {
                Ok((d, j)) => r matches Ok(x) && x.view() == d && final(self).moved(*old(self), j),
                Err(e) => r matches Err(x) && x@ == e,
            },
    {
        let name = self.expect_ident()?;
        let dims = self.parse_array_dims()?;
        if matches!(self.current_kind(), TokenKind::Eq) {
            self.advance();
            let init = self.parse_init_val()?;
            Ok(VarDef { name, dims, init: Some(init) })
        } else {
            Ok(VarDef { name, dims, init: None })
        }
    }

    #[verifier::loop_isolation(false)]
    fn parse_init_val(&mut self) -> (r: CompilerResult<Expr>)
        requires
            old(self).wf(),
        ensures
            final(self).tokens == old(self).tokens,
            match grammar::init_val(old(self).toks(), old(self).index as int) {
                Ok((v, j)) => r matches Ok(x) && x.view() == v && final(self).moved(*old(self), j),
                Err(e) => r matches Err(x) && x@ == e,
            },
        decreases old(self).tokens@.len() - old(self).index,
    {
        if !matches!(self.current_kind(), TokenKind::LBrace) {
            return self.parse_expr();
        }
        self.advance();
        let mut items: Vec<Expr> = Vec::new();
        assert(ast::exprs(items@) =~= Seq::empty());
        if matches!(self.current_kind(), TokenKind::RBrace) {
            self.advance();
            return Ok(Expr::InitList(items));
        }
        let item = self.parse_init_val()?;
        items.push(item);
        assert(ast::exprs(items@) =~= seq![item.view()]);
        let ghost first = ast::exprs(items@);
        let ghost start = self.index as int;
        while matches!(self.current_kind(), TokenKind::Comma)
            invariant
                self.wf(),
                self.tokens == old(self).tokens,
                self.index > old(self).index,
                grammar::more_inits(first, self.toks(), start) == grammar::more_inits(
                    ast::exprs(items@),
                    self.toks(),
                    self.index as int,
                ),
            decreases self.tokens@.len() - self.index,
        {
            self.advance();
            let item = self.parse_init_val()?;
            items.push(item);
        }
        self.expect_r_brace()?;
        Ok(Expr::InitList(items))
    }

    #[verifier::loop_isolation(false)]
    fn parse_array_dims(&mut self) -> (r: CompilerResult<Vec<Expr>>)
        requires
            old(self).wf(),
        ensures
            final(self).tokens == old(self).tokens,
            match grammar::brackets(Seq::empty(), old(self).toks(), old(self).index as int) {
                Ok((d, j)) => r matches Ok(x) && ast::exprs(x@) == d && final(self).wf() && final(self).index == j && j >= old(self).index,
                Err(e) => r matches Err(x) && x@ == e,
            },
    {
        let mut dims: Vec<Expr> = Vec::new();
        assert(ast::exprs(dims@) =~= Seq::empty());
        while matches!(self.current_kind(), TokenKind::LBracket)
            invariant
                self.wf(),
                self.tokens == old(self).tokens,
                self.index >= old(self).index,
                grammar::brackets(Seq::empty(), self.toks(), old(self).index as int)
                    == grammar::brackets(ast::exprs(dims@), self.toks(), self.index as int),
            decreases self.tokens@.len() - self.index,
        {
            self.advance();
            let dim = self.parse_expr()?;
            self.expect_r_bracket()?;
            dims.push(dim);
        }
        Ok(dims)
    }

    fn parse_stmt(&mut self) -> (r: CompilerResult<Stmt>)
        requires
            old(self).wf(),
        ensures
            final(self).tokens == old(self).tokens,
            match grammar::stmt(old(self).toks(), old(self).index as int) {
                Ok((s, j)) => r matches Ok(x) && x.view() == s && final(self).moved(*old(self), j),
                Err(e) => r matches Err(x) && x@ == e,
            },
        decreases old(self).tokens@.len() - old(self).index, 2int,
    {
        match self.current_kind() {
            TokenKind::KwReturn => self.parse_return(),
            TokenKind::KwIf => {
                let cond = self.parse_condition()?;
                let then_branch = self.parse_stmt()?;
                if matches!(self.current_kind(), TokenKind::KwElse) {
                    self.advance();
                    let else_branch = self.parse_stmt()?;
                    Ok(
                        Stmt::If {
                            cond,
                            then_branch: Box::new(then_branch),
                            else_branch: Some(Box::new(else_branch)),
                        },
                    )
                } else {
                    Ok(Stmt::If { cond, then_branch: Box::new(then_branch), else_branch: None })
                }
            },
            TokenKind::KwWhile => {
                let cond = self.parse_condition()?;
                let body = self.parse_stmt()?;
                Ok(Stmt::While { cond, body: Box::new(body) })
            },
            TokenKind::KwBreak => {
                self.advance();
                self.expect_semicolon()?;
                Ok(Stmt::Break)
            },
            TokenKind::KwContinue => {
                self.advance();
                self.expect_semicolon()?;
                Ok(Stmt::Continue)
            },
            TokenKind::KwAsm => {
                let code = self.parse_asm()?;
                self.expect_semicolon()?;
                Ok(Stmt::Asm(code))
            },
            TokenKind::Semicolon => {
                self.advance();
                Ok(Stmt::Empty)
            },
            TokenKind::LBrace => {
                let block = self.parse_block()?;
                Ok(Stmt::Block(block))
            },
            TokenKind::Ident(_) => self.parse_name_stmt(),
            _ => self.parse_expr_stmt(),
        }
    }

    fn parse_return(&mut self) -> (r: CompilerResult<Stmt>)
        requires
            old(self).wf(),
            old(self).tokens@[old(self).index as int].kind is KwReturn,
        ensures
            final(self).tokens == old(self).tokens,
            match grammar::return_stmt(old(self).toks(), old(self).index as int) {
                Ok((s, j)) => r matches Ok(x) && x.view() == s && final(self).moved(*old(self), j),
                Err(e) => r matches Err(x) && x@ == e,
            },
    {
        self.advance();
        if matches!(self.current_kind(), TokenKind::Semicolon) {
            self.advance();
            Ok(Stmt::Return(None))
        } else {
            let expr = self.parse_expr()?;
            self.expect_semicolon()?;
            Ok(Stmt::Return(Some(expr)))
        }
    }

    /// Parses the parenthesized condition after an `if` or `while`.
    fn parse_condition(&mut self) -> (r: CompilerResult<Expr>)
        requires
            old(self).wf(),
            !(old(self).tokens@[old(self).index as int].kind is Eof),
        ensures
            final(self).tokens == old(self).tokens,
            match grammar::condition(old(self).toks(), old(self).index as int) {
                Ok((v, j)) => r matches Ok(x) && x.view() == v && final(self).moved(*old(self), j),
                Err(e) => r matches Err(x) && x@ == e,
            },
    {
        self.advance();
        self.expect_l_paren()?;
        let cond = self.parse_expr()?;
        self.expect_r_paren()?;
        Ok(cond)
    }

    fn parse_expr_stmt(&mut self) -> (r: CompilerResult<Stmt>)
        requires
            old(self).wf(),
        ensures
            final(self).tokens == old(self).tokens,
            match grammar::expr_stmt(old(self).toks(), old(self).index as int) {
                Ok((s, j)) => r matches Ok(x) && x.view() == s && final(self).moved(*old(self), j),
                Err(e) => r matches Err(x) && x@ == e,
            },
    {
        let expr = self.parse_expr()?;
        self.expect_semicolon()?;
        Ok(Stmt::Expr(expr))
    }

    /// Parses an assignment, or an expression that starts with a name.
    #[verifier::loop_isolation(false)]
    fn parse_name_stmt(&mut self) -> (r: CompilerResult<Stmt>)
        requires
            old(self).wf(),
            old(self).tokens@[old(self).index as int].kind is Ident,
        ensures
            final(self).tokens == old(self).tokens,
            match grammar::name_stmt(
                old(self).toks()[old(self).index as int].kind->Ident_0,
                old(self).toks(),
                old(self).index as int,
            ) {
                Ok((s, j)) => r matches Ok(x) && x.view() == s && final(self).moved(*old(self), j),
                Err(e) => r matches Err(x) && x@ == e,
            },
    {
        if matches!(self.tokens[self.index + 1].kind, TokenKind::LParen) {
            return self.parse_expr_stmt();
        }
        let name = self.expect_ident()?;
        let index = self.parse_array_dims()?;
        if matches!(self.current_kind(), TokenKind::Eq) {
            self.advance();
            let expr = self.parse_expr()?;
            self.expect_semicolon()?;
            Ok(Stmt::Assign { name, index, expr })
        } else {
            let operand = add_indices(Expr::LVal(name), index);
            let expr = self.parse_expr_from(0, operand)?;
            self.expect_semicolon()?;
            Ok(Stmt::Expr(expr))
        }
    }

    fn parse_asm(&mut self) -> (r: CompilerResult<String>)
        requires
            old(self).wf(),
            old(self).tokens@[old(self).index as int].kind is KwAsm,
        ensures
            final(self).tokens == old(self).tokens,
            match grammar::asm_code(old(self).toks(), old(self).index as int) {
                Ok((c, j)) => r matches Ok(x) && x@ == c && final(self).moved(*old(self), j),
                Err(e) => r matches Err(x) && x@ == e,
            },
    {
        self.advance();
        self.expect_l_paren()?;
        let code = match self.current_kind() {
            TokenKind::StrLiteral(code) => code.clone(),
            _ => return Err(fail_at(self.position(), "expected string literal")),
        };
        self.advance();
        self.expect_r_paren()?;
        Ok(code)
    }

    fn parse_expr(&mut self) -> (r: CompilerResult<Expr>)
        requires
            old(self).wf(),
        ensures
            final(self).tokens == old(self).tokens,
            match grammar::expr(old(self).toks(), old(self).index as int) {
                Ok((v, j)) => r matches Ok(x) && x.view() == v && final(self).moved(*old(self), j),
                Err(e) => r matches Err(x) && x@ == e,
            },
        decreases old(self).tokens@.len() - old(self).index, 20int,
    {
        self.parse_binary(0)
    }

    /// Parses the rest of an expression whose first operand has been read.
    fn parse_expr_from(&mut self, level: usize, lhs: Expr) -> (r: CompilerResult<Expr>)
        requires
            old(self).wf(),
            level <= 6,
        ensures
            final(self).tokens == old(self).tokens,
            match grammar::expr_from(
                level as int,
                lhs.view(),
                old(self).toks(),
                old(self).index as int,
            ) {
                Ok((v, j)) => r matches Ok(x) && x.view() == v && final(self).wf() && final(self).index == j && j >= old(self).index,
                Err(e) => r matches Err(x) && x@ == e,
            },
        decreases 6 - level,
    {
        if level == 6 {
            return Ok(lhs);
        }
        let expr = self.parse_expr_from(level + 1, lhs)?;
        self.parse_binary_rest(level, expr)
    }

    /// Parses an expression whose binary operators bind at least as tightly as `level`.
    fn parse_binary(&mut self, level: usize) -> (r: CompilerResult<Expr>)
        requires
            old(self).wf(),
            level <= 6,
        ensures
            final(self).tokens == old(self).tokens,
            match grammar::binary(level as int, old(self).toks(), old(self).index as int) {
                Ok((v, j)) => r matches Ok(x) && x.view() == v && final(self).moved(*old(self), j),
                Err(e) => r matches Err(x) && x@ == e,
            },
        decreases old(self).tokens@.len() - old(self).index, 10 - level,
    {
        if level == 6 {
            return self.parse_unary_expr();
        }
        let lhs = self.parse_binary(level + 1)?;
        self.parse_binary_rest(level, lhs)
    }

    /// Parses the operators of a level that follow `lhs`.
    #[verifier::loop_isolation(false)]
    fn parse_binary_rest(&mut self, level: usize, lhs: Expr) -> (r: CompilerResult<Expr>)
        requires
            old(self).wf(),
            level < 6,
        ensures
            final(self).tokens == old(self).tokens,
            match grammar::binary_rest(
                level as int,
                lhs.view(),
                old(self).toks(),
                old(self).index as int,
            ) {
                Ok((v, j)) => r matches Ok(x) && x.view() == v && final(self).wf() && final(self).index == j && j >= old(self).index,
                Err(e) => r matches Err(x) && x@ == e,
            },
        decreases old(self).tokens@.len() - old(self).index, 15int,
    {
        let mut expr = lhs;
        loop
            invariant
                self.wf(),
                self.tokens == old(self).tokens,
                self.index >= old(self).index,
                grammar::binary_rest(
                    level as int,
                    lhs.view(),
                    self.toks(),
                    old(self).index as int,
                ) == grammar::binary_rest(
                    level as int,
                    expr.view(),
                    self.toks(),
                    self.index as int,
                ),
            decreases self.tokens@.len() - self.index,
        {
            let op = match operator(level, self.current_kind()) {
                Some(op) => op,
                None => return Ok(expr),
            };
            self.advance();
            let rhs = self.parse_binary(level + 1)?;
            expr = Expr::Binary { op, lhs: Box::new(expr), rhs: Box::new(rhs) };
        }
    }

    fn parse_unary_expr(&mut self) -> (r: CompilerResult<Expr>)
        requires
            old(self).wf(),
        ensures
            final(self).tokens == old(self).tokens,
            match grammar::unary(old(self).toks(), old(self).index as int) {
                Ok((v, j)) => r matches Ok(x) && x.view() == v && final(self).moved(*old(self), j),
                Err(e) => r matches Err(x) && x@ == e,
            },
        decreases old(self).tokens@.len() - old(self).index, 3int,
    {
        let op = match self.current_kind() {
            TokenKind::Plus => UnaryOp::Plus,
            TokenKind::Minus => UnaryOp::Minus,
            TokenKind::Bang => UnaryOp::Not,
            _ => return self.parse_primary_expr(),
        };
        self.advance();
        let expr = self.parse_unary_expr()?;
        Ok(Expr::Unary { op, expr: Box::new(expr) })
    }

    fn parse_primary_expr(&mut self) -> (r: CompilerResult<Expr>)
        requires
            old(self).wf(),
        ensures
            final(self).tokens == old(self).tokens,
            match grammar::primary(old(self).toks(), old(self).index as int) {
                Ok((v, j)) => r matches Ok(x) && x.view() == v && final(self).moved(*old(self), j),
                Err(e) => r matches Err(x) && x@ == e,
            },
        decreases old(self).tokens@.len() - old(self).index, 2int,
    {
        let expr = match self.current_kind() {
            TokenKind::LParen => {
                self.advance();
                let expr = self.parse_expr()?;
                self.expect_r_paren()?;
                expr
            },
            TokenKind::IntLiteral(value) => {
                let value: i32 = *value;
                self.advance();
                Expr::Int(value)
            },
            TokenKind::KwAsm => {
                let code = self.parse_asm()?;
                Expr::Asm(code)
            },
            TokenKind::Ident(name) => {
                let name = name.clone();
                self.advance();
                if matches!(self.current_kind(), TokenKind::LParen) {
                    self.advance();
                    let args = self.parse_func_r_params()?;
                    self.expect_r_paren()?;
                    Expr::Call { name, args }
                } else {
                    Expr::LVal(name)
                }
            },
            _ => return Err(fail_at(self.position(), "expected primary expression")),
        };
        self.parse_postfix(expr)
    }

    /// Parses the indices that follow an expression.
    #[verifier::loop_isolation(false)]
    fn parse_postfix(&mut self, operand: Expr) -> (r: CompilerResult<Expr>)
        requires
            old(self).wf(),
        ensures
            final(self).tokens == old(self).tokens,
            match grammar::postfix(operand.view(), old(self).toks(), old(self).index as int) {
                Ok((v, j)) => r matches Ok(x) && x.view() == v && final(self).wf() && final(self).index == j && j >= old(self).index,
                Err(e) => r matches Err(x) && x@ == e,
            },
        decreases old(self).tokens@.len() - old(self).index, 16int,
    {
        let mut expr = operand;
        while matches!(self.current_kind(), TokenKind::LBracket)
            invariant
                self.wf(),
                self.tokens == old(self).tokens,
                self.index >= old(self).index,
                grammar::postfix(operand.view(), self.toks(), old(self).index as int)
                    == grammar::postfix(expr.view(), self.toks(), self.index as int),
            decreases self.tokens@.len() - self.index,
        {
            self.advance();
            let index = self.parse_expr()?;
            self.expect_r_bracket()?;
            expr = Expr::Index { array: Box::new(expr), index: Box::new(index) };
        }
        Ok(expr)
    }

    #[verifier::loop_isolation(false)]
    fn parse_func_r_params(&mut self) -> (r: CompilerResult<Vec<Expr>>)
        requires
            old(self).wf(),
        ensures
            final(self).tokens == old(self).tokens,
            match grammar::call_args(old(self).toks(), old(self).index as int) {
                Ok((v, j)) => r matches Ok(x) && ast::exprs(x@) == v && final(self).wf() && final(self).index == j && j >= old(self).index,
                Err(e) => r matches Err(x) && x@ == e,
            },
        decreases old(self).tokens@.len() - old(self).index, 25int,
    {
        let mut args: Vec<Expr> = Vec::new();
        assert(ast::exprs(args@) =~= Seq::empty());
        if !matches!(self.current_kind(), TokenKind::RParen) {
            let arg = self.parse_expr()?;
            args.push(arg);
            assert(ast::exprs(args@) =~= seq![arg.view()]);
            let ghost first = ast::exprs(args@);
            let ghost start = self.index as int;
            while matches!(self.current_kind(), TokenKind::Comma)
                invariant
                    self.wf(),
                    self.tokens == old(self).tokens,
                    self.index > old(self).index,
                    grammar::more_args(first, self.toks(), start) == grammar::more_args(
                        ast::exprs(args@),
                        self.toks(),
                        self.index as int,
                    ),
                decreases self.tokens@.len() - self.index,
            {
                self.advance();
                let arg = self.parse_expr()?;
                args.push(arg);
            }
        }
        Ok(args)
    }

    fn expect_keyword_int(&mut self) -> (r: CompilerResult<()>)
        requires
            old(self).wf(),
        ensures
            expectation(*old(self), *final(self), r, TokenKind::KwInt, "expected 'int'"@),
    {
        let found = matches!(self.current_kind(), TokenKind::KwInt);
        self.expect_simple(found, "expected 'int'")
    }

    fn expect_l_paren(&mut self) -> (r: CompilerResult<()>)
        requires
            old(self).wf(),
        ensures
            expectation(*old(self), *final(self), r, TokenKind::LParen, "expected '('"@),
    {
        let found = matches!(self.current_kind(), TokenKind::LParen);
        self.expect_simple(found, "expected '('")
    }

    fn expect_r_paren(&mut self) -> (r: CompilerResult<()>)
        requires
            old(self).wf(),
        ensures
            expectation(*old(self), *final(self), r, TokenKind::RParen, "expected ')'"@),
    {
        let found = matches!(self.current_kind(), TokenKind::RParen);
        self.expect_simple(found, "expected ')'")
    }

    fn expect_r_bracket(&mut self) -> (r: CompilerResult<()>)
        requires
            old(self).wf(),
        ensures
            expectation(*old(self), *final(self), r, TokenKind::RBracket, "expected ']'"@),
    {
        let found = matches!(self.current_kind(), TokenKind::RBracket);
        self.expect_simple(found, "expected ']'")
    }

    fn expect_l_brace(&mut self) -> (r: CompilerResult<()>)
        requires
            old(self).wf(),
        ensures
            expectation(*old(self), *final(self), r, TokenKind::LBrace, "expected '{'"@),
    {
        let found = matches!(self.current_kind(), TokenKind::LBrace);
        self.expect_simple(found, "expected '{'")
    }

    fn expect_r_brace(&mut self) -> (r: CompilerResult<()>)
        requires
            old(self).wf(),
        ensures
            expectation(*old(self), *final(self), r, TokenKind::RBrace, "expected '}'"@),
    {
        let found = matches!(self.current_kind(), TokenKind::RBrace);
        self.expect_simple(found, "expected '}'")
    }

    fn expect_semicolon(&mut self) -> (r: CompilerResult<()>)
        requires
            old(self).wf(),
        ensures
            expectation(*old(self), *final(self), r, TokenKind::Semicolon, "expected ';'"@),
    {
        let found = matches!(self.current_kind(), TokenKind::Semicolon);
        self.expect_simple(found, "expected ';'")
    }

    fn expect_eq(&mut self) -> (r: CompilerResult<()>)
        requires
            old(self).wf(),
        ensures
            expectation(*old(self), *final(self), r, TokenKind::Eq, "expected '='"@),
    {
        let found = matches!(self.current_kind(), TokenKind::Eq);
        self.expect_simple(found, "expected '='")
    }

    fn expect_ident(&mut self) -> (r: CompilerResult<String>)
        requires
            old(self).wf(),
        ensures
            final(self).tokens == old(self).tokens,
            match grammar::ident(old(self).toks(), old(self).index as int) {
                Ok((name, j)) => r matches Ok(x) && x@ == name && final(self).moved(*old(self), j),
                Err(e) => r matches Err(x) && x@ == e,
            },
    {
        match self.current_kind() {
            TokenKind::Ident(ident) => {
                let ident = ident.clone();
                self.advance();
                Ok(ident)
            },
            _ => Err(fail_at(self.position(), "expected identifier")),
        }
    }

    /// Moves past the current token where it is the expected one.
    fn expect_simple(&mut self, found: bool, message: &str) -> (r: CompilerResult<()>)
        requires
            old(self).wf(),
            found ==> !(old(self).tokens@[old(self).index as int].kind is Eof),
        ensures
            final(self).tokens == old(self).tokens,
            found ==> r is Ok && final(self).moved(*old(self), old(self).index + 1),
            !found ==> (r matches Err(x) && x@ == grammar::wrong(
                old(self).toks(),
                old(self).index as int,
                message@,
            )),
    {
        if found {
            self.advance();
            Ok(())
        } else {
            Err(fail_at(self.position(), message))
        }
    }

    fn position(&self) -> (r: usize)
        requires
            self.wf(),
        ensures
            r == self.toks()[self.index as int].position,
    {
        self.tokens[self.index].position
    }

    fn current_kind(&self) -> (r: &TokenKind)
        requires
            self.wf(),
        ensures
            r == self.tokens@[self.index as int].kind,
            r.view() == self.toks()[self.index as int].kind,
    {
        &self.tokens[self.index].kind
    }

    fn advance(&mut self)
        requires
            old(self).wf(),
            !(old(self).tokens@[old(self).index as int].kind is Eof),
        ensures
            final(self).moved(*old(self), old(self).index + 1),
    {
        self.index = self.index + 1;
    }
}

/// What an `expect_...` method does.
spec fn expectation(
    before: Parser,
    after: Parser,
    r: CompilerResult<()>,
    kind: TokenKind,
    message: Seq<char>,
) -> bool {
    &&& after.tokens == before.tokens
    &&& match grammar::expected(before.toks(), before.index as int, kind, message) {
        Ok(j) => r is Ok && after.moved(before, j),
        Err(e) => r matches Err(x) && x@ == e,
    }
}

/// An expression followed by indices.
fn add_indices(expr: Expr, indices: Vec<Expr>) -> (r: Expr)
    ensures
        r.view() == grammar::indexed(expr.view(), ast::exprs(indices@)),
    decreases indices@.len(),
{
    let ghost all = indices@;
    let mut indices = indices;
    match indices.pop() {
        None => expr,
        Some(last) => {
            assert(ast::exprs(all).drop_last() =~= ast::exprs(indices@));
            assert(ast::exprs(all).last() == last.view());
            let array = add_indices(expr, indices);
            Expr::Index { array: Box::new(array), index: Box::new(last) }
        },
    }
}

/// The operator of a precedence level that a token is.
fn operator(level: usize, kind: &TokenKind) -> (r: Option<BinaryOp>)
    ensures
        r == grammar::level_op(level as int, kind.view()),
{
    match kind {
        TokenKind::OrOr => at_level(level, 0, BinaryOp::Or),
        TokenKind::AndAnd => at_level(level, 1, BinaryOp::And),
        TokenKind::EqEq => at_level(level, 2, BinaryOp::Eq),
        TokenKind::NotEq => at_level(level, 2, BinaryOp::Ne),
        TokenKind::Less => at_level(level, 3, BinaryOp::Lt),
        TokenKind::Greater => at_level(level, 3, BinaryOp::Gt),
        TokenKind::LessEq => at_level(level, 3, BinaryOp::Le),
        TokenKind::GreaterEq => at_level(level, 3, BinaryOp::Ge),
        TokenKind::Plus => at_level(level, 4, BinaryOp::Add),
        TokenKind::Minus => at_level(level, 4, BinaryOp::Sub),
        TokenKind::Star => at_level(level, 5, BinaryOp::Mul),
        TokenKind::Slash => at_level(level, 5, BinaryOp::Div),
        TokenKind::Percent => at_level(level, 5, BinaryOp::Rem),
        _ => None,
    }
}

fn at_level(level: usize, of_op: usize, op: BinaryOp) -> (r: Option<BinaryOp>)
    ensures
        r == (if level == of_op {
            Some(op)
        } else {
            None
        }),
{
    if level == of_op {
        Some(op)
    } else {
        None
    }
}

} // verus!

//! What the phrases of the language look like: which tokens an expression, a declaration, a
//! statement or a function is written with.
//!
//! The relations here say of a tree and a stretch of tokens whether the tokens are a way to write
//! the tree. They speak of positions alone, and say nothing of how a tree is found.

use crate::ast::{
    BinaryOp, BlockItemV, ConstDefV, DeclV, ExprV, FuncDeclV, FuncDefV, FuncParamV, GlobalItemV,
    StmtV, Type, UnaryOp, VarDefV,
};
use crate::grammar;
use crate::lexer::{KindV, TokenKind, TokenV};
use vstd::prelude::*;

verus! {

// ── Operators ────────────────────────────────────────────────────────────────

/// The token that a binary operator is written with.
pub open spec fn sign(op: BinaryOp) -> TokenKind {
    match op {
        BinaryOp::Mul => TokenKind::Star,
        BinaryOp::Div => TokenKind::Slash,
        BinaryOp::Rem => TokenKind::Percent,
        BinaryOp::Add => TokenKind::Plus,
        BinaryOp::Sub => TokenKind::Minus,
        BinaryOp::Lt => TokenKind::Less,
        BinaryOp::Gt => TokenKind::Greater,
        BinaryOp::Le => TokenKind::LessEq,
        BinaryOp::Ge => TokenKind::GreaterEq,
        BinaryOp::Eq => TokenKind::EqEq,
        BinaryOp::Ne => TokenKind::NotEq,
        BinaryOp::And => TokenKind::AndAnd,
        BinaryOp::Or => TokenKind::OrOr,
    }
}

/// The token that a prefix operator is written with.
pub open spec fn prefix(op: UnaryOp) -> TokenKind {
    match op {
        UnaryOp::Plus => TokenKind::Plus,
        UnaryOp::Minus => TokenKind::Minus,
        UnaryOp::Not => TokenKind::Bang,
    }
}

/// How tightly a binary operator binds, as in C.
pub open spec fn strength(op: BinaryOp) -> int {
    match op {
        BinaryOp::Or => 0,
        BinaryOp::And => 1,
        BinaryOp::Eq | BinaryOp::Ne => 2,
        BinaryOp::Lt | BinaryOp::Gt | BinaryOp::Le | BinaryOp::Ge => 3,
        BinaryOp::Add | BinaryOp::Sub => 4,
        BinaryOp::Mul | BinaryOp::Div | BinaryOp::Rem => 5,
    }
}

/// How tightly a prefix operator binds its operand.
pub open spec fn prefix_strength() -> int {
    6
}

/// How tightly an index binds what it is put to.
pub open spec fn index_strength() -> int {
    7
}

// ── Tokens ───────────────────────────────────────────────────────────────────

/// Whether the token at a position is of a kind that has no text.
pub open spec fn here(t: Seq<TokenV>, i: int, k: TokenKind) -> bool {
    0 <= i < t.len() && t[i].kind == KindV::Other(k)
}

/// Whether the token at a position is a name.
pub open spec fn is_name(t: Seq<TokenV>, i: int, name: Seq<char>) -> bool {
    0 <= i < t.len() && t[i].kind == KindV::Ident(name)
}

/// Whether the tokens at a position are inline assembly.
pub open spec fn is_asm(t: Seq<TokenV>, i: int, code: Seq<char>) -> bool {
    &&& here(t, i, TokenKind::KwAsm) && here(t, i + 1, TokenKind::LParen)
    &&& 0 <= i + 2 < t.len() && t[i + 2].kind == KindV::Str(code)
    &&& here(t, i + 3, TokenKind::RParen)
}

/// Whether a position is at or after one and before another.
pub open spec fn between(i: int, m: int, j: int) -> bool {
    i <= m < j
}

// ── Expressions ──────────────────────────────────────────────────────────────

/// Whether the tokens from one position to another are an expression, where what binds less tightly
/// than `least` stands in parentheses.
pub open spec fn writes(t: Seq<TokenV>, i: int, j: int, e: ExprV, least: int) -> bool
    decreases j - i, 0int,
{
    &&& 0 <= i < j <= t.len()
    &&& {
        ||| here(t, i, TokenKind::LParen) && here(t, j - 1, TokenKind::RParen) && i + 1 < j - 1
            && writes(t, i + 1, j - 1, e, 0)
        ||| match e {
            ExprV::Int(n) => j == i + 1 && here(t, i, TokenKind::IntLiteral(n)),
            ExprV::LVal(name) => j == i + 1 && is_name(t, i, name),
            ExprV::Unary { op, expr } => least <= prefix_strength() && here(t, i, prefix(op)) && i + 1
                < j && writes(t, i + 1, j, *expr, prefix_strength()),
            ExprV::Binary { op, lhs, rhs } => least <= strength(op) && exists|m: int|
                i < m < j - 1 && #[trigger] here(t, m, sign(op)) && writes(
                    t,
                    i,
                    m,
                    *lhs,
                    strength(op),
                ) && writes(t, m + 1, j, *rhs, strength(op) + 1),
            ExprV::Call { name, args } => is_name(t, i, name) && here(t, i + 1, TokenKind::LParen)
                && i + 2 <= j - 1 && here(t, j - 1, TokenKind::RParen) && writes_all(
                t,
                i + 2,
                j - 1,
                args,
            ),
            ExprV::Index { array, index } => here(t, j - 1, TokenKind::RBracket) && exists|m: int|
                i < m < j - 2 && #[trigger] here(t, m, TokenKind::LBracket) && writes(
                    t,
                    i,
                    m,
                    *array,
                    index_strength(),
                ) && writes(t, m + 1, j - 1, *index, 0),
            ExprV::Asm(code) => j == i + 4 && is_asm(t, i, code),
            ExprV::InitList(_) => false,
        }
    }
}

/// Whether the tokens from one position to another are expressions with commas between them.
pub open spec fn writes_all(t: Seq<TokenV>, i: int, j: int, es: Seq<ExprV>) -> bool
    decreases j - i, 1int,
{
    if es.len() == 0 {
        i == j
    } else if es.len() == 1 {
        writes(t, i, j, es[0], 0)
    } else {
        exists|m: int|
            i < m < j && #[trigger] here(t, m, TokenKind::Comma) && writes_all(
                t,
                i,
                m,
                es.drop_last(),
            ) && writes(t, m + 1, j, es.last(), 0)
    }
}

/// Whether the tokens from one position to another are expressions, each in brackets.
pub open spec fn writes_brackets(t: Seq<TokenV>, i: int, j: int, es: Seq<ExprV>) -> bool
    decreases es.len(),
{
    if es.len() == 0 {
        i == j
    } else {
        here(t, j - 1, TokenKind::RBracket) && exists|m: int|
            i <= m < j - 2 && #[trigger] here(t, m, TokenKind::LBracket) && writes_brackets(
                t,
                i,
                m,
                es.drop_last(),
            ) && writes(t, m + 1, j - 1, es.last(), 0)
    }
}

// ── Declarations ─────────────────────────────────────────────────────────────

/// Whether the tokens from one position to another are an initial value: an expression, or initial
/// values in braces.
pub open spec fn writes_init(t: Seq<TokenV>, i: int, j: int, e: ExprV) -> bool
    decreases j - i, 0int,
{
    match e {
        ExprV::InitList(items) => here(t, i, TokenKind::LBrace) && i + 1 <= j - 1 && here(
            t,
            j - 1,
            TokenKind::RBrace,
        ) && writes_inits(t, i + 1, j - 1, items),
        _ => writes(t, i, j, e, 0),
    }
}

/// Whether the tokens from one position to another are initial values with commas between them.
pub open spec fn writes_inits(t: Seq<TokenV>, i: int, j: int, es: Seq<ExprV>) -> bool
    decreases j - i, 1int,
{
    if es.len() == 0 {
        i == j
    } else if es.len() == 1 {
        writes_init(t, i, j, es[0])
    } else {
        exists|m: int|
            i < m < j && #[trigger] here(t, m, TokenKind::Comma) && writes_inits(
                t,
                i,
                m,
                es.drop_last(),
            ) && writes_init(t, m + 1, j, es.last())
    }
}

/// Whether the tokens from one position to another define a constant.
pub open spec fn writes_const(t: Seq<TokenV>, i: int, j: int, d: ConstDefV) -> bool {
    is_name(t, i, d.name) && exists|m: int|
        i < m < j && #[trigger] here(t, m, TokenKind::Eq) && writes_brackets(t, i + 1, m, d.dims)
            && writes_init(t, m + 1, j, d.init)
}

/// Whether the tokens from one position to another define a variable.
pub open spec fn writes_var(t: Seq<TokenV>, i: int, j: int, d: VarDefV) -> bool {
    is_name(t, i, d.name) && i < j && match d.init {
        None => writes_brackets(t, i + 1, j, d.dims),
        Some(init) => exists|m: int|
            i < m < j && #[trigger] here(t, m, TokenKind::Eq) && writes_brackets(t, i + 1, m, d.dims)
                && writes_init(t, m + 1, j, init),
    }
}

/// Whether the tokens from one position to another define constants, with commas between them.
pub open spec fn writes_consts(t: Seq<TokenV>, i: int, j: int, ds: Seq<ConstDefV>) -> bool
    decreases ds.len(),
{
    if ds.len() <= 1 {
        ds.len() == 1 && writes_const(t, i, j, ds[0])
    } else {
        exists|m: int|
            i < m < j && #[trigger] here(t, m, TokenKind::Comma) && writes_consts(
                t,
                i,
                m,
                ds.drop_last(),
            ) && writes_const(t, m + 1, j, ds.last())
    }
}

/// Whether the tokens from one position to another define variables, with commas between them.
pub open spec fn writes_vars(t: Seq<TokenV>, i: int, j: int, ds: Seq<VarDefV>) -> bool
    decreases ds.len(),
{
    if ds.len() <= 1 {
        ds.len() == 1 && writes_var(t, i, j, ds[0])
    } else {
        exists|m: int|
            i < m < j && #[trigger] here(t, m, TokenKind::Comma) && writes_vars(
                t,
                i,
                m,
                ds.drop_last(),
            ) && writes_var(t, m + 1, j, ds.last())
    }
}

/// Whether the tokens from one position to another are a declaration.
pub open spec fn writes_decl(t: Seq<TokenV>, i: int, j: int, d: DeclV) -> bool {
    here(t, j - 1, TokenKind::Semicolon) && match d {
        DeclV::Const(ds) => here(t, i, TokenKind::KwConst) && here(t, i + 1, TokenKind::KwInt) && i + 2
            < j && writes_consts(t, i + 2, j - 1, ds),
        DeclV::Var(ds) => here(t, i, TokenKind::KwInt) && i + 1 < j && writes_vars(
            t,
            i + 1,
            j - 1,
            ds,
        ),
    }
}

// ── Statements ───────────────────────────────────────────────────────────────

/// Whether the tokens from one position to another are a statement. An `else` belongs to the
/// nearest `if`: one without an `else` is not followed by any.
pub open spec fn writes_stmt(t: Seq<TokenV>, i: int, j: int, s: StmtV) -> bool
    decreases j - i, 1int,
{
    &&& 0 <= i < j <= t.len()
    &&& match s {
        StmtV::Return(None) => j == i + 2 && here(t, i, TokenKind::KwReturn) && here(
            t,
            i + 1,
            TokenKind::Semicolon,
        ),
        StmtV::Return(Some(e)) => here(t, i, TokenKind::KwReturn) && writes(t, i + 1, j - 1, e, 0)
            && here(t, j - 1, TokenKind::Semicolon),
        StmtV::Assign { name, index, expr } => is_name(t, i, name) && here(
            t,
            j - 1,
            TokenKind::Semicolon,
        ) && exists|m: int|
            i < m < j && #[trigger] here(t, m, TokenKind::Eq) && writes_brackets(t, i + 1, m, index)
                && writes(t, m + 1, j - 1, expr, 0),
        StmtV::Expr(e) => writes(t, i, j - 1, e, 0) && here(t, j - 1, TokenKind::Semicolon),
        StmtV::Block(items) => writes_block(t, i, j, items),
        StmtV::If { cond, then_branch, else_branch } => here(t, i, TokenKind::KwIf) && here(
            t,
            i + 1,
            TokenKind::LParen,
        ) && exists|m: int|
            i < m < j - 1 && #[trigger] here(t, m, TokenKind::RParen) && writes(t, i + 2, m, cond, 0)
                && match else_branch {
                None => writes_stmt(t, m + 1, j, *then_branch) && !here(t, j, TokenKind::KwElse),
                Some(other) => exists|n: int|
                    m < n < j && #[trigger] here(t, n, TokenKind::KwElse) && writes_stmt(
                        t,
                        m + 1,
                        n,
                        *then_branch,
                    ) && writes_stmt(t, n + 1, j, *other),
            },
        StmtV::While { cond, body } => here(t, i, TokenKind::KwWhile) && here(
            t,
            i + 1,
            TokenKind::LParen,
        ) && exists|m: int|
            i < m < j - 1 && #[trigger] here(t, m, TokenKind::RParen) && writes(t, i + 2, m, cond, 0)
                && writes_stmt(t, m + 1, j, *body),
        StmtV::Break => j == i + 2 && here(t, i, TokenKind::KwBreak) && here(
            t,
            i + 1,
            TokenKind::Semicolon,
        ),
        StmtV::Continue => j == i + 2 && here(t, i, TokenKind::KwContinue) && here(
            t,
            i + 1,
            TokenKind::Semicolon,
        ),
        StmtV::Empty => j == i + 1 && here(t, i, TokenKind::Semicolon),
        StmtV::Asm(code) => j == i + 5 && is_asm(t, i, code) && here(
            t,
            i + 4,
            TokenKind::Semicolon,
        ),
    }
}

/// Whether the tokens from one position to another are a declaration or a statement.
pub open spec fn writes_item(t: Seq<TokenV>, i: int, j: int, x: BlockItemV) -> bool
    decreases j - i, 2int,
{
    match x {
        BlockItemV::Decl(d) => 0 <= i < j <= t.len() && writes_decl(t, i, j, d),
        BlockItemV::Stmt(s) => writes_stmt(t, i, j, s),
    }
}

/// Whether the tokens from one position to another are declarations and statements.
pub open spec fn writes_items(t: Seq<TokenV>, i: int, j: int, xs: Seq<BlockItemV>) -> bool
    decreases j - i, 3int,
{
    if xs.len() == 0 {
        i == j
    } else {
        exists|m: int| #[trigger]
            between(i, m, j) && writes_items(t, i, m, xs.drop_last()) && writes_item(
                t,
                m,
                j,
                xs.last(),
            )
    }
}

/// Whether the tokens from one position to another are a block.
pub open spec fn writes_block(t: Seq<TokenV>, i: int, j: int, xs: Seq<BlockItemV>) -> bool
    decreases j - i, 0int,
{
    here(t, i, TokenKind::LBrace) && i + 1 <= j - 1 && here(t, j - 1, TokenKind::RBrace)
        && writes_items(t, i + 1, j - 1, xs)
}

// ── Functions and programs ───────────────────────────────────────────────────

/// Whether the tokens from one position to another are a parameter.
pub open spec fn writes_param(t: Seq<TokenV>, i: int, j: int, p: FuncParamV) -> bool {
    &&& here(t, i, TokenKind::KwInt) && is_name(t, i + 1, p.name)
    &&& if p.is_array {
        here(t, i + 2, TokenKind::LBracket) && here(t, i + 3, TokenKind::RBracket) && i + 4 <= j
            && writes_brackets(t, i + 4, j, p.array_dims)
    } else {
        j == i + 2 && p.array_dims.len() == 0
    }
}

/// Whether the tokens from one position to another are parameters, with commas between them.
pub open spec fn writes_params(t: Seq<TokenV>, i: int, j: int, ps: Seq<FuncParamV>) -> bool
    decreases ps.len(),
{
    if ps.len() == 0 {
        i == j
    } else if ps.len() == 1 {
        writes_param(t, i, j, ps[0])
    } else {
        exists|m: int|
            i < m < j && #[trigger] here(t, m, TokenKind::Comma) && writes_params(
                t,
                i,
                m,
                ps.drop_last(),
            ) && writes_param(t, m + 1, j, ps.last())
    }
}

/// The keyword of what a function gives.
pub open spec fn type_word(ty: Type) -> TokenKind {
    match ty {
        Type::Int => TokenKind::KwInt,
        Type::Void => TokenKind::KwVoid,
    }
}

/// Whether the tokens from one position to another are what a function gives, its name and its
/// parameters.
pub open spec fn writes_head(
    t: Seq<TokenV>,
    i: int,
    j: int,
    ty: Type,
    name: Seq<char>,
    ps: Seq<FuncParamV>,
) -> bool {
    here(t, i, type_word(ty)) && is_name(t, i + 1, name) && here(t, i + 2, TokenKind::LParen) && i + 3
        <= j - 1 && here(t, j - 1, TokenKind::RParen) && writes_params(t, i + 3, j - 1, ps)
}

/// Whether the tokens from one position to another are a declaration or function at the top level.
pub open spec fn writes_global(t: Seq<TokenV>, i: int, j: int, x: GlobalItemV) -> bool {
    match x {
        GlobalItemV::Decl(d) => writes_decl(t, i, j, d),
        GlobalItemV::FuncDecl(f) => here(t, j - 1, TokenKind::Semicolon) && writes_head(
            t,
            i,
            j - 1,
            f.ret_type,
            f.name,
            f.params,
        ),
        GlobalItemV::FuncDef(f) => exists|m: int|
            i < m < j && #[trigger] writes_head(t, i, m, f.ret_type, f.name, f.params)
                && writes_block(t, m, j, f.body),
    }
}

/// Whether the tokens from one position to another are a program.
pub open spec fn writes_program(t: Seq<TokenV>, i: int, j: int, xs: Seq<GlobalItemV>) -> bool
    decreases xs.len(),
{
    if xs.len() == 0 {
        i == j
    } else {
        exists|m: int|
            i <= m < j && #[trigger] writes_global(t, m, j, xs.last()) && writes_program(
                t,
                i,
                m,
                xs.drop_last(),
            )
    }
}

// ── What the grammar reads ───────────────────────────────────────────────────

proof fn expr_writes(t: Seq<TokenV>, i: int)
    ensures
        grammar::expr(t, i) matches Ok((e, j)) ==> writes(t, i, j, e, 0),
    decreases t.len() - i, 20int,
{
    if 0 <= i < t.len() {
        binary_writes(0, t, i);
    }
}

proof fn binary_writes(level: int, t: Seq<TokenV>, i: int)
    requires
        0 <= level <= 6,
    ensures
        grammar::binary(level, t, i) matches Ok((e, j)) ==> writes(t, i, j, e, level),
    decreases
            t.len() - i,
            if 0 <= level < 6 {
                10 - level
            } else {
                4int
            },
{
    if 0 <= i < t.len() {
        if level >= 6 {
            unary_writes(t, i);
        } else {
            binary_writes(level + 1, t, i);
            if let Ok((lhs, j)) = grammar::forward(grammar::binary(level + 1, t, i), t, i) {
                assert(writes(t, i, j, lhs, level + 1));
                assert(writes(t, i, j, lhs, level));
                rest_writes(level, lhs, t, i, j);
            }
        }
    }
}

proof fn rest_writes(level: int, lhs: ExprV, t: Seq<TokenV>, i: int, j: int)
    requires
        0 <= level < 6,
        writes(t, i, j, lhs, level),
    ensures
        grammar::binary_rest(level, lhs, t, j) matches Ok((e, k)) ==> writes(t, i, k, e, level),
    decreases t.len() - j, 15int,
{
    if 0 <= j < t.len() {
        if let Some(op) = grammar::level_op(level, t[j].kind) {
            binary_writes(level + 1, t, j + 1);
            if let Ok((rhs, k)) = grammar::forward(
                grammar::binary(level + 1, t, j + 1),
                t,
                j + 1,
            ) {
                let e = ExprV::Binary { op, lhs: Box::new(lhs), rhs: Box::new(rhs) };
                assert(here(t, j, sign(op)));
                assert(strength(op) == level);
                assert(writes(t, i, k, e, level));
                rest_writes(level, e, t, i, k);
            }
        }
    }
}

proof fn unary_writes(t: Seq<TokenV>, i: int)
    ensures
        grammar::unary(t, i) matches Ok((e, j)) ==> writes(t, i, j, e, prefix_strength()),
    decreases t.len() - i, 3int,
{
    if 0 <= i < t.len() {
        match grammar::unary_op(t[i].kind) {
            Some(op) => {
                unary_writes(t, i + 1);
                assert(here(t, i, prefix(op)));
            },
            None => {
                primary_writes(t, i);
            },
        }
    }
}

proof fn primary_writes(t: Seq<TokenV>, i: int)
    ensures
        grammar::primary(t, i) matches Ok((e, j)) ==> writes(t, i, j, e, index_strength()) && writes(
            t,
            i,
            j,
            e,
            prefix_strength(),
        ),
    decreases t.len() - i, 2int,
{
    if 0 <= i < t.len() {
        match t[i].kind {
            KindV::Other(TokenKind::LParen) => {
                expr_writes(t, i + 1);
                if let Ok((x, j)) = grammar::forward(grammar::expr(t, i + 1), t, i + 1) {
                    if grammar::at(t, j, TokenKind::RParen) {
                        assert(here(t, i, TokenKind::LParen) && here(t, j, TokenKind::RParen));
                        assert(writes(t, i, j + 1, x, index_strength()));
                        postfix_writes(x, t, i, j + 1);
                    }
                }
            },
            KindV::Other(TokenKind::IntLiteral(n)) => {
                assert(writes(t, i, i + 1, ExprV::Int(n), index_strength()));
                postfix_writes(ExprV::Int(n), t, i, i + 1);
            },
            KindV::Other(TokenKind::KwAsm) => {
                if let Ok((code, j)) = grammar::asm_code(t, i) {
                    assert(is_asm(t, i, code));
                    assert(writes(t, i, j, ExprV::Asm(code), index_strength()));
                    postfix_writes(ExprV::Asm(code), t, i, j);
                }
            },
            KindV::Ident(name) => if grammar::at(t, i + 1, TokenKind::LParen) {
                args_write(t, i + 2);
                if let Ok((args, j)) = grammar::call_args(t, i + 2) {
                    if grammar::at(t, j, TokenKind::RParen) {
                        let x = ExprV::Call { name, args };
                        assert(here(t, j, TokenKind::RParen));
                        assert(writes(t, i, j + 1, x, index_strength()));
                        postfix_writes(x, t, i, j + 1);
                    }
                }
            } else {
                assert(writes(t, i, i + 1, ExprV::LVal(name), index_strength()));
                postfix_writes(ExprV::LVal(name), t, i, i + 1);
            },
            _ => {},
        }
    }
}

proof fn postfix_writes(x: ExprV, t: Seq<TokenV>, i: int, j: int)
    requires
        writes(t, i, j, x, index_strength()),
    ensures
        grammar::postfix(x, t, j) matches Ok((e, k)) ==> writes(t, i, k, e, index_strength())
            && writes(t, i, k, e, prefix_strength()),
    decreases t.len() - j, 16int,
{
    if 0 <= j < t.len() && grammar::at(t, j, TokenKind::LBracket) {
        expr_writes(t, j + 1);
        if let Ok((index, k)) = grammar::forward(grammar::expr(t, j + 1), t, j + 1) {
            if grammar::at(t, k, TokenKind::RBracket) {
                let e = ExprV::Index { array: Box::new(x), index: Box::new(index) };
                assert(here(t, j, TokenKind::LBracket) && here(t, k, TokenKind::RBracket));
                assert(writes(t, i, k + 1, e, index_strength()));
                postfix_writes(e, t, i, k + 1);
            }
        }
    }
}

proof fn args_write(t: Seq<TokenV>, i: int)
    ensures
        grammar::call_args(t, i) matches Ok((args, j)) ==> i <= j && writes_all(t, i, j, args),
    decreases t.len() - i, 25int,
{
    if 0 <= i < t.len() && !grammar::at(t, i, TokenKind::RParen) {
        expr_writes(t, i);
        if let Ok((x, j)) = grammar::forward(grammar::expr(t, i), t, i) {
            assert(writes_all(t, i, j, seq![x]));
            more_args_write(seq![x], t, i, j);
        }
    }
}

proof fn more_args_write(args: Seq<ExprV>, t: Seq<TokenV>, i: int, j: int)
    requires
        args.len() > 0,
        i < j,
        writes_all(t, i, j, args),
    ensures
        grammar::more_args(args, t, j) matches Ok((all, k)) ==> i <= k && writes_all(t, i, k, all),
    decreases t.len() - j, 24int,
{
    if 0 <= j < t.len() && grammar::at(t, j, TokenKind::Comma) {
        expr_writes(t, j + 1);
        if let Ok((x, k)) = grammar::forward(grammar::expr(t, j + 1), t, j + 1) {
            let all = args.push(x);
            assert(all.drop_last() =~= args);
            assert(here(t, j, TokenKind::Comma));
            assert(writes_all(t, i, k, all));
            more_args_write(all, t, i, k);
        }
    }
}

proof fn expr_from_writes(level: int, lhs: ExprV, t: Seq<TokenV>, i: int, j: int)
    requires
        0 <= level <= 6,
        writes(t, i, j, lhs, 6),
    ensures
        grammar::expr_from(level, lhs, t, j) matches Ok((e, k)) ==> writes(t, i, k, e, level),
    decreases 6 - level,
{
    if level < 6 {
        expr_from_writes(level + 1, lhs, t, i, j);
        if let Ok((x, k)) = grammar::expr_from(level + 1, lhs, t, j) {
            assert(writes(t, i, k, x, level));
            rest_writes(level, x, t, i, k);
        }
    }
}

proof fn brackets_write(dims: Seq<ExprV>, t: Seq<TokenV>, i: int, j: int)
    requires
        i <= j,
        writes_brackets(t, i, j, dims),
    ensures
        grammar::brackets(dims, t, j) matches Ok((all, k)) ==> j <= k && writes_brackets(
            t,
            i,
            k,
            all,
        ),
    decreases t.len() - j,
{
    if 0 <= j < t.len() && grammar::at(t, j, TokenKind::LBracket) {
        expr_writes(t, j + 1);
        if let Ok((x, k)) = grammar::forward(grammar::expr(t, j + 1), t, j + 1) {
            if grammar::at(t, k, TokenKind::RBracket) {
                let all = dims.push(x);
                assert(all.drop_last() =~= dims);
                assert(here(t, j, TokenKind::LBracket) && here(t, k, TokenKind::RBracket));
                assert(writes_brackets(t, i, k + 1, all));
                brackets_write(all, t, i, k + 1);
            }
        }
    }
}

/// A name with indices is written as the name followed by the indices.
proof fn indexed_writes(t: Seq<TokenV>, i: int, j: int, name: Seq<char>, index: Seq<ExprV>)
    requires
        is_name(t, i, name),
        i < j <= t.len(),
        writes_brackets(t, i + 1, j, index),
    ensures
        writes(t, i, j, grammar::indexed(ExprV::LVal(name), index), index_strength()),
        writes(t, i, j, grammar::indexed(ExprV::LVal(name), index), 6),
    decreases index.len(),
{
    if index.len() > 0 {
        let m = choose|m: int|
            i + 1 <= m < j - 2 && #[trigger] here(t, m, TokenKind::LBracket) && writes_brackets(
                t,
                i + 1,
                m,
                index.drop_last(),
            ) && writes(t, m + 1, j - 1, index.last(), 0);
        indexed_writes(t, i, m, name, index.drop_last());
    }
}

proof fn init_writes(t: Seq<TokenV>, i: int)
    ensures
        grammar::init_val(t, i) matches Ok((e, j)) ==> i < j <= t.len() && writes_init(t, i, j, e),
    decreases t.len() - i, 2int,
{
    if 0 <= i < t.len() {
        if grammar::at(t, i, TokenKind::LBrace) {
            assert(here(t, i, TokenKind::LBrace));
            if grammar::at(t, i + 1, TokenKind::RBrace) {
                assert(here(t, i + 1, TokenKind::RBrace));
                assert(writes_inits(t, i + 1, i + 1, Seq::empty()));
            } else {
                init_writes(t, i + 1);
                if let Ok((x, j)) = grammar::forward(grammar::init_val(t, i + 1), t, i + 1) {
                    assert(writes_inits(t, i + 1, j, seq![x]));
                    more_inits_write(seq![x], t, i + 1, j);
                    if let Ok((items, k)) = grammar::more_inits(seq![x], t, j) {
                        if grammar::at(t, k, TokenKind::RBrace) {
                            assert(here(t, k, TokenKind::RBrace));
                        }
                    }
                }
            }
        } else {
            expr_writes(t, i);
            if let Ok((e, j)) = grammar::expr(t, i) {
                lists_are_no_expressions(t, i, j, e, 0);
            }
        }
    }
}

/// A braced list is no expression.
proof fn lists_are_no_expressions(t: Seq<TokenV>, i: int, j: int, e: ExprV, least: int)
    requires
        writes(t, i, j, e, least),
    ensures
        !(e is InitList),
    decreases j - i,
{
    if e is InitList {
        lists_are_no_expressions(t, i + 1, j - 1, e, 0);
    }
}

proof fn more_inits_write(items: Seq<ExprV>, t: Seq<TokenV>, i: int, j: int)
    requires
        items.len() > 0,
        i < j,
        writes_inits(t, i, j, items),
    ensures
        grammar::more_inits(items, t, j) matches Ok((all, k)) ==> i <= k && writes_inits(
            t,
            i,
            k,
            all,
        ),
    decreases t.len() - j, 1int,
{
    if 0 <= j < t.len() && grammar::at(t, j, TokenKind::Comma) {
        init_writes(t, j + 1);
        if let Ok((x, k)) = grammar::forward(grammar::init_val(t, j + 1), t, j + 1) {
            let all = items.push(x);
            assert(all.drop_last() =~= items);
            assert(here(t, j, TokenKind::Comma));
            assert(writes_inits(t, i, k, all));
            more_inits_write(all, t, i, k);
        }
    }
}

proof fn const_def_writes(t: Seq<TokenV>, i: int)
    requires
        0 <= i < t.len(),
    ensures
        grammar::const_def(t, i) matches Ok((d, j)) ==> i < j <= t.len() && writes_const(
            t,
            i,
            j,
            d,
        ),
{
    if let Ok((name, j)) = grammar::ident(t, i) {
        assert(writes_brackets(t, i + 1, i + 1, Seq::empty()));
        brackets_write(Seq::empty(), t, i + 1, i + 1);
        if let Ok((dims, k)) = grammar::brackets(Seq::empty(), t, j) {
            if grammar::at(t, k, TokenKind::Eq) {
                assert(here(t, k, TokenKind::Eq));
                init_writes(t, k + 1);
            }
        }
    }
}

proof fn var_def_writes(t: Seq<TokenV>, i: int)
    requires
        0 <= i < t.len(),
    ensures
        grammar::var_def(t, i) matches Ok((d, j)) ==> i < j && writes_var(t, i, j, d),
{
    if let Ok((name, j)) = grammar::ident(t, i) {
        assert(writes_brackets(t, i + 1, i + 1, Seq::empty()));
        brackets_write(Seq::empty(), t, i + 1, i + 1);
        if let Ok((dims, k)) = grammar::brackets(Seq::empty(), t, j) {
            if grammar::at(t, k, TokenKind::Eq) {
                assert(here(t, k, TokenKind::Eq));
                init_writes(t, k + 1);
            }
        }
    }
}

proof fn const_defs_write(defs: Seq<ConstDefV>, t: Seq<TokenV>, i: int, j: int)
    requires
        defs.len() > 0,
        i < j,
        writes_consts(t, i, j, defs),
    ensures
        grammar::more_const_defs(defs, t, j) matches Ok((all, k)) ==> i < k && writes_consts(
            t,
            i,
            k,
            all,
        ),
    decreases t.len() - j,
{
    if 0 <= j < t.len() && grammar::at(t, j, TokenKind::Comma) {
        if j + 1 < t.len() {
            const_def_writes(t, j + 1);
        }
        if let Ok((d, k)) = grammar::forward(grammar::const_def(t, j + 1), t, j + 1) {
            let all = defs.push(d);
            assert(all.drop_last() =~= defs);
            assert(here(t, j, TokenKind::Comma));
            assert(writes_consts(t, i, k, all));
            const_defs_write(all, t, i, k);
        }
    }
}

proof fn var_defs_write(defs: Seq<VarDefV>, t: Seq<TokenV>, i: int, j: int)
    requires
        defs.len() > 0,
        i < j,
        writes_vars(t, i, j, defs),
    ensures
        grammar::more_var_defs(defs, t, j) matches Ok((all, k)) ==> i < k && writes_vars(
            t,
            i,
            k,
            all,
        ),
    decreases t.len() - j,
{
    if 0 <= j < t.len() && grammar::at(t, j, TokenKind::Comma) {
        if j + 1 < t.len() {
            var_def_writes(t, j + 1);
        }
        if let Ok((d, k)) = grammar::forward(grammar::var_def(t, j + 1), t, j + 1) {
            let all = defs.push(d);
            assert(all.drop_last() =~= defs);
            assert(here(t, j, TokenKind::Comma));
            assert(writes_vars(t, i, k, all));
            var_defs_write(all, t, i, k);
        }
    }
}

/// The last token is the end of the source, and no token before it is.
pub open spec fn ends(t: Seq<TokenV>) -> bool {
    t.len() > 0 && t.last().kind == KindV::Other(TokenKind::Eof)
}

proof fn const_decl_writes(t: Seq<TokenV>, i: int)
    requires
        ends(t),
        here(t, i, TokenKind::KwConst),
    ensures
        grammar::const_decl(t, i) matches Ok((d, j)) ==> i < j <= t.len() && writes_decl(
            t,
            i,
            j,
            d,
        ),
{
    if grammar::at(t, i + 1, TokenKind::KwInt) {
        assert(here(t, i + 1, TokenKind::KwInt));
        const_def_writes(t, i + 2);
        if let Ok((d, k)) = grammar::const_def(t, i + 2) {
            assert(writes_consts(t, i + 2, k, seq![d]));
            const_defs_write(seq![d], t, i + 2, k);
            if let Ok((defs, m)) = grammar::more_const_defs(seq![d], t, k) {
                assert(grammar::at(t, m, TokenKind::Semicolon) ==> here(
                    t,
                    m,
                    TokenKind::Semicolon,
                ));
            }
        }
    }
}

proof fn var_decl_writes(t: Seq<TokenV>, i: int)
    requires
        ends(t),
        here(t, i, TokenKind::KwInt),
    ensures
        grammar::var_decl(t, i) matches Ok((d, j)) ==> i < j <= t.len() && writes_decl(t, i, j, d),
{
    var_def_writes(t, i + 1);
    if let Ok((d, k)) = grammar::var_def(t, i + 1) {
        assert(writes_vars(t, i + 1, k, seq![d]));
        var_defs_write(seq![d], t, i + 1, k);
        if let Ok((defs, m)) = grammar::more_var_defs(seq![d], t, k) {
            assert(grammar::at(t, m, TokenKind::Semicolon) ==> here(t, m, TokenKind::Semicolon));
        }
    }
}

proof fn expr_stmt_writes(t: Seq<TokenV>, i: int)
    requires
        0 <= i < t.len(),
    ensures
        grammar::expr_stmt(t, i) matches Ok((s, j)) ==> i < j <= t.len() && writes_stmt(t, i, j, s),
{
    expr_writes(t, i);
    if let Ok((x, j)) = grammar::expr(t, i) {
        if grammar::at(t, j, TokenKind::Semicolon) {
            assert(here(t, j, TokenKind::Semicolon));
        }
    }
}

proof fn name_stmt_writes(name: Seq<char>, t: Seq<TokenV>, i: int)
    requires
        is_name(t, i, name),
    ensures
        grammar::name_stmt(name, t, i) matches Ok((s, j)) ==> i < j <= t.len() && writes_stmt(
            t,
            i,
            j,
            s,
        ),
{
    if grammar::at(t, i + 1, TokenKind::LParen) {
        expr_stmt_writes(t, i);
    } else {
        assert(writes_brackets(t, i + 1, i + 1, Seq::empty()));
        brackets_write(Seq::empty(), t, i + 1, i + 1);
        if let Ok((index, j)) = grammar::brackets(Seq::empty(), t, i + 1) {
            if grammar::at(t, j, TokenKind::Eq) {
                assert(here(t, j, TokenKind::Eq));
                expr_writes(t, j + 1);
                if let Ok((x, k)) = grammar::expr(t, j + 1) {
                    if grammar::at(t, k, TokenKind::Semicolon) {
                        assert(here(t, k, TokenKind::Semicolon));
                        assert(writes_stmt(
                            t,
                            i,
                            k + 1,
                            StmtV::Assign { name, index, expr: x },
                        ));
                    }
                }
            } else if j <= t.len() {
                indexed_writes(t, i, j, name, index);
                expr_from_writes(0, grammar::indexed(ExprV::LVal(name), index), t, i, j);
                if let Ok((x, k)) = grammar::expr_from(
                    0,
                    grammar::indexed(ExprV::LVal(name), index),
                    t,
                    j,
                ) {
                    if grammar::at(t, k, TokenKind::Semicolon) {
                        assert(here(t, k, TokenKind::Semicolon));
                    }
                }
            } else {
                brackets_end(Seq::empty(), t, i + 1);
            }
        }
    }
}

proof fn brackets_end(dims: Seq<ExprV>, t: Seq<TokenV>, i: int)
    requires
        0 <= i <= t.len(),
    ensures
        grammar::brackets(dims, t, i) matches Ok((all, k)) ==> k <= t.len(),
    decreases t.len() - i,
{
    if 0 <= i < t.len() && grammar::at(t, i, TokenKind::LBracket) {
        if let Ok((x, j)) = grammar::forward(grammar::expr(t, i + 1), t, i + 1) {
            if grammar::at(t, j, TokenKind::RBracket) {
                brackets_end(dims.push(x), t, j + 1);
            }
        }
    }
}

proof fn condition_writes(t: Seq<TokenV>, i: int)
    ensures
        grammar::condition(t, i) matches Ok((cond, m)) ==> here(t, i + 1, TokenKind::LParen)
            && here(t, m - 1, TokenKind::RParen) && i + 2 < m - 1 && writes(
            t,
            i + 2,
            m - 1,
            cond,
            0,
        ),
{
    if grammar::at(t, i + 1, TokenKind::LParen) {
        expr_writes(t, i + 2);
    }
}

#[verifier::rlimit(60)]
#[verifier::spinoff_prover]
proof fn stmt_writes(t: Seq<TokenV>, i: int)
    requires
        ends(t),
    ensures
        grammar::stmt(t, i) matches Ok((s, j)) ==> i < j <= t.len() && writes_stmt(t, i, j, s),
    decreases t.len() - i, 2int,
{
    if 0 <= i < t.len() {
        match t[i].kind {
            KindV::Other(TokenKind::KwReturn) => {
                assert(here(t, i, TokenKind::KwReturn));
                if grammar::at(t, i + 1, TokenKind::Semicolon) {
                    assert(here(t, i + 1, TokenKind::Semicolon));
                } else {
                    expr_writes(t, i + 1);
                    if let Ok((x, j)) = grammar::expr(t, i + 1) {
                        if grammar::at(t, j, TokenKind::Semicolon) {
                            assert(here(t, j, TokenKind::Semicolon));
                        }
                    }
                }
            },
            KindV::Other(TokenKind::KwIf) => {
                assert(here(t, i, TokenKind::KwIf));
                condition_writes(t, i);
                if let Ok((cond, j)) = grammar::forward(grammar::condition(t, i), t, i) {
                    stmt_writes(t, j);
                    if let Ok((first, k)) = grammar::forward(grammar::stmt(t, j), t, j) {
                        if grammar::at(t, k, TokenKind::KwElse) {
                            assert(here(t, k, TokenKind::KwElse));
                            stmt_writes(t, k + 1);
                            if let Ok((second, m)) = grammar::stmt(t, k + 1) {
                                assert(here(t, j - 1, TokenKind::RParen));
                                assert(writes_stmt(
                                    t,
                                    i,
                                    m,
                                    StmtV::If {
                                        cond,
                                        then_branch: Box::new(first),
                                        else_branch: Some(Box::new(second)),
                                    },
                                ));
                            }
                        } else {
                            assert(!(here(t, k, TokenKind::KwElse)));
                            assert(here(t, j - 1, TokenKind::RParen));
                        }
                    }
                }
            },
            KindV::Other(TokenKind::KwWhile) => {
                assert(here(t, i, TokenKind::KwWhile));
                condition_writes(t, i);
                if let Ok((cond, j)) = grammar::forward(grammar::condition(t, i), t, i) {
                    stmt_writes(t, j);
                    assert(here(t, j - 1, TokenKind::RParen));
                }
            },
            KindV::Other(TokenKind::LBrace) => {
                block_writes(t, i);
            },
            KindV::Ident(name) => {
                name_stmt_writes(name, t, i);
            },
            KindV::Other(TokenKind::KwBreak) => {
                assert(here(t, i, TokenKind::KwBreak));
            },
            KindV::Other(TokenKind::KwContinue) => {
                assert(here(t, i, TokenKind::KwContinue));
            },
            KindV::Other(TokenKind::KwAsm) => {
                if let Ok((code, j)) = grammar::asm_code(t, i) {
                    assert(is_asm(t, i, code));
                }
            },
            KindV::Other(TokenKind::Semicolon) => {
                assert(here(t, i, TokenKind::Semicolon));
            },
            _ => {
                expr_stmt_writes(t, i);
            },
        }
    }
}

proof fn item_writes(t: Seq<TokenV>, i: int)
    requires
        ends(t),
    ensures
        grammar::block_item(t, i) matches Ok((x, j)) ==> i < j <= t.len() && writes_item(
            t,
            i,
            j,
            x,
        ),
    decreases t.len() - i, 3int,
{
    if grammar::at(t, i, TokenKind::KwConst) {
        const_decl_writes(t, i);
    } else if grammar::at(t, i, TokenKind::KwInt) {
        var_decl_writes(t, i);
    } else {
        stmt_writes(t, i);
    }
}

#[verifier::rlimit(40)]
proof fn items_write(done: Seq<BlockItemV>, t: Seq<TokenV>, i: int, j: int)
    requires
        ends(t),
        i <= j,
        writes_items(t, i, j, done),
    ensures
        grammar::items(done, t, j) matches Ok((all, k)) ==> j <= k && writes_items(t, i, k, all),
    decreases t.len() - j, 4int,
{
    if 0 <= j < t.len() && !grammar::at(t, j, TokenKind::RBrace) && !grammar::at(
        t,
        j,
        TokenKind::Eof,
    ) {
        item_writes(t, j);
        if let Ok((x, k)) = grammar::forward(grammar::block_item(t, j), t, j) {
            one_more_item(done, x, t, i, j, k);
            items_write(done.push(x), t, i, k);
        }
    }
}

proof fn one_more_item(
    done: Seq<BlockItemV>,
    x: BlockItemV,
    t: Seq<TokenV>,
    i: int,
    j: int,
    k: int,
)
    requires
        i <= j < k,
        writes_items(t, i, j, done),
        writes_item(t, j, k, x),
    ensures
        writes_items(t, i, k, done.push(x)),
{
    let all = done.push(x);
    assert(all.drop_last() =~= done);
    assert(between(i, j, k));
}

proof fn block_writes(t: Seq<TokenV>, i: int)
    requires
        ends(t),
    ensures
        grammar::block(t, i) matches Ok((xs, j)) ==> i < j <= t.len() && writes_block(t, i, j, xs),
    decreases t.len() - i, 1int,
{
    if 0 <= i < t.len() && grammar::at(t, i, TokenKind::LBrace) {
        assert(here(t, i, TokenKind::LBrace));
        assert(writes_items(t, i + 1, i + 1, Seq::empty()));
        items_write(Seq::empty(), t, i + 1, i + 1);
        if let Ok((list, k)) = grammar::items(Seq::empty(), t, i + 1) {
            if grammar::at(t, k, TokenKind::RBrace) {
                assert(here(t, k, TokenKind::RBrace));
            }
        }
    }
}

proof fn param_writes(t: Seq<TokenV>, i: int)
    requires
        ends(t),
        here(t, i, TokenKind::KwInt),
    ensures
        grammar::param(t, i + 1) matches Ok((p, j)) ==> i < j && writes_param(t, i, j, p),
{
    if let Ok((name, j)) = grammar::ident(t, i + 1) {
        if grammar::at(t, j, TokenKind::LBracket) {
            if grammar::at(t, j + 1, TokenKind::RBracket) {
                assert(here(t, j, TokenKind::LBracket) && here(t, j + 1, TokenKind::RBracket));
                assert(writes_brackets(t, j + 2, j + 2, Seq::empty()));
                brackets_write(Seq::empty(), t, j + 2, j + 2);
            }
        }
    }
}

proof fn more_params_write(done: Seq<FuncParamV>, t: Seq<TokenV>, i: int, j: int)
    requires
        ends(t),
        done.len() > 0,
        i < j,
        writes_params(t, i, j, done),
    ensures
        grammar::more_params(done, t, j) matches Ok((all, k)) ==> i < k && writes_params(
            t,
            i,
            k,
            all,
        ),
    decreases t.len() - j,
{
    if 0 <= j < t.len() && grammar::at(t, j, TokenKind::Comma) {
        if grammar::at(t, j + 1, TokenKind::KwInt) {
            assert(here(t, j + 1, TokenKind::KwInt));
            param_writes(t, j + 1);
            if let Ok((p, k)) = grammar::forward(grammar::param(t, j + 2), t, j + 2) {
                let all = done.push(p);
                assert(all.drop_last() =~= done);
                assert(here(t, j, TokenKind::Comma));
                assert(writes_params(t, i, k, all));
                more_params_write(all, t, i, k);
            }
        }
    }
}

proof fn params_write(t: Seq<TokenV>, i: int)
    requires
        ends(t),
        0 <= i,
    ensures
        grammar::params(t, i) matches Ok((ps, j)) ==> i <= j && writes_params(t, i, j, ps),
{
    if grammar::at(t, i, TokenKind::KwInt) {
        assert(here(t, i, TokenKind::KwInt));
        param_writes(t, i);
        if let Ok((p, m)) = grammar::param(t, i + 1) {
            assert(writes_params(t, i, m, seq![p]));
            more_params_write(seq![p], t, i, m);
        }
    }
}

proof fn head_and_body(
    t: Seq<TokenV>,
    i: int,
    m: int,
    j: int,
    ret_type: Type,
    name: Seq<char>,
    params: Seq<FuncParamV>,
    body: Seq<BlockItemV>,
)
    requires
        i < m < j,
        writes_head(t, i, m, ret_type, name, params),
        writes_block(t, m, j, body),
    ensures
        writes_global(
            t,
            i,
            j,
            GlobalItemV::FuncDef(FuncDefV { ret_type, name, params, body }),
        ),
{
    let f = FuncDefV { ret_type, name, params, body };
    assert(writes_head(t, i, m, f.ret_type, f.name, f.params) && writes_block(t, m, j, f.body));
    assert(writes_global(t, i, j, GlobalItemV::FuncDef(f)));
}

#[verifier::rlimit(60)]
#[verifier::spinoff_prover]
proof fn function_writes(ty: Type, t: Seq<TokenV>, i: int)
    requires
        ends(t),
        here(t, i, type_word(ty)),
    ensures
        grammar::function(ty, t, i + 1) matches Ok((x, j)) ==> i < j <= t.len() && writes_global(
            t,
            i,
            j,
            x,
        ),
{
    if let Ok((name, j)) = grammar::ident(t, i + 1) {
        if grammar::at(t, j, TokenKind::LParen) {
            let k = j + 1;
            assert(here(t, j, TokenKind::LParen));
            params_write(t, k);
            if let Ok((ps, m)) = grammar::params(t, k) {
                if grammar::at(t, m, TokenKind::RParen) {
                    assert(here(t, m, TokenKind::RParen));
                    assert(writes_head(t, i, m + 1, ty, name, ps));
                    if grammar::at(t, m + 1, TokenKind::Semicolon) {
                        assert(here(t, m + 1, TokenKind::Semicolon));
                    } else {
                        block_writes(t, m + 1);
                        if let Ok((body, q)) = grammar::block(t, m + 1) {
                            head_and_body(t, i, m + 1, q, ty, name, ps, body);
                        }
                    }
                }
            }
        }
    }
}

proof fn global_writes(t: Seq<TokenV>, i: int)
    requires
        ends(t),
        0 <= i < t.len(),
    ensures
        grammar::global_item(t, i) matches Ok((x, j)) ==> i < j <= t.len() && writes_global(
            t,
            i,
            j,
            x,
        ),
{
    match t[i].kind {
        KindV::Other(TokenKind::KwConst) => {
            const_decl_writes(t, i);
        },
        KindV::Other(TokenKind::KwInt) => {
            var_decl_writes(t, i);
            function_writes(Type::Int, t, i);
        },
        KindV::Other(TokenKind::KwVoid) => {
            function_writes(Type::Void, t, i);
        },
        _ => {},
    }
}

proof fn program_writes(done: Seq<GlobalItemV>, t: Seq<TokenV>, i: int) -> (end: int)
    requires
        ends(t),
        0 <= i < t.len(),
        writes_program(t, 0, i, done),
    ensures
        grammar::program(done, t, i) matches Ok(xs) ==> here(t, end, TokenKind::Eof)
            && writes_program(t, 0, end, xs),
    decreases t.len() - i,
{
    if here(t, i, TokenKind::Eof) {
        i
    } else {
        global_writes(t, i);
        match grammar::forward(grammar::global_item(t, i), t, i) {
            Ok((x, j)) => {
                let all = done.push(x);
                assert(all.drop_last() =~= done);
                assert(writes_global(t, i, j, all.last()));
                assert(writes_program(t, 0, j, all));
                if j < t.len() {
                    program_writes(all, t, j)
                } else {
                    no_global_ends(t, i, j, x);
                    i
                }
            },
            Err(_) => i,
        }
    }
}

/// Nothing at the top level ends with the end of the source.
proof fn no_global_ends(t: Seq<TokenV>, i: int, j: int, x: GlobalItemV)
    requires
        ends(t),
        writes_global(t, i, j, x),
    ensures
        j != t.len(),
{
    if let GlobalItemV::FuncDef(f) = x {
        let m = choose|m: int|
            i < m < j && #[trigger] writes_head(t, i, m, f.ret_type, f.name, f.params)
                && writes_block(t, m, j, f.body);
        assert(here(t, j - 1, TokenKind::RBrace));
    } else {
        assert(here(t, j - 1, TokenKind::Semicolon));
    }
}

/// An expression that is parsed is written by the tokens it was parsed from: its operators by their
/// signs, with parentheses wherever an operator binds less tightly than its place asks for, and
/// operators of one strength grouped to the left.
pub proof fn expressions_are_written(t: Seq<TokenV>, i: int)
    ensures
        grammar::expr(t, i) matches Ok((e, j)) ==> writes(t, i, j, e, 0),
{
    expr_writes(t, i);
}

/// A statement that is parsed is written by the tokens it was parsed from.
pub proof fn statements_are_written(t: Seq<TokenV>, i: int)
    requires
        ends(t),
    ensures
        grammar::stmt(t, i) matches Ok((s, j)) ==> writes_stmt(t, i, j, s),
{
    stmt_writes(t, i);
}

/// A program that is parsed is written by the tokens up to the end of the source.
pub proof fn programs_are_written(t: Seq<TokenV>) -> (end: int)
    requires
        ends(t),
    ensures
        grammar::program(Seq::empty(), t, 0) matches Ok(xs) ==> here(t, end, TokenKind::Eof)
            && writes_program(t, 0, end, xs),
{
    program_writes(Seq::empty(), t, 0)
}

} // verus!

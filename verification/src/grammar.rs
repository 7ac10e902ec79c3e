//! The grammar of the language: what the tokens from a position on denote.
//!
//! Each function gives the tree that starts at a token, with the index of the token after it, or
//! the error that parsing it ends in.

use crate::ast::{
    BinaryOp, BlockItemV, ConstDefV, DeclV, ExprV, FuncDeclV, FuncDefV, FuncParamV, GlobalItemV,
    StmtV, Type, UnaryOp, VarDefV,
};
use crate::error::{self, ErrorView};
use crate::lexer::{KindV, TokenKind, TokenV};
use vstd::prelude::*;

verus! {

/// A tree and the index of the token after it, or an error.
pub type Parsed<T> = Result<(T, int), ErrorView>;

/// Whether the token at `i` is of a kind that has no text.
pub open spec fn at(t: Seq<TokenV>, i: int, k: TokenKind) -> bool {
    0 <= i < t.len() && t[i].kind == KindV::Other(k)
}

/// The error that the token at `i` is not what `message` asks for.
pub open spec fn wrong(t: Seq<TokenV>, i: int, message: Seq<char>) -> ErrorView {
    error::err_at(t[i].position, message)
}

/// The index after a token of kind `k`.
pub open spec fn expected(t: Seq<TokenV>, i: int, k: TokenKind, message: Seq<char>) -> Result<
    int,
    ErrorView,
> {
    if at(t, i, k) {
        Ok(i + 1)
    } else {
        Err(wrong(t, i, message))
    }
}

/// The name at `i`.
pub open spec fn ident(t: Seq<TokenV>, i: int) -> Parsed<Seq<char>> {
    match t[i].kind {
        KindV::Ident(name) => Ok((name, i + 1)),
        _ => Err(wrong(t, i, "expected identifier"@)),
    }
}

/// A result, which must end after `i` and within the tokens.
pub open spec fn forward<T>(r: Parsed<T>, t: Seq<TokenV>, i: int) -> Parsed<T> {
    match r {
        Ok((v, j)) => if i < j <= t.len() {
            Ok((v, j))
        } else {
            Err(error::err_new(Seq::empty()))
        },
        Err(e) => Err(e),
    }
}

// ── Expressions ──────────────────────────────────────────────────────────────

/// The binary operator that a token is, and its precedence level, from `||` (0) to `*` (5).
pub open spec fn binary_op(k: KindV) -> Option<(int, BinaryOp)> {
    match k {
        KindV::Other(k) => match k {
            TokenKind::OrOr => Some((0, BinaryOp::Or)),
            TokenKind::AndAnd => Some((1, BinaryOp::And)),
            TokenKind::EqEq => Some((2, BinaryOp::Eq)),
            TokenKind::NotEq => Some((2, BinaryOp::Ne)),
            TokenKind::Less => Some((3, BinaryOp::Lt)),
            TokenKind::Greater => Some((3, BinaryOp::Gt)),
            TokenKind::LessEq => Some((3, BinaryOp::Le)),
            TokenKind::GreaterEq => Some((3, BinaryOp::Ge)),
            TokenKind::Plus => Some((4, BinaryOp::Add)),
            TokenKind::Minus => Some((4, BinaryOp::Sub)),
            TokenKind::Star => Some((5, BinaryOp::Mul)),
            TokenKind::Slash => Some((5, BinaryOp::Div)),
            TokenKind::Percent => Some((5, BinaryOp::Rem)),
            _ => None,
        },
        _ => None,
    }
}

/// The operator of a precedence level that a token is.
pub open spec fn level_op(level: int, k: KindV) -> Option<BinaryOp> {
    match binary_op(k) {
        Some((l, op)) => if l == level {
            Some(op)
        } else {
            None
        },
        None => None,
    }
}

/// The prefix operator that a token is.
pub open spec fn unary_op(k: KindV) -> Option<UnaryOp> {
    match k {
        KindV::Other(TokenKind::Plus) => Some(UnaryOp::Plus),
        KindV::Other(TokenKind::Minus) => Some(UnaryOp::Minus),
        KindV::Other(TokenKind::Bang) => Some(UnaryOp::Not),
        _ => None,
    }
}

/// An expression.
pub open spec fn expr(t: Seq<TokenV>, i: int) -> Parsed<ExprV>
    decreases t.len() - i, 20int,
{
    if i < 0 || i >= t.len() {
        Err(error::err_new(Seq::empty()))
    } else {
        binary(0, t, i)
    }
}

/// An expression whose binary operators bind at least as tightly as `level`.
pub open spec fn binary(level: int, t: Seq<TokenV>, i: int) -> Parsed<ExprV>
    decreases
            t.len() - i,
            if 0 <= level < 6 {
                10 - level
            } else {
                4int
            },
{
    if i < 0 || i >= t.len() {
        Err(error::err_new(Seq::empty()))
    } else if level < 0 || level >= 6 {
        unary(t, i)
    } else {
        match forward(binary(level + 1, t, i), t, i) {
            Err(e) => Err(e),
            Ok((lhs, j)) => binary_rest(level, lhs, t, j),
        }
    }
}

/// The operators of a level that follow `lhs`, which group to the left.
pub open spec fn binary_rest(level: int, lhs: ExprV, t: Seq<TokenV>, i: int) -> Parsed<ExprV>
    decreases t.len() - i, 15int,
{
    if i < 0 || i >= t.len() {
        Ok((lhs, i))
    } else {
        match level_op(level, t[i].kind) {
            None => Ok((lhs, i)),
            Some(op) => match forward(binary(level + 1, t, i + 1), t, i + 1) {
                Err(e) => Err(e),
                Ok((rhs, j)) => binary_rest(
                    level,
                    ExprV::Binary { op, lhs: Box::new(lhs), rhs: Box::new(rhs) },
                    t,
                    j,
                ),
            },
        }
    }
}

/// A primary expression after any number of prefix operators.
pub open spec fn unary(t: Seq<TokenV>, i: int) -> Parsed<ExprV>
    decreases t.len() - i, 3int,
{
    if i < 0 || i >= t.len() {
        Err(error::err_new(Seq::empty()))
    } else {
        match unary_op(t[i].kind) {
            Some(op) => match unary(t, i + 1) {
                Err(e) => Err(e),
                Ok((x, j)) => Ok((ExprV::Unary { op, expr: Box::new(x) }, j)),
            },
            None => primary(t, i),
        }
    }
}

/// A literal, name, call, inline assembly or parenthesized expression, with its indices.
pub open spec fn primary(t: Seq<TokenV>, i: int) -> Parsed<ExprV>
    decreases t.len() - i, 2int,
{
    if i < 0 || i >= t.len() {
        Err(error::err_new(Seq::empty()))
    } else {
        match t[i].kind {
            KindV::Other(TokenKind::LParen) => match forward(expr(t, i + 1), t, i + 1) {
                Err(e) => Err(e),
                Ok((x, j)) => match expected(t, j, TokenKind::RParen, "expected ')'"@) {
                    Err(e) => Err(e),
                    Ok(k) => postfix(x, t, k),
                },
            },
            KindV::Other(TokenKind::IntLiteral(n)) => postfix(ExprV::Int(n), t, i + 1),
            KindV::Other(TokenKind::KwAsm) => match asm_code(t, i) {
                Err(e) => Err(e),
                Ok((code, j)) => postfix(ExprV::Asm(code), t, j),
            },
            KindV::Ident(name) => if at(t, i + 1, TokenKind::LParen) {
                match call_args(t, i + 2) {
                    Err(e) => Err(e),
                    Ok((args, j)) => match expected(t, j, TokenKind::RParen, "expected ')'"@) {
                        Err(e) => Err(e),
                        Ok(k) => if k > i {
                            postfix(ExprV::Call { name, args }, t, k)
                        } else {
                            Err(error::err_new(Seq::empty()))
                        },
                    },
                }
            } else {
                postfix(ExprV::LVal(name), t, i + 1)
            },
            _ => Err(wrong(t, i, "expected primary expression"@)),
        }
    }
}

/// `asm("...")`.
pub open spec fn asm_code(t: Seq<TokenV>, i: int) -> Parsed<Seq<char>> {
    match expected(t, i + 1, TokenKind::LParen, "expected '('"@) {
        Err(e) => Err(e),
        Ok(_) => match t[i + 2].kind {
            KindV::Str(code) => match expected(t, i + 3, TokenKind::RParen, "expected ')'"@) {
                Err(e) => Err(e),
                Ok(j) => Ok((code, j)),
            },
            _ => Err(wrong(t, i + 2, "expected string literal"@)),
        },
    }
}

/// The indices `[e]` that follow an expression.
pub open spec fn postfix(x: ExprV, t: Seq<TokenV>, i: int) -> Parsed<ExprV>
    decreases t.len() - i, 16int,
{
    if 0 <= i < t.len() && at(t, i, TokenKind::LBracket) {
        match forward(expr(t, i + 1), t, i + 1) {
            Err(e) => Err(e),
            Ok((index, j)) => match expected(t, j, TokenKind::RBracket, "expected ']'"@) {
                Err(e) => Err(e),
                Ok(k) => postfix(
                    ExprV::Index { array: Box::new(x), index: Box::new(index) },
                    t,
                    k,
                ),
            },
        }
    } else {
        Ok((x, i))
    }
}

/// The arguments of a call, up to its closing parenthesis.
pub open spec fn call_args(t: Seq<TokenV>, i: int) -> Parsed<Seq<ExprV>>
    decreases t.len() - i, 25int,
{
    if i < 0 || i >= t.len() {
        Err(error::err_new(Seq::empty()))
    } else if at(t, i, TokenKind::RParen) {
        Ok((Seq::empty(), i))
    } else {
        match forward(expr(t, i), t, i) {
            Err(e) => Err(e),
            Ok((x, j)) => more_args(seq![x], t, j),
        }
    }
}

/// Further arguments, each after a comma.
pub open spec fn more_args(args: Seq<ExprV>, t: Seq<TokenV>, i: int) -> Parsed<Seq<ExprV>>
    decreases t.len() - i, 24int,
{
    if 0 <= i < t.len() && at(t, i, TokenKind::Comma) {
        match forward(expr(t, i + 1), t, i + 1) {
            Err(e) => Err(e),
            Ok((x, j)) => more_args(args.push(x), t, j),
        }
    } else {
        Ok((args, i))
    }
}

/// The rest of an expression whose first operand is `lhs`.
pub open spec fn expr_from(level: int, lhs: ExprV, t: Seq<TokenV>, i: int) -> Parsed<ExprV>
    decreases 6 - level,
{
    if level < 0 || level >= 6 {
        Ok((lhs, i))
    } else {
        match expr_from(level + 1, lhs, t, i) {
            Err(e) => Err(e),
            Ok((x, j)) => binary_rest(level, x, t, j),
        }
    }
}

/// Bracketed expressions `[e]`: array dimensions or indices.
pub open spec fn brackets(dims: Seq<ExprV>, t: Seq<TokenV>, i: int) -> Parsed<Seq<ExprV>>
    decreases t.len() - i,
{
    if 0 <= i < t.len() && at(t, i, TokenKind::LBracket) {
        match forward(expr(t, i + 1), t, i + 1) {
            Err(e) => Err(e),
            Ok((x, j)) => match expected(t, j, TokenKind::RBracket, "expected ']'"@) {
                Err(e) => Err(e),
                Ok(k) => brackets(dims.push(x), t, k),
            },
        }
    } else {
        Ok((dims, i))
    }
}

/// An expression followed by indices.
pub open spec fn indexed(x: ExprV, indices: Seq<ExprV>) -> ExprV
    decreases indices.len(),
{
    if indices.len() == 0 {
        x
    } else {
        ExprV::Index {
            array: Box::new(indexed(x, indices.drop_last())),
            index: Box::new(indices.last()),
        }
    }
}

// ── Declarations ─────────────────────────────────────────────────────────────

/// An initial value: an expression or a braced list.
pub open spec fn init_val(t: Seq<TokenV>, i: int) -> Parsed<ExprV>
    decreases t.len() - i, 2int,
{
    if i < 0 || i >= t.len() {
        Err(error::err_new(Seq::empty()))
    } else if at(t, i, TokenKind::LBrace) {
        if at(t, i + 1, TokenKind::RBrace) {
            Ok((ExprV::InitList(Seq::empty()), i + 2))
        } else {
            match forward(init_val(t, i + 1), t, i + 1) {
                Err(e) => Err(e),
                Ok((x, j)) => match more_inits(seq![x], t, j) {
                    Err(e) => Err(e),
                    Ok((items, k)) => match expected(t, k, TokenKind::RBrace, "expected '}'"@) {
                        Err(e) => Err(e),
                        Ok(m) => Ok((ExprV::InitList(items), m)),
                    },
                },
            }
        }
    } else {
        expr(t, i)
    }
}

/// Further initial values, each after a comma.
pub open spec fn more_inits(items: Seq<ExprV>, t: Seq<TokenV>, i: int) -> Parsed<Seq<ExprV>>
    decreases t.len() - i, 1int,
{
    if 0 <= i < t.len() && at(t, i, TokenKind::Comma) {
        match forward(init_val(t, i + 1), t, i + 1) {
            Err(e) => Err(e),
            Ok((x, j)) => more_inits(items.push(x), t, j),
        }
    } else {
        Ok((items, i))
    }
}

/// `name[dims] = init`.
pub open spec fn const_def(t: Seq<TokenV>, i: int) -> Parsed<ConstDefV> {
    match ident(t, i) {
        Err(e) => Err(e),
        Ok((name, j)) => match brackets(Seq::empty(), t, j) {
            Err(e) => Err(e),
            Ok((dims, k)) => match expected(t, k, TokenKind::Eq, "expected '='"@) {
                Err(e) => Err(e),
                Ok(m) => match init_val(t, m) {
                    Err(e) => Err(e),
                    Ok((init, n)) => Ok((ConstDefV { name, dims, init }, n)),
                },
            },
        },
    }
}

/// Further constant definitions, each after a comma.
pub open spec fn more_const_defs(defs: Seq<ConstDefV>, t: Seq<TokenV>, i: int) -> Parsed<
    Seq<ConstDefV>,
>
    decreases t.len() - i,
{
    if 0 <= i < t.len() && at(t, i, TokenKind::Comma) {
        match forward(const_def(t, i + 1), t, i + 1) {
            Err(e) => Err(e),
            Ok((d, j)) => more_const_defs(defs.push(d), t, j),
        }
    } else {
        Ok((defs, i))
    }
}

/// `const int ...;`, from its `const` on.
pub open spec fn const_decl(t: Seq<TokenV>, i: int) -> Parsed<DeclV> {
    match expected(t, i + 1, TokenKind::KwInt, "expected 'int'"@) {
        Err(e) => Err(e),
        Ok(j) => match const_def(t, j) {
            Err(e) => Err(e),
            Ok((d, k)) => match more_const_defs(seq![d], t, k) {
                Err(e) => Err(e),
                Ok((defs, m)) => match expected(t, m, TokenKind::Semicolon, "expected ';'"@) {
                    Err(e) => Err(e),
                    Ok(n) => Ok((DeclV::Const(defs), n)),
                },
            },
        },
    }
}

/// `name[dims]`, with `= init` or without.
pub open spec fn var_def(t: Seq<TokenV>, i: int) -> Parsed<VarDefV> {
    match ident(t, i) {
        Err(e) => Err(e),
        Ok((name, j)) => match brackets(Seq::empty(), t, j) {
            Err(e) => Err(e),
            Ok((dims, k)) => if at(t, k, TokenKind::Eq) {
                match init_val(t, k + 1) {
                    Err(e) => Err(e),
                    Ok((init, n)) => Ok((VarDefV { name, dims, init: Some(init) }, n)),
                }
            } else {
                Ok((VarDefV { name, dims, init: None }, k))
            },
        },
    }
}

/// Further variable definitions, each after a comma.
pub open spec fn more_var_defs(defs: Seq<VarDefV>, t: Seq<TokenV>, i: int) -> Parsed<Seq<VarDefV>>
    decreases t.len() - i,
{
    if 0 <= i < t.len() && at(t, i, TokenKind::Comma) {
        match forward(var_def(t, i + 1), t, i + 1) {
            Err(e) => Err(e),
            Ok((d, j)) => more_var_defs(defs.push(d), t, j),
        }
    } else {
        Ok((defs, i))
    }
}

/// `int ...;`, from its `int` on.
pub open spec fn var_decl(t: Seq<TokenV>, i: int) -> Parsed<DeclV> {
    match var_def(t, i + 1) {
        Err(e) => Err(e),
        Ok((d, k)) => match more_var_defs(seq![d], t, k) {
            Err(e) => Err(e),
            Ok((defs, m)) => match expected(t, m, TokenKind::Semicolon, "expected ';'"@) {
                Err(e) => Err(e),
                Ok(n) => Ok((DeclV::Var(defs), n)),
            },
        },
    }
}

// ── Statements ───────────────────────────────────────────────────────────────

/// An expression and a semicolon.
pub open spec fn expr_stmt(t: Seq<TokenV>, i: int) -> Parsed<StmtV> {
    match expr(t, i) {
        Err(e) => Err(e),
        Ok((x, j)) => match expected(t, j, TokenKind::Semicolon, "expected ';'"@) {
            Err(e) => Err(e),
            Ok(k) => Ok((StmtV::Expr(x), k)),
        },
    }
}

/// A statement that starts with a name.
pub open spec fn name_stmt(name: Seq<char>, t: Seq<TokenV>, i: int) -> Parsed<StmtV> {
    if at(t, i + 1, TokenKind::LParen) {
        expr_stmt(t, i)
    } else {
        match brackets(Seq::empty(), t, i + 1) {
            Err(e) => Err(e),
            Ok((index, j)) => if at(t, j, TokenKind::Eq) {
                match expr(t, j + 1) {
                    Err(e) => Err(e),
                    Ok((x, k)) => match expected(t, k, TokenKind::Semicolon, "expected ';'"@) {
                        Err(e) => Err(e),
                        Ok(m) => Ok((StmtV::Assign { name, index, expr: x }, m)),
                    },
                }
            } else {
                match expr_from(0, indexed(ExprV::LVal(name), index), t, j) {
                    Err(e) => Err(e),
                    Ok((x, k)) => match expected(t, k, TokenKind::Semicolon, "expected ';'"@) {
                        Err(e) => Err(e),
                        Ok(m) => Ok((StmtV::Expr(x), m)),
                    },
                }
            },
        }
    }
}

/// `(cond)` after an `if` or `while` at `i`.
pub open spec fn condition(t: Seq<TokenV>, i: int) -> Parsed<ExprV> {
    match expected(t, i + 1, TokenKind::LParen, "expected '('"@) {
        Err(e) => Err(e),
        Ok(j) => match expr(t, j) {
            Err(e) => Err(e),
            Ok((cond, k)) => match expected(t, k, TokenKind::RParen, "expected ')'"@) {
                Err(e) => Err(e),
                Ok(m) => Ok((cond, m)),
            },
        },
    }
}

/// A keyword and a semicolon.
pub open spec fn keyword_stmt(s: StmtV, t: Seq<TokenV>, i: int) -> Parsed<StmtV> {
    match expected(t, i + 1, TokenKind::Semicolon, "expected ';'"@) {
        Err(e) => Err(e),
        Ok(j) => Ok((s, j)),
    }
}

/// A `return` statement.
pub open spec fn return_stmt(t: Seq<TokenV>, i: int) -> Parsed<StmtV> {
    if at(t, i + 1, TokenKind::Semicolon) {
        Ok((StmtV::Return(None), i + 2))
    } else {
        match expr(t, i + 1) {
            Err(e) => Err(e),
            Ok((x, j)) => match expected(t, j, TokenKind::Semicolon, "expected ';'"@) {
                Err(e) => Err(e),
                Ok(k) => Ok((StmtV::Return(Some(x)), k)),
            },
        }
    }
}

/// A statement of inline assembly.
pub open spec fn asm_stmt(t: Seq<TokenV>, i: int) -> Parsed<StmtV> {
    match asm_code(t, i) {
        Err(e) => Err(e),
        Ok((code, j)) => match expected(t, j, TokenKind::Semicolon, "expected ';'"@) {
            Err(e) => Err(e),
            Ok(k) => Ok((StmtV::Asm(code), k)),
        },
    }
}

/// A statement. An `else` belongs to the nearest `if`.
pub open spec fn stmt(t: Seq<TokenV>, i: int) -> Parsed<StmtV>
    decreases t.len() - i, 2int,
{
    if i < 0 || i >= t.len() {
        Err(error::err_new(Seq::empty()))
    } else {
        match t[i].kind {
            KindV::Other(TokenKind::KwReturn) => return_stmt(t, i),
            KindV::Other(TokenKind::KwIf) => match forward(condition(t, i), t, i) {
                Err(e) => Err(e),
                Ok((cond, j)) => match forward(stmt(t, j), t, j) {
                    Err(e) => Err(e),
                    Ok((first, k)) => if at(t, k, TokenKind::KwElse) {
                        match stmt(t, k + 1) {
                            Err(e) => Err(e),
                            Ok((second, m)) => Ok(
                                (
                                    StmtV::If {
                                        cond,
                                        then_branch: Box::new(first),
                                        else_branch: Some(Box::new(second)),
                                    },
                                    m,
                                ),
                            ),
                        }
                    } else {
                        Ok(
                            (
                                StmtV::If { cond, then_branch: Box::new(first), else_branch: None },
                                k,
                            ),
                        )
                    },
                },
            },
            KindV::Other(TokenKind::KwWhile) => match forward(condition(t, i), t, i) {
                Err(e) => Err(e),
                Ok((cond, j)) => match stmt(t, j) {
                    Err(e) => Err(e),
                    Ok((body, k)) => Ok((StmtV::While { cond, body: Box::new(body) }, k)),
                },
            },
            KindV::Other(TokenKind::KwBreak) => keyword_stmt(StmtV::Break, t, i),
            KindV::Other(TokenKind::KwContinue) => keyword_stmt(StmtV::Continue, t, i),
            KindV::Other(TokenKind::KwAsm) => asm_stmt(t, i),
            KindV::Other(TokenKind::Semicolon) => Ok((StmtV::Empty, i + 1)),
            KindV::Other(TokenKind::LBrace) => match block(t, i) {
                Err(e) => Err(e),
                Ok((items, j)) => Ok((StmtV::Block(items), j)),
            },
            KindV::Ident(name) => name_stmt(name, t, i),
            _ => expr_stmt(t, i),
        }
    }
}

/// A declaration or statement.
pub open spec fn block_item(t: Seq<TokenV>, i: int) -> Parsed<BlockItemV>
    decreases t.len() - i, 3int,
{
    if at(t, i, TokenKind::KwConst) {
        match const_decl(t, i) {
            Err(e) => Err(e),
            Ok((d, j)) => Ok((BlockItemV::Decl(d), j)),
        }
    } else if at(t, i, TokenKind::KwInt) {
        match var_decl(t, i) {
            Err(e) => Err(e),
            Ok((d, j)) => Ok((BlockItemV::Decl(d), j)),
        }
    } else {
        match stmt(t, i) {
            Err(e) => Err(e),
            Ok((s, j)) => Ok((BlockItemV::Stmt(s), j)),
        }
    }
}

/// The items up to a closing brace or the end of the source.
pub open spec fn items(done: Seq<BlockItemV>, t: Seq<TokenV>, i: int) -> Parsed<Seq<BlockItemV>>
    decreases t.len() - i, 4int,
{
    if i < 0 || i >= t.len() || at(t, i, TokenKind::RBrace) || at(t, i, TokenKind::Eof) {
        Ok((done, i))
    } else {
        match forward(block_item(t, i), t, i) {
            Err(e) => Err(e),
            Ok((x, j)) => items(done.push(x), t, j),
        }
    }
}

/// A block.
pub open spec fn block(t: Seq<TokenV>, i: int) -> Parsed<Seq<BlockItemV>>
    decreases t.len() - i, 1int,
{
    if i < 0 || i >= t.len() {
        Err(error::err_new(Seq::empty()))
    } else {
        match expected(t, i, TokenKind::LBrace, "expected '{'"@) {
            Err(e) => Err(e),
            Ok(j) => match items(Seq::empty(), t, j) {
                Err(e) => Err(e),
                Ok((list, k)) => match expected(t, k, TokenKind::RBrace, "expected '}'"@) {
                    Err(e) => Err(e),
                    Ok(m) => Ok((list, m)),
                },
            },
        }
    }
}

// ── Top level ────────────────────────────────────────────────────────────────

/// A parameter after its `int`.
pub open spec fn param(t: Seq<TokenV>, i: int) -> Parsed<FuncParamV> {
    match ident(t, i) {
        Err(e) => Err(e),
        Ok((name, j)) => if at(t, j, TokenKind::LBracket) {
            match expected(t, j + 1, TokenKind::RBracket, "expected ']'"@) {
                Err(e) => Err(e),
                Ok(k) => match brackets(Seq::empty(), t, k) {
                    Err(e) => Err(e),
                    Ok((dims, m)) => Ok(
                        (FuncParamV { name, is_array: true, array_dims: dims }, m),
                    ),
                },
            }
        } else {
            Ok((FuncParamV { name, is_array: false, array_dims: Seq::empty() }, j))
        },
    }
}

/// Further parameters, each after a comma.
pub open spec fn more_params(done: Seq<FuncParamV>, t: Seq<TokenV>, i: int) -> Parsed<
    Seq<FuncParamV>,
>
    decreases t.len() - i,
{
    if 0 <= i < t.len() && at(t, i, TokenKind::Comma) {
        match expected(t, i + 1, TokenKind::KwInt, "expected 'int'"@) {
            Err(e) => Err(e),
            Ok(j) => match forward(param(t, j), t, j) {
                Err(e) => Err(e),
                Ok((p, k)) => more_params(done.push(p), t, k),
            },
        }
    } else {
        Ok((done, i))
    }
}

/// The parameters of a function.
pub open spec fn params(t: Seq<TokenV>, i: int) -> Parsed<Seq<FuncParamV>> {
    if at(t, i, TokenKind::KwInt) {
        match param(t, i + 1) {
            Err(e) => Err(e),
            Ok((p, j)) => more_params(seq![p], t, j),
        }
    } else {
        Ok((Seq::empty(), i))
    }
}

/// Whether a definition of variables, and not of a function, follows the name at `i`.
pub open spec fn is_var_def(t: Seq<TokenV>, i: int) -> bool {
    t[i].kind is Ident && (at(t, i + 1, TokenKind::Eq) || at(t, i + 1, TokenKind::Comma) || at(
        t,
        i + 1,
        TokenKind::Semicolon,
    ) || at(t, i + 1, TokenKind::LBracket))
}

/// A function declaration or definition, from its name on.
pub open spec fn function(ret_type: Type, t: Seq<TokenV>, i: int) -> Parsed<GlobalItemV> {
    match ident(t, i) {
        Err(e) => Err(e),
        Ok((name, j)) => match expected(t, j, TokenKind::LParen, "expected '('"@) {
            Err(e) => Err(e),
            Ok(k) => match params(t, k) {
                Err(e) => Err(e),
                Ok((params, m)) => match expected(t, m, TokenKind::RParen, "expected ')'"@) {
                    Err(e) => Err(e),
                    Ok(n) => if at(t, n, TokenKind::Semicolon) {
                        Ok((GlobalItemV::FuncDecl(FuncDeclV { ret_type, name, params }), n + 1))
                    } else {
                        match block(t, n) {
                            Err(e) => Err(e),
                            Ok((body, q)) => Ok(
                                (GlobalItemV::FuncDef(FuncDefV { ret_type, name, params, body }), q),
                            ),
                        }
                    },
                },
            },
        },
    }
}

/// A declaration or function at the top level.
pub open spec fn global_item(t: Seq<TokenV>, i: int) -> Parsed<GlobalItemV> {
    match t[i].kind {
        KindV::Other(TokenKind::KwConst) => match const_decl(t, i) {
            Err(e) => Err(e),
            Ok((d, j)) => Ok((GlobalItemV::Decl(d), j)),
        },
        KindV::Other(TokenKind::KwInt) => if is_var_def(t, i + 1) {
            match var_decl(t, i) {
                Err(e) => Err(e),
                Ok((d, j)) => Ok((GlobalItemV::Decl(d), j)),
            }
        } else {
            function(Type::Int, t, i + 1)
        },
        KindV::Other(TokenKind::KwVoid) => function(Type::Void, t, i + 1),
        _ => Err(wrong(t, i, "expected function definition or declaration"@)),
    }
}

/// A whole program: the items up to the end of the source.
pub open spec fn program(done: Seq<GlobalItemV>, t: Seq<TokenV>, i: int) -> Result<
    Seq<GlobalItemV>,
    ErrorView,
>
    decreases t.len() - i,
{
    if i < 0 || i >= t.len() || at(t, i, TokenKind::Eof) {
        Ok(done)
    } else {
        match forward(global_item(t, i), t, i) {
            Err(e) => Err(e),
            Ok((g, j)) => program(done.push(g), t, j),
        }
    }
}

} // verus!

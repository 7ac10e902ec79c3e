//! Writes a syntax tree as RISC-V assembly, without optimization.

use crate::ast::{
    self, BinaryOp, Block, BlockItem, CompUnit, ConstDef, Decl, Expr, ExprV, FuncDef, FuncParam,
    GlobalItem, Stmt, Type, UnaryOp, VarDef,
};
use crate::ast_to_ir::{
    self, align, bad_dims, copy_ints, count_indices, pad_to, quote, too_large, total,
};
use crate::error::{fail, CompilerError, CompilerResult, ErrorView};
use crate::eval::{eval_binary, eval_unary};
use crate::frame::{round_up, REG_ARGS};
use crate::ir_to_riscv::{emit_arg_reg, emit_lw, emit_popped, emit_sw, short};
use crate::names::NameMap;
use crate::riscv_text::{self, RvSymV, RvV, ScaleV, SlotsV};
use crate::scopes::{Scopes, ScopesV};
use crate::text::{cat2, cat3, cat4, cat5, cat7, dec_i32, dec_usize};
use crate::translate;
use vstd::prelude::*;

verus! {

broadcast use {
    crate::ast::exprs_push,
    crate::ast::call_view,
    crate::ast::init_list_view,
    crate::ast::block_view,
};

// ── Symbols ──────────────────────────────────────────────────────────────────

/// What a name stands for.
#[derive(Debug)]
pub enum RvSymbol {
    Const(i32),
    /// A variable, by its offset from the stack pointer.
    Var { offset: i32 },
    /// An array, and the values it starts with.
    Array { offset: i32, dims: Vec<i32>, init_vals: Vec<i32> },
    /// A parameter that points to integers.
    PtrArray { offset: i32 },
    /// A parameter that points to arrays of the given dimensions.
    NdParam { offset: i32, dims: Vec<i32> },
    /// A global variable: its label, its dimensions, and the values it starts with.
    Global(String, Vec<i32>, Vec<i32>),
}

impl View for RvSymbol {
    type V = RvSymV;

    open spec fn view(&self) -> RvSymV {
        match *self {
            RvSymbol::Const(v) => RvSymV::Const(v),
            RvSymbol::Var { offset } => RvSymV::Var(offset),
            RvSymbol::Array { offset, dims, init_vals } => RvSymV::Array {
                offset,
                dims: dims@,
                vals: init_vals@,
            },
            RvSymbol::PtrArray { offset } => RvSymV::PtrArray(offset),
            RvSymbol::NdParam { offset, dims } => RvSymV::NdParam { offset, dims: dims@ },
            RvSymbol::Global(label, dims, vals) => RvSymV::Global(label@, dims@, vals@),
        }
    }
}

impl Clone for RvSymbol {
    fn clone(&self) -> (r: Self)
        ensures
            r@ == self@,
    {
        match self {
            RvSymbol::Const(v) => RvSymbol::Const(*v),
            RvSymbol::Var { offset } => RvSymbol::Var { offset: *offset },
            RvSymbol::Array { offset, dims, init_vals } => RvSymbol::Array {
                offset: *offset,
                dims: copy_ints(dims),
                init_vals: copy_ints(init_vals),
            },
            RvSymbol::PtrArray { offset } => RvSymbol::PtrArray { offset: *offset },
            RvSymbol::NdParam { offset, dims } => RvSymbol::NdParam {
                offset: *offset,
                dims: copy_ints(dims),
            },
            RvSymbol::Global(label, dims, vals) => RvSymbol::Global(
                label.clone(),
                copy_ints(dims),
                copy_ints(vals),
            ),
        }
    }
}

// ── Instructions with long operands ──────────────────────────────────────────

fn sp_add(delta: i32) -> (r: String)
    requires
        delta > i32::MIN,
    ensures
        r@ == riscv_text::sp_add(delta as int),
{
    if delta > 0 {
        let d = dec_i32(delta);
        if delta < 2048 {
            cat3("  addi sp, sp, ", d.as_str(), "\n")
        } else {
            cat3("  li t0, ", d.as_str(), "\n  add sp, sp, t0\n")
        }
    } else if delta < 0 {
        let d = dec_i32(-delta);
        if delta > -2048 {
            cat3("  addi sp, sp, -", d.as_str(), "\n")
        } else {
            cat3("  li t0, ", d.as_str(), "\n  sub sp, sp, t0\n")
        }
    } else {
        String::new()
    }
}

fn addi_large(rd: &str, rs: &str, imm: i32) -> (r: String)
    ensures
        r@ == riscv_text::addi_large(rd@, rs@, imm),
{
    let d = dec_i32(imm);
    if short(imm) {
        cat7("  addi ", rd, ", ", rs, ", ", d.as_str(), "\n")
    } else {
        cat2(
            cat3("  li t0, ", d.as_str(), "\n").as_str(),
            cat5("  add ", rd, ", ", rs, ", t0\n").as_str(),
        )
    }
}

fn leave(size: i32) -> (r: String)
    requires
        size >= 4,
    ensures
        r@ == riscv_text::leave(size),
{
    cat3(emit_lw("ra", size - 4).as_str(), sp_add(size).as_str(), "  ret\n")
}

fn op_code(op: BinaryOp) -> (r: &'static str)
    ensures
        r@ == riscv_text::op_code(op),
{
    match op {
        BinaryOp::Add => "  add a0, t0, a0\n",
        BinaryOp::Sub => "  sub a0, t0, a0\n",
        BinaryOp::Mul => "  mul a0, t0, a0\n",
        BinaryOp::Div => "  div a0, t0, a0\n",
        BinaryOp::Rem => "  rem a0, t0, a0\n",
        BinaryOp::Lt => "  slt a0, t0, a0\n",
        BinaryOp::Gt => "  sgt a0, t0, a0\n",
        BinaryOp::Le => "  sgt a0, t0, a0\n  xori a0, a0, 1\n",
        BinaryOp::Ge => "  slt a0, t0, a0\n  xori a0, a0, 1\n",
        BinaryOp::Eq => "  sub a0, t0, a0\n  seqz a0, a0\n",
        _ => "  sub a0, t0, a0\n  snez a0, a0\n",
    }
}

/// The code that follows the value of an index.
fn index_code(pointer: bool, rows: i32, first: bool) -> (r: String)
    ensures
        r@ == riscv_text::scale_code(pointer, rows) + riscv_text::gather_code(first),
{
    let scale = if pointer {
        "  slli a0, a0, 2\n".to_owned()
    } else if rows == 1 {
        String::new()
    } else {
        cat3("  li t0, ", dec_i32(rows).as_str(), "\n  mul a0, a0, t0\n")
    };
    if first {
        cat2(scale.as_str(), "  mv t2, a0\n")
    } else {
        cat2(scale.as_str(), "  add t2, t2, a0\n")
    }
}

// ── Constants ────────────────────────────────────────────────────────────────

/// The value that a dimension is taken to have.
fn dim_value(consts: &NameMap<i32>, expr: &Expr) -> (r: i32)
    ensures
        r == riscv_text::dim_value(consts@, expr.view()),
    decreases expr,
{
    match expr {
        Expr::Int(n) => *n,
        Expr::LVal(name) => match consts.get(name.as_str()) {
            Some(v) => *v,
            None => 1,
        },
        Expr::Unary { op, expr: inner } => eval_unary(*op, dim_value(consts, inner)),
        Expr::Binary { op, lhs, rhs } => {
            let l = dim_value(consts, lhs);
            let r = dim_value(consts, rhs);
            match op {
                BinaryOp::Mul | BinaryOp::Div | BinaryOp::Rem | BinaryOp::Add | BinaryOp::Sub => {
                    match eval_binary(*op, l, r) {
                        Some(v) => v,
                        None => 1,
                    }
                },
                _ => 1,
            }
        },
        _ => 1,
    }
}

/// The values that some dimensions are taken to have.
#[verifier::loop_isolation(false)]
fn dim_values(consts: &NameMap<i32>, dims: &Vec<Expr>) -> (r: Vec<i32>)
    ensures
        r@ == riscv_text::dim_values(consts@, ast::exprs(dims@)),
{
    let ghost all = riscv_text::dim_values(consts@, ast::exprs(dims@));
    let mut out: Vec<i32> = Vec::new();
    let mut i: usize = 0;
    while i < dims.len()
        invariant
            i <= dims.len(),
            out@ =~= all.take(i as int),
        decreases dims.len() - i,
    {
        out.push(dim_value(consts, &dims[i]));
        i = i + 1;
        assert(all.take(i as int) =~= all.take(i - 1).push(all[i - 1]));
    }
    assert(all.take(i as int) =~= all);
    out
}

/// The product of the dimensions from the `k`th on.
fn stride(dims: &Vec<i32>, k: usize) -> (r: i32)
    ensures
        r == riscv_text::stride(dims@, k as int),
{
    let mut size: i32 = 1;
    let mut i: usize = dims.len();
    while i > k
        invariant
            i <= dims.len(),
            i >= k || i == dims.len(),
            size == riscv_text::stride(dims@, i as int),
        decreases i,
    {
        i = i - 1;
        size = dims[i].wrapping_mul(size);
    }
    size
}

/// The number of elements that the `i`th index counts.
fn rows(dims: &Vec<i32>, i: usize, from: usize) -> (r: i32)
    requires
        from <= 1,
    ensures
        r == riscv_text::stride(dims@, i + from),
{
    if i < dims.len() {
        stride(dims, i + from)
    } else {
        1
    }
}

/// The number of elements that the index after those of an expression counts.
fn rows_after(dims: &Vec<i32>, expr: &Expr, from: usize) -> (r: i32)
    requires
        from <= 1,
    ensures
        r == riscv_text::stride(dims@, translate::index_count(expr.view()) + from),
{
    rows(dims, count_indices(expr, dims.len()), from)
}

/// The name under the indices of an expression.
fn base_name(expr: &Expr) -> (r: Option<&String>)
    ensures
        match riscv_text::base_name(expr.view()) {
            Some(n) => r matches Some(x) && x@ == n,
            None => r is None,
        },
    decreases expr,
{
    match expr {
        Expr::Index { array, .. } => base_name(array),
        Expr::LVal(name) => Some(name),
        _ => None,
    }
}

/// An element of an array at a position.
fn element_at(vals: &Vec<i32>, at: i32) -> (r: CompilerResult<i32>)
    ensures
        match riscv_text::element_at(vals@, at) {
            Ok(v) => r == Ok::<i32, CompilerError>(v),
            Err(e) => r matches Err(x) && x@ == e,
        },
{
    if at >= 0 && (at as usize) < vals.len() {
        Ok(vals[at as usize])
    } else {
        Err(
            fail(
                cat4(
                    "const array index out of bounds: index ",
                    dec_i32(at).as_str(),
                    ", len ",
                    dec_usize(vals.len()).as_str(),
                ).as_str(),
            ),
        )
    }
}

/// The dimensions and the values of an array, by the name under the indices of an expression.
fn const_array<'a>(scopes: &'a Scopes<RvSymbol>, expr: &Expr) -> (r: CompilerResult<
    (&'a Vec<i32>, &'a Vec<i32>),
>)
    ensures
        match riscv_text::const_array(scopes@, expr.view()) {
            Ok(v) => r matches Ok(x) && x.0@ == v.0 && x.1@ == v.1,
            Err(e) => r matches Err(x) && x@ == e,
        },
{
    match base_name(expr) {
        None => Err(fail("array base is not a variable")),
        Some(name) => match scopes.lookup(name.as_str()) {
            Some(RvSymbol::Array { dims, init_vals, .. }) => Ok((dims, init_vals)),
            Some(RvSymbol::Global(_, dims, vals)) => Ok((dims, vals)),
            _ => Err(quote("'", name.as_str(), "' is not a const array")),
        },
    }
}

fn eval_const(scopes: &Scopes<RvSymbol>, expr: &Expr) -> (r: CompilerResult<i32>)
    ensures
        match riscv_text::const_value(scopes@, expr.view()) {
            Ok(v) => r == Ok::<i32, CompilerError>(v),
            Err(e) => r matches Err(x) && x@ == e,
        },
    decreases expr, 1int,
{
    match expr {
        Expr::Int(v) => Ok(*v),
        Expr::LVal(name) => match scopes.lookup(name.as_str()) {
            Some(RvSymbol::Const(v)) => Ok(*v),
            _ => Err(quote("'", name.as_str(), "' is not a compile-time constant")),
        },
        Expr::Unary { op, expr: inner } => {
            let v = eval_const(scopes, inner)?;
            Ok(eval_unary(*op, v))
        },
        Expr::Binary { op, lhs, rhs } => {
            let l = eval_const(scopes, lhs)?;
            let r = eval_const(scopes, rhs)?;
            match eval_binary(*op, l, r) {
                Some(v) => Ok(v),
                None => if matches!(op, BinaryOp::Div) {
                    Err(fail("invalid constant division"))
                } else {
                    Err(fail("invalid constant remainder"))
                },
            }
        },
        Expr::Call { .. } => Err(fail("function call is not a compile-time constant")),
        Expr::Index { .. } => {
            let (dims, vals) = const_array(scopes, expr)?;
            let at = eval_const_index(scopes, dims, expr)?;
            element_at(vals, at)
        },
        Expr::InitList(_) => Err(fail("initializer list is not a compile-time constant")),
        Expr::Asm(_) => Err(fail("inline assembly is not a compile-time constant")),
    }
}

/// The position among all elements that constant indices lead to.
fn eval_const_index(scopes: &Scopes<RvSymbol>, dims: &Vec<i32>, expr: &Expr) -> (r: CompilerResult<
    i32,
>)
    ensures
        match riscv_text::const_position(scopes@, dims@, expr.view()) {
            Ok(v) => r == Ok::<i32, CompilerError>(v),
            Err(e) => r matches Err(x) && x@ == e,
        },
    decreases expr, 0int,
{
    match expr {
        Expr::Index { array, index } => {
            let before = eval_const_index(scopes, dims, array)?;
            let i = eval_const(scopes, index)?;
            Ok(before.wrapping_add(i.wrapping_mul(rows_after(dims, array, 1))))
        },
        _ => Ok(0),
    }
}

/// The values of constant expressions.
fn eval_dims(scopes: &Scopes<RvSymbol>, dims: &Vec<Expr>) -> (r: CompilerResult<Vec<i32>>)
    ensures
        match riscv_text::const_values(scopes@, ast::exprs(dims@)) {
            Ok(v) => r matches Ok(x) && x@ == v,
            Err(e) => r matches Err(x) && x@ == e,
        },
{
    let mut out: Vec<i32> = Vec::new();
    let ghost all = ast::exprs(dims@);
    let mut i: usize = 0;
    assert(all.take(0) =~= Seq::empty());
    while i < dims.len()
        invariant
            i <= dims.len(),
            all == ast::exprs(dims@),
            riscv_text::const_values(scopes@, all.take(i as int)) == Ok::<Seq<i32>, ErrorView>(
                out@,
            ),
        decreases dims.len() - i,
    {
        assert(all.take(i + 1).drop_last() =~= all.take(i as int));
        match eval_const(scopes, &dims[i]) {
            Ok(v) => {
                out.push(v);
            },
            Err(e) => {
                proof {
                    const_values_fail(scopes@, all, i + 1);
                }
                return Err(e);
            },
        }
        i = i + 1;
    }
    assert(all.take(i as int) =~= all);
    Ok(out)
}

/// The first error among constant expressions is that of any longer list.
proof fn const_values_fail(v: ScopesV<RvSymV>, es: Seq<ExprV>, k: int)
    requires
        0 <= k <= es.len(),
        riscv_text::const_values(v, es.take(k)) is Err,
    ensures
        riscv_text::const_values(v, es) == riscv_text::const_values(v, es.take(k)),
    decreases es.len() - k,
{
    if k == es.len() {
        assert(es.take(k) =~= es);
    } else {
        assert(es.take(k + 1).drop_last() =~= es.take(k));
        const_values_fail(v, es, k + 1);
    }
}

// ── Initializers ─────────────────────────────────────────────────────────────

spec fn computed_view(v: Seq<(usize, &Expr)>) -> Seq<(usize, ExprV)> {
    v.map_values(|p: (usize, &Expr)| (p.0, p.1.view()))
}

/// The values of an initializer, with zeros for those that are not constant.
#[verifier::loop_isolation(false)]
fn flatten_init_vals<'a>(
    scopes: &Scopes<RvSymbol>,
    dims: &[i32],
    init: &'a Expr,
    vals: &mut Vec<i32>,
    computed: &mut Vec<(usize, &'a Expr)>,
) -> (r: CompilerResult<()>)
    ensures
        match riscv_text::flatten(
            scopes@,
            dims@,
            init.view(),
            (old(vals)@, computed_view(old(computed)@)),
        ) {
            Ok(f) => r is Ok && final(vals)@ == f.0 && computed_view(final(computed)@) == f.1
                && f.0.len() >= old(vals)@.len(),
            Err(e) => r matches Err(x) && x@ == e,
        },
    decreases init, 0int,
{
    let start = vals.len();
    let count = match total(dims) {
        None => return Err(bad_dims()),
        Some(t) => t,
    };
    match init {
        Expr::InitList(items) => {
            if items.len() == 0 {
                return Ok(());
            }
            let ghost before: riscv_text::Flat = (vals@, computed_view(computed@));
            let ghost all = ast::exprs(items@);
            let mut k: usize = 0;
            while k < items.len()
                invariant
                    k <= items.len(),
                    start <= vals@.len(),
                    riscv_text::flatten_items(scopes@, dims@, all, 0, before, start as int)
                        == riscv_text::flatten_items(
                        scopes@,
                        dims@,
                        all,
                        k as int,
                        (vals@, computed_view(computed@)),
                        start as int,
                    ),
                decreases items.len() - k,
            {
                let item = &items[k];
                assert(all[k as int] == item.view());
                match item {
                    Expr::InitList(_) => {
                        let inner: i32 = if dims.len() == 0 {
                            1
                        } else {
                            dims[dims.len() - 1]
                        };
                        align(vals, start, inner)?;
                        flatten_row(scopes, dims, item, vals, computed)?;
                    },
                    _ => {
                        let at = vals.len();
                        match eval_const(scopes, item) {
                            Ok(v) => {
                                vals.push(v);
                            },
                            Err(_) => {
                                let ghost was = computed@;
                                vals.push(0);
                                computed.push((at, item));
                                assert(computed_view(computed@) =~= computed_view(was).push(
                                    (at, item.view()),
                                ));
                            },
                        }
                    },
                }
                k = k + 1;
            }
            pad_to(vals, start, count)
        },
        Expr::Int(n) => {
            vals.push(*n);
            pad_to(vals, start, count)
        },
        _ => Ok(()),
    }
}

/// The values of a nested braced list, with zeros up to the end of its row.
fn flatten_row<'a>(
    scopes: &Scopes<RvSymbol>,
    dims: &[i32],
    item: &'a Expr,
    vals: &mut Vec<i32>,
    computed: &mut Vec<(usize, &'a Expr)>,
) -> (r: CompilerResult<()>)
    requires
        riscv_text::inner_dim(dims@) > 0,
    ensures
        match riscv_text::flatten(
            scopes@,
            translate::row_dims(dims@),
            item.view(),
            (old(vals)@, computed_view(old(computed)@)),
        ) {
            Err(e) => r matches Err(x) && x@ == e,
            Ok(f) => match riscv_text::row_end(dims@, old(vals)@.len() as int) {
                None => r matches Err(x) && x@ == translate::bad_dims(),
                Some(end) => match riscv_text::padded(f, end) {
                    Err(e) => r matches Err(x) && x@ == e,
                    Ok(v) => r is Ok && final(vals)@ == v.0 && computed_view(final(computed)@)
                        == v.1 && v.0.len() >= old(vals)@.len(),
                },
            },
        },
    decreases item, 1int,
{
    let start = vals.len();
    if dims.len() > 1 {
        let below = vstd::slice::slice_subrange(dims, 1, dims.len());
        assert(below@ =~= dims@.drop_first());
        flatten_init_vals(scopes, below, item, vals, computed)?;
        match total(below) {
            None => Err(bad_dims()),
            Some(t) => pad_to(vals, start, t),
        }
    } else {
        let below = vstd::slice::slice_subrange(dims, 0, 0);
        assert(below@ =~= Seq::empty());
        flatten_init_vals(scopes, below, item, vals, computed)?;
        let inner: i32 = if dims.len() == 0 {
            1
        } else {
            dims[dims.len() - 1]
        };
        pad_to(vals, start, inner as usize)
    }
}

/// The values that an array starts with, and what is to be computed for it.
fn init_values<'a>(scopes: &Scopes<RvSymbol>, dims: &Vec<i32>, init: &'a Expr) -> (r:
    CompilerResult<(Vec<i32>, Vec<(usize, &'a Expr)>)>)
    ensures
        match riscv_text::init_values(scopes@, dims@, init.view()) {
            Ok(f) => r matches Ok(x) && x.0@ == f.0 && computed_view(x.1@) == f.1,
            Err(e) => r matches Err(x) && x@ == e,
        },
{
    let mut vals: Vec<i32> = Vec::new();
    let mut computed: Vec<(usize, &'a Expr)> = Vec::new();
    assert(computed_view(computed@) =~= Seq::empty());
    flatten_init_vals(scopes, dims.as_slice(), init, &mut vals, &mut computed)?;
    match total(dims.as_slice()) {
        None => Err(bad_dims()),
        Some(t) => {
            if vals.len() > t {
                let ghost before = vals@;
                vals.truncate(t);
                assert(vals@ =~= before.take(t as int));
            }
            Ok((vals, computed))
        },
    }
}

// ── Where variables are ──────────────────────────────────────────────────────

/// Where the variables of a function are.
struct Slots {
    counts: NameMap<usize>,
    offsets: NameMap<i32>,
    consts: NameMap<i32>,
    words: i32,
}

impl View for Slots {
    type V = SlotsV;

    closed spec fn view(&self) -> SlotsV {
        SlotsV {
            counts: self.counts@,
            offsets: self.offsets@,
            consts: self.consts@,
            words: self.words,
        }
    }
}

fn distinct(name: &str, n: usize) -> (r: String)
    ensures
        r@ == riscv_text::distinct(name@, n),
{
    if n == 0 {
        name.to_owned()
    } else {
        cat3(name, "_", dec_usize(n).as_str())
    }
}

fn count_of(m: &NameMap<usize>, name: &str) -> (r: usize)
    ensures
        r == riscv_text::count(m@, name@),
{
    match m.get(name) {
        Some(n) => *n,
        None => 0,
    }
}

/// The number of words of a variable.
fn words_of(consts: &NameMap<i32>, dims: &Vec<Expr>) -> (r: i32)
    ensures
        r == riscv_text::words_of(consts@, ast::exprs(dims@)),
        r > 0,
{
    let n = stride(&dim_values(consts, dims), 0);
    if n > 0 {
        n
    } else {
        1
    }
}

impl Slots {
    fn new(consts: NameMap<i32>) -> (r: Self)
        ensures
            r@ == (SlotsV {
                counts: Map::empty(),
                offsets: Map::empty(),
                consts: consts@,
                words: 0,
            }),
    {
        Slots { counts: NameMap::new(), offsets: NameMap::new(), consts, words: 0 }
    }

    /// A variable more.
    fn add_slot(&mut self, name: &String, words: i32) -> (r: CompilerResult<()>)
        requires
            old(self)@.words >= 0,
            words > 0,
        ensures
            match riscv_text::with_slot(old(self)@, name@, words) {
                Ok(s) => r is Ok && final(self)@ == s && s.words >= 0,
                Err(e) => r matches Err(x) && x@ == e,
            },
    {
        let n = count_of(&self.counts, name.as_str());
        let end: i64 = self.words as i64 + words as i64;
        if n == usize::MAX || 4 * end > i32::MAX as i64 {
            return Err(too_large());
        }
        self.counts.insert(name.clone(), n + 1);
        self.offsets.insert(distinct(name.as_str(), n), 4 * self.words);
        self.words = self.words + words;
        Ok(())
    }

    #[verifier::loop_isolation(false)]
    fn collect_decl(&mut self, decl: &Decl) -> (r: CompilerResult<()>)
        requires
            old(self)@.words >= 0,
        ensures
            match riscv_text::decl_slots(old(self)@, decl.view(), 0) {
                Ok(s) => r is Ok && final(self)@ == s && s.words >= 0,
                Err(e) => r matches Err(x) && x@ == e,
            },
    {
        match decl {
            Decl::Const(defs) => {
                let mut k: usize = 0;
                while k < defs.len()
                    invariant
                        k <= defs.len(),
                        self@.words >= 0,
                        riscv_text::decl_slots(old(self)@, decl.view(), 0)
                            == riscv_text::decl_slots(self@, decl.view(), k as int),
                    decreases defs.len() - k,
                {
                    let def = &defs[k];
                    let is_list = matches!(def.init, Expr::InitList(_));
                    if def.dims.len() == 0 && !is_list {
                        let v = dim_value(&self.consts, &def.init);
                        self.consts.insert(def.name.clone(), v);
                    } else {
                        let words = words_of(&self.consts, &def.dims);
                        self.add_slot(&def.name, words)?;
                    }
                    k = k + 1;
                }
            },
            Decl::Var(defs) => {
                let mut k: usize = 0;
                while k < defs.len()
                    invariant
                        k <= defs.len(),
                        self@.words >= 0,
                        riscv_text::decl_slots(old(self)@, decl.view(), 0)
                            == riscv_text::decl_slots(self@, decl.view(), k as int),
                    decreases defs.len() - k,
                {
                    let def = &defs[k];
                    let words = words_of(&self.consts, &def.dims);
                    self.add_slot(&def.name, words)?;
                    k = k + 1;
                }
            },
        }
        Ok(())
    }

    fn collect_stmt_vars(&mut self, stmt: &Stmt) -> (r: CompilerResult<()>)
        requires
            old(self)@.words >= 0,
        ensures
            match riscv_text::stmt_slots(old(self)@, stmt.view()) {
                Ok(s) => r is Ok && final(self)@ == s && s.words >= 0,
                Err(e) => r matches Err(x) && x@ == e,
            },
        decreases stmt, 0int,
    {
        match stmt {
            Stmt::Block(block) => self.collect_vars(block),
            Stmt::If { then_branch, else_branch, .. } => {
                self.collect_stmt_vars(then_branch)?;
                match else_branch {
                    Some(els) => self.collect_stmt_vars(els),
                    None => Ok(()),
                }
            },
            Stmt::While { body, .. } => self.collect_stmt_vars(body),
            _ => Ok(()),
        }
    }

    #[verifier::loop_isolation(false)]
    fn collect_vars(&mut self, block: &Block) -> (r: CompilerResult<()>)
        requires
            old(self)@.words >= 0,
        ensures
            match riscv_text::block_slots(old(self)@, block.view(), 0) {
                Ok(s) => r is Ok && final(self)@ == s && s.words >= 0,
                Err(e) => r matches Err(x) && x@ == e,
            },
        decreases block, 0int,
    {
        let mut k: usize = 0;
        while k < block.items.len()
            invariant
                k <= block.items.len(),
                self@.words >= 0,
                riscv_text::block_slots(old(self)@, block.view(), 0) == riscv_text::block_slots(
                    self@,
                    block.view(),
                    k as int,
                ),
            decreases block.items.len() - k,
        {
            assert(block.view()[k as int] == block.items@[k as int].view());
            match &block.items[k] {
                BlockItem::Decl(d) => self.collect_decl(d)?,
                BlockItem::Stmt(s) => self.collect_stmt_vars(s)?,
            }
            k = k + 1;
        }
        Ok(())
    }

    #[verifier::loop_isolation(false)]
    fn collect_params(&mut self, params: &Vec<FuncParam>) -> (r: CompilerResult<()>)
        requires
            old(self)@.words >= 0,
        ensures
            match riscv_text::param_slots(old(self)@, ast::params(params@), 0) {
                Ok(s) => r is Ok && final(self)@ == s && s.words >= 0,
                Err(e) => r matches Err(x) && x@ == e,
            },
    {
        let mut k: usize = 0;
        while k < params.len()
            invariant
                k <= params.len(),
                self@.words >= 0,
                riscv_text::param_slots(old(self)@, ast::params(params@), 0)
                    == riscv_text::param_slots(self@, ast::params(params@), k as int),
            decreases params.len() - k,
        {
            self.add_slot(&params[k].name, 1)?;
            k = k + 1;
        }
        Ok(())
    }
}

// ── The generator ────────────────────────────────────────────────────────────

pub struct RiscvGen {
    scopes: Scopes<RvSymbol>,
    slots: Slots,
    met: NameMap<usize>,
    extra_sp: i32,
    label: usize,
    loop_stack: Vec<(String, String)>,
    data_section: String,
    out: String,
}

spec fn loops_view(v: Seq<(String, String)>) -> Seq<(Seq<char>, Seq<char>)> {
    v.map_values(|l: (String, String)| (l.0@, l.1@))
}

impl View for RiscvGen {
    type V = RvV;

    closed spec fn view(&self) -> RvV {
        RvV {
            scopes: self.scopes@,
            slots: self.slots@,
            met: self.met@,
            extra: self.extra_sp,
            label: self.label,
            loops: loops_view(self.loop_stack@),
            data: self.data_section@,
            out: self.out@,
        }
    }
}

impl RiscvGen {
    pub fn new() -> (r: Self)
        ensures
            r@ == riscv_text::start(),
    {
        let r = RiscvGen {
            scopes: Scopes::new(),
            slots: Slots::new(NameMap::new()),
            met: NameMap::new(),
            extra_sp: 0,
            label: 0,
            loop_stack: Vec::new(),
            data_section: String::new(),
            out: String::new(),
        };
        assert(r@ =~= riscv_text::start());
        r
    }

    /// Nothing is above the place of the stack pointer in the function.
    spec fn ready(self) -> bool {
        self@.extra >= 0
    }

    /// Scopes, loops and the stack pointer are those of an earlier state.
    spec fn kept(self, before: RiscvGen) -> bool {
        self@.scopes == before@.scopes && self@.loops == before@.loops && self@.extra
            == before@.extra
    }

    /// Loops, the stack pointer and the number of scopes are those of an earlier state.
    spec fn same_place(self, before: RiscvGen) -> bool {
        self@.loops == before@.loops && self@.extra == before@.extra && self@.scopes.inner.len()
            == before@.scopes.inner.len()
    }

    // ── Instructions ─────────────────────────────────────────────────────────

    /// Writes code.
    fn code(&mut self, s: &str)
        ensures
            final(self)@ == old(self)@.code(s@),
    {
        self.out.append(s);
    }

    fn emit(&mut self, s: &str)
        ensures
            final(self)@ == old(self)@.emit(s@),
    {
        self.out.append(cat3("  ", s, "\n").as_str());
    }

    fn emit_label(&mut self, label: &str)
        ensures
            final(self)@ == old(self)@.start(label@),
    {
        self.out.append(cat2(label, ":\n").as_str());
    }

    fn new_label(&mut self) -> (r: CompilerResult<String>)
        ensures
            match old(self)@.new_label() {
                Ok((g, t)) => r matches Ok(x) && x@ == t && final(self)@ == g,
                Err(e) => r matches Err(x) && x@ == e,
            },
    {
        if self.label == usize::MAX {
            return Err(too_large());
        }
        let l = cat2(".L", dec_usize(self.label).as_str());
        self.label = self.label + 1;
        Ok(l)
    }

    fn labels(&mut self) -> (r: CompilerResult<(String, String, String)>)
        ensures
            match old(self)@.labels() {
                Ok((g, t)) => r matches Ok(x) && (x.0@, x.1@, x.2@) == t && final(self)@ == g
                    && final(self).kept(*old(self)),
                Err(e) => r matches Err(x) && x@ == e,
            },
    {
        let a = self.new_label()?;
        let b = self.new_label()?;
        let c = self.new_label()?;
        Ok((a, b, c))
    }

    /// Pushes a register on the stack.
    fn emit_push(&mut self, reg: &str) -> (r: CompilerResult<()>)
        ensures
            match old(self)@.push(reg@) {
                Ok(g) => r is Ok && final(self)@ == g && g.extra == old(self)@.extra + 4,
                Err(e) => r matches Err(x) && x@ == e,
            },
    {
        match self.extra_sp.checked_add(4) {
            Some(n) => {
                self.extra_sp = n;
                self.emit("addi sp, sp, -4");
                self.emit(cat3("sw ", reg, ", 0(sp)").as_str());
                Ok(())
            },
            None => Err(too_large()),
        }
    }

    /// Pops a register from the stack.
    fn emit_pop(&mut self, reg: &str)
        requires
            old(self)@.extra >= i32::MIN + 4,
        ensures
            final(self)@ == old(self)@.pop(reg@),
            final(self)@.extra == old(self)@.extra - 4,
    {
        self.extra_sp = self.extra_sp - 4;
        self.emit(cat3("lw ", reg, ", 0(sp)").as_str());
        self.emit("addi sp, sp, 4");
    }

    /// The offset from the stack pointer as it is.
    fn at(&self, offset: i32) -> (r: CompilerResult<i32>)
        ensures
            match self@.at(offset) {
                Ok(v) => r == Ok::<i32, CompilerError>(v),
                Err(e) => r matches Err(x) && x@ == e,
            },
    {
        match offset.checked_add(self.extra_sp) {
            Some(v) => Ok(v),
            None => Err(too_large()),
        }
    }

    /// The offset of the next variable with a name.
    fn next_slot(&mut self, name: &String) -> (r: CompilerResult<i32>)
        ensures
            match riscv_text::next_slot(old(self)@, name@) {
                Ok((g, v)) => r == Ok::<i32, CompilerError>(v) && final(self)@ == g
                    && final(self).kept(*old(self)),
                Err(e) => r matches Err(x) && x@ == e,
            },
    {
        let n = count_of(&self.met, name.as_str());
        if n >= count_of(&self.slots.counts, name.as_str()) {
            return Err(too_large());
        }
        let offset = match self.slots.offsets.get(distinct(name.as_str(), n).as_str()) {
            Some(v) => *v,
            None => return Err(too_large()),
        };
        match offset.checked_add(4) {
            Some(v) => {
                self.met.insert(name.clone(), n + 1);
                Ok(v)
            },
            None => Err(too_large()),
        }
    }

    // ── Expressions ──────────────────────────────────────────────────────────

    /// Loads the word at an offset in the frame.
    fn load_word(&mut self, offset: i32) -> (r: CompilerResult<()>)
        ensures
            match riscv_text::word_at(old(self)@, offset) {
                Ok(g) => r is Ok && final(self)@ == g && final(self).kept(*old(self)),
                Err(e) => r matches Err(x) && x@ == e,
            },
    {
        let at = self.at(offset)?;
        self.code(emit_lw("a0", at).as_str());
        Ok(())
    }

    fn gen_name(&mut self, name: &str) -> (r: CompilerResult<()>)
        ensures
            match riscv_text::name_value(old(self)@, name@) {
                Ok(g) => r is Ok && final(self)@ == g && final(self).kept(*old(self)),
                Err(e) => r matches Err(x) && x@ == e,
            },
    {
        let sym = match self.scopes.lookup(name) {
            Some(s) => s.clone(),
            None => return Err(quote("undefined identifier '", name, "'")),
        };
        match sym {
            RvSymbol::Const(v) => {
                self.emit(cat2("li a0, ", dec_i32(v).as_str()).as_str());
            },
            RvSymbol::Var { offset } => self.load_word(offset)?,
            RvSymbol::Array { offset, .. } => {
                let at = self.at(offset)?;
                self.code(addi_large("a0", "sp", at).as_str());
            },
            RvSymbol::PtrArray { offset } => self.load_word(offset)?,
            RvSymbol::NdParam { offset, .. } => self.load_word(offset)?,
            RvSymbol::Global(label, dims, _) => {
                self.emit(cat2("la a0, ", label.as_str()).as_str());
                if dims.len() == 0 {
                    self.emit("lw a0, 0(a0)");
                }
            },
        }
        Ok(())
    }

    /// Pushes the base address of an array.
    fn push_base(&mut self, offset: i32) -> (r: CompilerResult<()>)
        ensures
            match riscv_text::push_base(old(self)@, offset) {
                Ok(g) => r is Ok && final(self)@ == g && g.extra == old(self)@.extra + 4,
                Err(e) => r matches Err(x) && x@ == e,
            },
    {
        let at = self.at(offset)?;
        self.code(emit_lw("t3", at).as_str());
        self.emit_push("t3")
    }

    /// Pops the base address, and adds it to the indices.
    fn pop_base(&mut self, words: bool, reg: &str)
        requires
            old(self)@.extra >= i32::MIN + 4,
        ensures
            final(self)@ == riscv_text::pop_base(old(self)@, words, reg@),
            final(self)@.extra == old(self)@.extra - 4,
    {
        if !words {
            self.emit("slli t2, t2, 2");
        }
        self.emit_pop(reg);
        self.emit(cat3("add t2, ", reg, ", t2").as_str());
    }

    /// The address of an element of an array in the frame.
    fn frame_address(&mut self, offset: i32) -> (r: CompilerResult<()>)
        ensures
            match riscv_text::frame_address(old(self)@, offset) {
                Ok(g) => r is Ok && final(self)@ == g && final(self).kept(*old(self)),
                Err(e) => r matches Err(x) && x@ == e,
            },
    {
        let at = self.at(offset)?;
        self.emit("slli t2, t2, 2");
        self.code(addi_large("t2", "t2", at).as_str());
        self.emit("add t2, sp, t2");
        Ok(())
    }

    fn element(&mut self, whole: bool)
        ensures
            final(self)@ == riscv_text::element(old(self)@, whole),
            final(self).kept(*old(self)),
    {
        if whole {
            self.emit("lw a0, 0(t2)");
        } else {
            self.emit("mv a0, t2");
        }
    }

    fn gen_expr(&mut self, expr: &Expr) -> (r: CompilerResult<()>)
        requires
            old(self).ready(),
        ensures
            match riscv_text::expr(old(self)@, expr.view()) {
                Ok(g) => r is Ok && final(self)@ == g && final(self).kept(*old(self)),
                Err(e) => r matches Err(x) && x@ == e,
            },
        decreases expr, 2int,
    {
        match expr {
            Expr::Int(n) => {
                self.emit(cat2("li a0, ", dec_i32(*n).as_str()).as_str());
                Ok(())
            },
            Expr::LVal(name) => self.gen_name(name.as_str()),
            Expr::Unary { op, expr: inner } => {
                self.gen_expr(inner)?;
                match op {
                    UnaryOp::Plus => {},
                    UnaryOp::Minus => self.emit("neg a0, a0"),
                    UnaryOp::Not => self.emit("seqz a0, a0"),
                }
                Ok(())
            },
            Expr::Binary { op, lhs, rhs } => match op {
                BinaryOp::And => {
                    self.gen_expr(lhs)?;
                    self.gen_decided("beqz a0, ", "li a0, 0", rhs)
                },
                BinaryOp::Or => {
                    self.gen_expr(lhs)?;
                    self.gen_decided("bnez a0, ", "li a0, 1", rhs)
                },
                _ => {
                    self.gen_expr(lhs)?;
                    self.emit_push("a0")?;
                    self.gen_expr(rhs)?;
                    self.emit_pop("t0");
                    self.code(op_code(*op));
                    Ok(())
                },
            },
            Expr::Call { name, args } => self.gen_call(name.as_str(), args),
            Expr::Index { .. } => self.gen_index_expr(expr),
            Expr::InitList(_) => Err(fail("initializer list not allowed in expression context")),
            Expr::Asm(code) => {
                self.emit(code.as_str());
                Ok(())
            },
        }
    }

    /// The right operand of a short-circuit operator, where the left one has not decided.
    fn gen_decided(&mut self, branch: &str, value: &str, rhs: &Expr) -> (r: CompilerResult<()>)
        requires
            old(self).ready(),
        ensures
            match riscv_text::decided(old(self)@, branch@, value@, rhs.view()) {
                Ok(g) => r is Ok && final(self)@ == g && final(self).kept(*old(self)),
                Err(e) => r matches Err(x) && x@ == e,
            },
        decreases rhs, 3int,
    {
        let decided_label = self.new_label()?;
        let end_label = self.new_label()?;
        self.emit(cat2(branch, decided_label.as_str()).as_str());
        self.gen_expr(rhs)?;
        self.emit("snez a0, a0");
        self.emit(cat2("j ", end_label.as_str()).as_str());
        self.emit_label(decided_label.as_str());
        self.emit(value);
        self.emit_label(end_label.as_str());
        Ok(())
    }

    /// Pushes the arguments of a call, from the last on.
    #[verifier::loop_isolation(false)]
    fn push_args(&mut self, args: &Vec<Expr>) -> (r: CompilerResult<()>)
        requires
            old(self).ready(),
        ensures
            match riscv_text::pushed(old(self)@, ast::exprs(args@), args@.len() as int) {
                Ok(g) => r is Ok && final(self)@ == g && g.scopes == old(self)@.scopes && g.loops
                    == old(self)@.loops && g.extra == old(self)@.extra + 4 * args@.len(),
                Err(e) => r matches Err(x) && x@ == e,
            },
        decreases args, 0int,
    {
        let ghost all = ast::exprs(args@);
        let mut k: usize = args.len();
        while k > 0
            invariant
                k <= args.len(),
                self@.scopes == old(self)@.scopes,
                self@.loops == old(self)@.loops,
                self@.extra == old(self)@.extra + 4 * (args@.len() - k),
                riscv_text::pushed(old(self)@, all, args@.len() as int) == riscv_text::pushed(
                    self@,
                    all,
                    k as int,
                ),
            decreases k,
        {
            assert(all[k - 1] == args@[k - 1].view());
            self.gen_expr(&args[k - 1])?;
            self.emit_push("a0")?;
            k = k - 1;
        }
        Ok(())
    }

    fn gen_call(&mut self, name: &str, args: &Vec<Expr>) -> (r: CompilerResult<()>)
        requires
            old(self).ready(),
        ensures
            match riscv_text::call(old(self)@, name@, ast::exprs(args@)) {
                Ok(g) => r is Ok && final(self)@ == g && final(self).kept(*old(self)),
                Err(e) => r matches Err(x) && x@ == e,
            },
        decreases args, 1int,
    {
        let before = self.extra_sp;
        self.push_args(args)?;
        let n = args.len();
        let in_regs: usize = if n < REG_ARGS {
            n
        } else {
            REG_ARGS
        };
        self.code(emit_popped(in_regs).as_str());
        self.emit(cat2("call ", name).as_str());
        self.code(sp_add(4 * (n - in_regs) as i32).as_str());
        self.extra_sp = before;
        Ok(())
    }

    /// The value of an indexed array.
    fn gen_index_expr(&mut self, expr: &Expr) -> (r: CompilerResult<()>)
        requires
            old(self).ready(),
            *expr is Index,
        ensures
            match riscv_text::index_value(old(self)@, expr.view()) {
                Ok(g) => r is Ok && final(self)@ == g && final(self).kept(*old(self)),
                Err(e) => r matches Err(x) && x@ == e,
            },
        decreases expr, 1int,
    {
        let name = match base_name(expr) {
            Some(n) => n.as_str(),
            None => return Err(fail("invalid array access")),
        };
        let sym = match self.scopes.lookup(name) {
            Some(s) => s.clone(),
            None => return Err(quote("'", name, "' is not an array")),
        };
        match sym {
            RvSymbol::Array { offset, dims, .. } => {
                self.gen_indices(expr, false, &dims, 1)?;
                self.frame_address(offset)?;
                self.element(count_indices(expr, dims.len()) >= dims.len());
                Ok(())
            },
            RvSymbol::PtrArray { offset } => {
                let dims: Vec<i32> = Vec::new();
                self.push_base(offset)?;
                self.gen_indices(expr, true, &dims, 0)?;
                self.pop_base(true, "t5");
                self.element(true);
                Ok(())
            },
            RvSymbol::NdParam { offset, dims } => {
                self.push_base(offset)?;
                self.gen_indices(expr, false, &dims, 0)?;
                self.pop_base(false, "t5");
                self.element(indices_exceed(expr, dims.len()));
                Ok(())
            },
            RvSymbol::Global(label, dims, _) => {
                if dims.len() == 0 {
                    return Err(quote("'", name, "' is not an array"));
                }
                self.emit(cat2("la t3, ", label.as_str()).as_str());
                self.emit_push("t3")?;
                self.gen_indices(expr, false, &dims, 1)?;
                self.pop_base(false, "t5");
                self.element(count_indices(expr, dims.len()) >= dims.len());
                Ok(())
            },
            _ => Err(quote("'", name, "' is not an array")),
        }
    }

    /// The indices of an expression, added up.
    fn gen_indices(&mut self, expr: &Expr, pointer: bool, dims: &Vec<i32>, from: usize) -> (r:
        CompilerResult<()>)
        requires
            old(self).ready(),
            from <= 1,
        ensures
            match riscv_text::indices(
                old(self)@,
                expr.view(),
                (ScaleV { pointer, dims: dims@, from: from as int }),
            ) {
                Ok(g) => r is Ok && final(self)@ == g && final(self).kept(*old(self)),
                Err(e) => r matches Err(x) && x@ == e,
            },
        decreases expr, 0int,
    {
        match expr {
            Expr::Index { array, index } => {
                proof {
                    ast_to_ir::index_count_nonneg(array.view());
                }
                self.gen_indices(array, pointer, dims, from)?;
                let first = count_indices(array, 1) == 0;
                if first {
                    self.gen_expr(index)?;
                } else {
                    self.emit_push("t2")?;
                    self.gen_expr(index)?;
                    self.emit_pop("t2");
                }
                self.code(index_code(pointer, rows_after(dims, array, from), first).as_str());
                Ok(())
            },
            _ => Ok(()),
        }
    }
}

/// Whether an expression ends in more than `n` indices.
fn indices_exceed(expr: &Expr, n: usize) -> (r: bool)
    ensures
        r == (translate::index_count(expr.view()) > n),
{
    match expr {
        Expr::Index { array, .. } => count_indices(array, n) >= n,
        _ => false,
    }
}

// ── Declarations ─────────────────────────────────────────────────────────────

/// The offset of an element of an array in the frame.
fn word_offset(offset: i32, i: usize) -> (r: CompilerResult<i32>)
    ensures
        match riscv_text::word_offset(offset, i as int) {
            Ok(v) => r == Ok::<i32, CompilerError>(v),
            Err(e) => r matches Err(x) && x@ == e,
        },
{
    if i > i32::MAX as usize {
        return Err(too_large());
    }
    let at: i64 = offset as i64 + 4 * (i as i64);
    if at > i32::MAX as i64 {
        return Err(too_large());
    }
    Ok(at as i32)
}

impl RiscvGen {
    /// Stores values in the frame.
    #[verifier::loop_isolation(false)]
    fn store_values(&mut self, offset: i32, vals: &Vec<i32>) -> (r: CompilerResult<()>)
        ensures
            match riscv_text::value_stores(old(self)@, offset, vals@, 0) {
                Ok(g) => r is Ok && final(self)@ == g && final(self).kept(*old(self)),
                Err(e) => r matches Err(x) && x@ == e,
            },
    {
        let mut i: usize = 0;
        while i < vals.len()
            invariant
                i <= vals.len(),
                self.kept(*old(self)),
                riscv_text::value_stores(old(self)@, offset, vals@, 0)
                    == riscv_text::value_stores(self@, offset, vals@, i as int),
            decreases vals.len() - i,
        {
            let at = word_offset(offset, i)?;
            self.emit(cat2("li t0, ", dec_i32(vals[i]).as_str()).as_str());
            self.code(emit_sw("t0", at).as_str());
            i = i + 1;
        }
        Ok(())
    }

    /// Stores computed values in the frame.
    #[verifier::loop_isolation(false)]
    fn store_computed(&mut self, offset: i32, items: &Vec<(usize, &Expr)>) -> (r: CompilerResult<
        (),
    >)
        requires
            old(self).ready(),
        ensures
            match riscv_text::computed_stores(old(self)@, offset, computed_view(items@), 0) {
                Ok(g) => r is Ok && final(self)@ == g && final(self).kept(*old(self)),
                Err(e) => r matches Err(x) && x@ == e,
            },
    {
        let ghost all = computed_view(items@);
        let mut k: usize = 0;
        while k < items.len()
            invariant
                k <= items.len(),
                self.kept(*old(self)),
                riscv_text::computed_stores(old(self)@, offset, all, 0)
                    == riscv_text::computed_stores(self@, offset, all, k as int),
            decreases items.len() - k,
        {
            let (pos, expr) = items[k];
            assert(all[k as int] == (pos, expr.view()));
            self.gen_expr(expr)?;
            let at = word_offset(offset, pos)?;
            self.code(emit_sw("a0", at).as_str());
            k = k + 1;
        }
        Ok(())
    }

    /// Initializes an array in the frame, and binds it to a name.
    fn new_array(
        &mut self,
        name: &String,
        offset: i32,
        dims: Vec<i32>,
        init: Option<&Expr>,
    ) -> (r: CompilerResult<()>)
        requires
            old(self).ready(),
            old(self)@.scopes.inner.len() > 0,
        ensures
            match riscv_text::new_array(
                old(self)@,
                name@,
                offset,
                dims@,
                match init {
                    Some(e) => Some(e.view()),
                    None => None,
                },
            ) {
                Ok(g) => r is Ok && final(self)@ == g && final(self).same_place(*old(self)),
                Err(e) => r matches Err(x) && x@ == e,
            },
    {
        let (vals, computed) = match init {
            Some(e) => init_values(&self.scopes, &dims, e)?,
            None => (Vec::new(), Vec::new()),
        };
        proof {
            if init is None {
                assert(computed_view(computed@) =~= Seq::empty());
            }
        }
        self.store_values(offset, &vals)?;
        self.store_computed(offset, &computed)?;
        self.scopes.bind(name.clone(), RvSymbol::Array { offset, dims, init_vals: vals });
        Ok(())
    }

    fn gen_const_def(&mut self, def: &ConstDef) -> (r: CompilerResult<()>)
        requires
            old(self).ready(),
            old(self)@.scopes.inner.len() > 0,
        ensures
            match riscv_text::const_def(old(self)@, def.view()) {
                Ok(g) => r is Ok && final(self)@ == g && final(self).same_place(*old(self)),
                Err(e) => r matches Err(x) && x@ == e,
            },
    {
        if self.scopes.declared(def.name.as_str()) {
            return Err(quote("redeclaration of '", def.name.as_str(), "'"));
        }
        let is_list = matches!(def.init, Expr::InitList(_));
        if def.dims.len() == 0 && !is_list {
            let v = eval_const(&self.scopes, &def.init)?;
            self.scopes.bind(def.name.clone(), RvSymbol::Const(v));
            return Ok(());
        }
        let offset = self.next_slot(&def.name)?;
        let dims = eval_dims(&self.scopes, &def.dims)?;
        self.new_array(&def.name, offset, dims, Some(&def.init))
    }

    fn gen_var_def(&mut self, def: &VarDef) -> (r: CompilerResult<()>)
        requires
            old(self).ready(),
            old(self)@.scopes.inner.len() > 0,
        ensures
            match riscv_text::var_def(old(self)@, def.view()) {
                Ok(g) => r is Ok && final(self)@ == g && final(self).same_place(*old(self)),
                Err(e) => r matches Err(x) && x@ == e,
            },
    {
        if self.scopes.declared(def.name.as_str()) {
            return Err(quote("redeclaration of '", def.name.as_str(), "'"));
        }
        let offset = self.next_slot(&def.name)?;
        if def.dims.len() == 0 {
            if let Some(init) = &def.init {
                self.gen_expr(init)?;
                self.code(emit_sw("a0", offset).as_str());
            }
            self.scopes.bind(def.name.clone(), RvSymbol::Var { offset });
            Ok(())
        } else {
            let dims = eval_dims(&self.scopes, &def.dims)?;
            match &def.init {
                Some(init) => self.new_array(&def.name, offset, dims, Some(init)),
                None => self.new_array(&def.name, offset, dims, None),
            }
        }
    }

    #[verifier::loop_isolation(false)]
    fn gen_decl(&mut self, decl: &Decl) -> (r: CompilerResult<()>)
        requires
            old(self).ready(),
            old(self)@.scopes.inner.len() > 0,
        ensures
            match riscv_text::decl(old(self)@, decl.view(), 0) {
                Ok(g) => r is Ok && final(self)@ == g && final(self).same_place(*old(self)),
                Err(e) => r matches Err(x) && x@ == e,
            },
    {
        match decl {
            Decl::Const(defs) => {
                let mut k: usize = 0;
                while k < defs.len()
                    invariant
                        k <= defs.len(),
                        self.same_place(*old(self)),
                        riscv_text::decl(old(self)@, decl.view(), 0) == riscv_text::decl(
                            self@,
                            decl.view(),
                            k as int,
                        ),
                    decreases defs.len() - k,
                {
                    self.gen_const_def(&defs[k])?;
                    k = k + 1;
                }
            },
            Decl::Var(defs) => {
                let mut k: usize = 0;
                while k < defs.len()
                    invariant
                        k <= defs.len(),
                        self.same_place(*old(self)),
                        riscv_text::decl(old(self)@, decl.view(), 0) == riscv_text::decl(
                            self@,
                            decl.view(),
                            k as int,
                        ),
                    decreases defs.len() - k,
                {
                    self.gen_var_def(&defs[k])?;
                    k = k + 1;
                }
            },
        }
        Ok(())
    }

    // ── Statements ───────────────────────────────────────────────────────────

    /// The indices of an assignment, added up.
    #[verifier::loop_isolation(false)]
    fn gen_targets(
        &mut self,
        index: &Vec<Expr>,
        pointer: bool,
        dims: &Vec<i32>,
        from: usize,
        save: bool,
    ) -> (r: CompilerResult<()>)
        requires
            old(self).ready(),
            from <= 1,
        ensures
            match riscv_text::targets(
                old(self)@,
                ast::exprs(index@),
                0,
                (ScaleV { pointer, dims: dims@, from: from as int }),
                save,
            ) {
                Ok(g) => r is Ok && final(self)@ == g && final(self).kept(*old(self)),
                Err(e) => r matches Err(x) && x@ == e,
            },
    {
        let ghost all = ast::exprs(index@);
        let ghost s = ScaleV { pointer, dims: dims@, from: from as int };
        let mut k: usize = 0;
        while k < index.len()
            invariant
                k <= index.len(),
                self.kept(*old(self)),
                riscv_text::targets(old(self)@, all, 0, s, save) == riscv_text::targets(
                    self@,
                    all,
                    k as int,
                    s,
                    save,
                ),
            decreases index.len() - k,
        {
            assert(all[k as int] == index@[k as int].view());
            if save && k > 0 {
                self.emit_push("t2")?;
                self.gen_expr(&index[k])?;
                self.emit_pop("t2");
            } else {
                self.gen_expr(&index[k])?;
            }
            self.code(index_code(pointer, rows(dims, k, from), k == 0).as_str());
            k = k + 1;
        }
        Ok(())
    }

    /// Assigns to an element behind a base address that has been pushed.
    fn assign_behind(
        &mut self,
        index: &Vec<Expr>,
        expr: &Expr,
        pointer: bool,
        dims: &Vec<i32>,
        from: usize,
    ) -> (r: CompilerResult<()>)
        requires
            old(self).ready(),
            old(self)@.extra >= 4,
            from <= 1,
        ensures
            match riscv_text::assign_behind(
                old(self)@,
                ast::exprs(index@),
                expr.view(),
                (ScaleV { pointer, dims: dims@, from: from as int }),
            ) {
                Ok(g) => r is Ok && final(self)@ == g && g.scopes == old(self)@.scopes && g.loops
                    == old(self)@.loops && g.extra == old(self)@.extra - 4,
                Err(e) => r matches Err(x) && x@ == e,
            },
    {
        self.gen_expr(expr)?;
        self.emit("mv t1, a0");
        self.gen_targets(index, pointer, dims, from, true)?;
        self.pop_base(pointer, "t4");
        self.emit("sw t1, 0(t2)");
        Ok(())
    }

    fn gen_array_assign(&mut self, name: &String, index: &Vec<Expr>, expr: &Expr) -> (r:
        CompilerResult<()>)
        requires
            old(self).ready(),
        ensures
            match riscv_text::array_assign(old(self)@, name@, ast::exprs(index@), expr.view()) {
                Ok(g) => r is Ok && final(self)@ == g && final(self).kept(*old(self)),
                Err(e) => r matches Err(x) && x@ == e,
            },
    {
        let sym = match self.scopes.lookup(name.as_str()) {
            Some(s) => s.clone(),
            None => return Err(quote("'", name.as_str(), "' is not an array")),
        };
        match sym {
            RvSymbol::Array { offset, dims, .. } => {
                self.gen_expr(expr)?;
                self.emit("mv t1, a0");
                self.gen_targets(index, false, &dims, 1, false)?;
                self.frame_address(offset)?;
                self.emit("sw t1, 0(t2)");
                Ok(())
            },
            RvSymbol::PtrArray { offset } => {
                let dims: Vec<i32> = Vec::new();
                self.push_base(offset)?;
                self.assign_behind(index, expr, true, &dims, 0)
            },
            RvSymbol::NdParam { offset, dims } => {
                self.push_base(offset)?;
                self.assign_behind(index, expr, false, &dims, 0)
            },
            RvSymbol::Global(label, dims, _) => {
                if dims.len() == 0 {
                    return Err(quote("'", name.as_str(), "' is not an array"));
                }
                self.emit(cat2("la t3, ", label.as_str()).as_str());
                self.emit_push("t3")?;
                self.assign_behind(index, expr, false, &dims, 1)
            },
            _ => Err(quote("'", name.as_str(), "' is not an array")),
        }
    }

    fn gen_assign(&mut self, name: &String, index: &Vec<Expr>, expr: &Expr) -> (r: CompilerResult<
        (),
    >)
        requires
            old(self).ready(),
        ensures
            match riscv_text::assign(old(self)@, name@, ast::exprs(index@), expr.view()) {
                Ok(g) => r is Ok && final(self)@ == g && final(self).kept(*old(self)),
                Err(e) => r matches Err(x) && x@ == e,
            },
    {
        if index.len() > 0 {
            return self.gen_array_assign(name, index, expr);
        }
        let sym = match self.scopes.lookup(name.as_str()) {
            Some(s) => s.clone(),
            None => return Err(quote("undefined variable '", name.as_str(), "'")),
        };
        match sym {
            RvSymbol::Var { offset } => {
                self.gen_expr(expr)?;
                self.code(emit_sw("a0", offset).as_str());
                Ok(())
            },
            RvSymbol::Global(label, _, _) => {
                self.gen_expr(expr)?;
                self.emit("mv t0, a0");
                self.emit(cat2("la t1, ", label.as_str()).as_str());
                self.emit("sw t0, 0(t1)");
                Ok(())
            },
            RvSymbol::Const(_) => Err(quote("cannot assign to constant '", name.as_str(), "'")),
            _ => Err(quote("cannot assign to array '", name.as_str(), "' without index")),
        }
    }

    fn gen_stmt(&mut self, stmt: &Stmt, frame: i32) -> (r: CompilerResult<()>)
        requires
            old(self).ready(),
            old(self)@.scopes.inner.len() > 0,
            frame >= 4,
        ensures
            match riscv_text::stmt(old(self)@, stmt.view(), frame) {
                Ok(g) => r is Ok && final(self)@ == g && final(self).same_place(*old(self)),
                Err(e) => r matches Err(x) && x@ == e,
            },
        decreases stmt, 1int,
    {
        match stmt {
            Stmt::Return(None) => {
                self.code(leave(frame).as_str());
                Ok(())
            },
            Stmt::Return(Some(e)) => {
                self.gen_expr(e)?;
                self.code(leave(frame).as_str());
                Ok(())
            },
            Stmt::Assign { name, index, expr } => self.gen_assign(name, index, expr),
            Stmt::Expr(expr) => self.gen_expr(expr),
            Stmt::Block(block) => {
                self.scopes.enter();
                self.gen_block(block, frame)?;
                self.scopes.exit();
                Ok(())
            },
            Stmt::If { .. } => self.gen_if(stmt, frame),
            Stmt::While { .. } => self.gen_while(stmt, frame),
            Stmt::Break => {
                let n = self.loop_stack.len();
                if n == 0 {
                    return Err(fail("'break' outside of loop"));
                }
                let code = cat2("j ", self.loop_stack[n - 1].1.as_str());
                self.emit(code.as_str());
                Ok(())
            },
            Stmt::Continue => {
                let n = self.loop_stack.len();
                if n == 0 {
                    return Err(fail("'continue' outside of loop"));
                }
                let code = cat2("j ", self.loop_stack[n - 1].0.as_str());
                self.emit(code.as_str());
                Ok(())
            },
            Stmt::Empty => Ok(()),
            Stmt::Asm(code) => {
                self.emit(code.as_str());
                Ok(())
            },
        }
    }

    fn gen_if(&mut self, stmt: &Stmt, frame: i32) -> (r: CompilerResult<()>)
        requires
            old(self).ready(),
            old(self)@.scopes.inner.len() > 0,
            frame >= 4,
            *stmt is If,
        ensures
            match riscv_text::stmt(old(self)@, stmt.view(), frame) {
                Ok(g) => r is Ok && final(self)@ == g && final(self).same_place(*old(self)),
                Err(e) => r matches Err(x) && x@ == e,
            },
        decreases stmt, 0int,
    {
        if let Stmt::If { cond, then_branch, else_branch } = stmt {
            self.gen_expr(cond)?;
            let (then_label, else_label, end_label) = self.labels()?;
            let to_end = cat2("j ", end_label.as_str());
            let target = if else_branch.is_some() {
                else_label.as_str()
            } else {
                end_label.as_str()
            };
            self.emit(cat2("beqz a0, ", target).as_str());
            self.emit_label(then_label.as_str());
            self.gen_stmt(then_branch, frame)?;
            self.emit(to_end.as_str());
            if let Some(els) = else_branch {
                self.emit_label(else_label.as_str());
                self.gen_stmt(els, frame)?;
                self.emit(to_end.as_str());
            }
            self.emit_label(end_label.as_str());
        }
        Ok(())
    }

    fn gen_while(&mut self, stmt: &Stmt, frame: i32) -> (r: CompilerResult<()>)
        requires
            old(self).ready(),
            old(self)@.scopes.inner.len() > 0,
            frame >= 4,
            *stmt is While,
        ensures
            match riscv_text::stmt(old(self)@, stmt.view(), frame) {
                Ok(g) => r is Ok && final(self)@ == g && final(self).same_place(*old(self)),
                Err(e) => r matches Err(x) && x@ == e,
            },
        decreases stmt, 0int,
    {
        if let Stmt::While { cond, body } = stmt {
            let (entry_label, body_label, end_label) = self.labels()?;
            let to_entry = cat2("j ", entry_label.as_str());
            self.emit(to_entry.as_str());
            self.emit_label(entry_label.as_str());
            self.gen_expr(cond)?;
            self.emit(cat2("beqz a0, ", end_label.as_str()).as_str());
            let ghost outside = self@.loops;
            self.loop_stack.push((entry_label.clone(), end_label.clone()));
            assert(self@.loops =~= outside.push((entry_label@, end_label@)));
            self.emit_label(body_label.as_str());
            self.gen_stmt(body, frame)?;
            self.emit(to_entry.as_str());
            let ghost inside = self@.loops;
            self.loop_stack.pop();
            assert(self@.loops =~= inside.drop_last());
            assert(self@.loops =~= outside);
            self.emit_label(end_label.as_str());
        }
        Ok(())
    }

    #[verifier::loop_isolation(false)]
    fn gen_block(&mut self, block: &Block, frame: i32) -> (r: CompilerResult<()>)
        requires
            old(self).ready(),
            old(self)@.scopes.inner.len() > 0,
            frame >= 4,
        ensures
            match riscv_text::block(old(self)@, block.view(), 0, frame) {
                Ok(g) => r is Ok && final(self)@ == g && final(self).same_place(*old(self)),
                Err(e) => r matches Err(x) && x@ == e,
            },
        decreases block, 0int,
    {
        let mut k: usize = 0;
        while k < block.items.len()
            invariant
                k <= block.items.len(),
                self.same_place(*old(self)),
                riscv_text::block(old(self)@, block.view(), 0, frame) == riscv_text::block(
                    self@,
                    block.view(),
                    k as int,
                    frame,
                ),
            decreases block.items.len() - k,
        {
            assert(block.view()[k as int] == block.items@[k as int].view());
            match &block.items[k] {
                BlockItem::Stmt(s) => self.gen_stmt(s, frame)?,
                BlockItem::Decl(d) => self.gen_decl(d)?,
            }
            k = k + 1;
        }
        Ok(())
    }
}

// ── Functions and programs ───────────────────────────────────────────────────

fn param_symbol(consts: &NameMap<i32>, param: &FuncParam, offset: i32) -> (r: RvSymbol)
    ensures
        r@ == riscv_text::param_symbol(consts@, param.view(), offset),
{
    if param.is_array {
        if param.array_dims.len() == 0 {
            RvSymbol::PtrArray { offset }
        } else {
            RvSymbol::NdParam { offset, dims: dim_values(consts, &param.array_dims) }
        }
    } else {
        RvSymbol::Var { offset }
    }
}

/// The words of a global variable.
#[verifier::loop_isolation(false)]
fn words_text(vals: &Vec<i32>) -> (r: String)
    ensures
        r@ == riscv_text::words_text(vals@, vals@.len() as int),
{
    let mut out = String::new();
    let mut i: usize = 0;
    while i < vals.len()
        invariant
            i <= vals.len(),
            out@ == riscv_text::words_text(vals@, i as int),
        decreases vals.len() - i,
    {
        out.append(cat3("  .word ", dec_i32(vals[i]).as_str(), "\n").as_str());
        i = i + 1;
    }
    out
}

fn zeros_text(words: usize) -> (r: String)
    requires
        4 * words <= usize::MAX,
    ensures
        r@ == "  .zero "@ + crate::text::dec_int(4 * words) + "\n"@,
{
    cat3("  .zero ", dec_usize(4 * words).as_str(), "\n")
}

proof fn product_fails(dims: Seq<i32>, k: int)
    requires
        0 <= k <= dims.len(),
        riscv_text::product(dims.take(k)) is None,
    ensures
        riscv_text::product(dims) is None,
    decreases dims.len() - k,
{
    if k == dims.len() {
        assert(dims.take(k) =~= dims);
    } else {
        assert(dims.take(k + 1).drop_last() =~= dims.take(k));
        product_fails(dims, k + 1);
    }
}

/// The product of dimensions, where neither it nor a product on the way leaves 32 bits.
fn product(dims: &Vec<i32>) -> (r: Option<i32>)
    ensures
        r == riscv_text::product(dims@),
{
    let mut p: i32 = 1;
    let mut k: usize = 0;
    while k < dims.len()
        invariant
            k <= dims.len(),
            riscv_text::product(dims@.take(k as int)) == Some(p),
        decreases dims.len() - k,
    {
        assert(dims@.take(k + 1).drop_last() =~= dims@.take(k as int));
        match p.checked_mul(dims[k]) {
            Some(next) => {
                p = next;
            },
            None => {
                proof {
                    product_fails(dims@, k + 1);
                }
                return None;
            },
        }
        k = k + 1;
    }
    assert(dims@.take(k as int) =~= dims@);
    Some(p)
}

/// What stands in the data section for a global array, and the values that it starts with.
fn array_data(scopes: &Scopes<RvSymbol>, dims: &Vec<i32>, init: Option<&Expr>) -> (r: CompilerResult<
    (String, Vec<i32>),
>)
    ensures
        match riscv_text::array_data(
            scopes@,
            dims@,
            match init {
                Some(e) => Some(e.view()),
                None => None,
            },
        ) {
            Ok((data, vals)) => r matches Ok(x) && x.0@ == data && x.1@ == vals,
            Err(e) => r matches Err(x) && x@ == e,
        },
{
    match (total(dims.as_slice()), init) {
        (Some(count), Some(e)) => {
            if count.checked_mul(4).is_none() {
                return Err(bad_dims());
            }
            let (vals, _) = init_values(scopes, dims, e)?;
            let words = words_text(&vals);
            let zeros = if count > vals.len() {
                zeros_text(count - vals.len())
            } else {
                String::new()
            };
            Ok((cat2(words.as_str(), zeros.as_str()), vals))
        },
        (None, Some(_)) => Err(bad_dims()),
        (Some(count), None) => {
            if count.checked_mul(4).is_none() {
                return Err(bad_dims());
            }
            Ok((zeros_text(count), Vec::new()))
        },
        (None, None) => match product(dims) {
            None => Err(bad_dims()),
            Some(p) => match p.checked_mul(4) {
                None => Err(bad_dims()),
                Some(size) => Ok((cat3("  .zero ", dec_i32(size).as_str(), "\n"), Vec::new())),
            },
        },
    }
}

impl RiscvGen {
    #[verifier::loop_isolation(false)]
    fn gen_params(&mut self, consts: &NameMap<i32>, params: &Vec<FuncParam>, frame: i32) -> (r:
        CompilerResult<()>)
        requires
            old(self).ready(),
            old(self)@.scopes.inner.len() > 0,
        ensures
            match riscv_text::params(old(self)@, consts@, ast::params(params@), 0, frame) {
                Ok(g) => r is Ok && final(self)@ == g && final(self).same_place(*old(self)),
                Err(e) => r matches Err(x) && x@ == e,
            },
    {
        let mut k: usize = 0;
        while k < params.len()
            invariant
                k <= params.len(),
                self.same_place(*old(self)),
                riscv_text::params(old(self)@, consts@, ast::params(params@), 0, frame)
                    == riscv_text::params(
                    self@,
                    consts@,
                    ast::params(params@),
                    k as int,
                    frame,
                ),
            decreases params.len() - k,
        {
            let param = &params[k];
            let offset = self.next_slot(&param.name)?;
            if k < REG_ARGS {
                self.code(emit_sw(emit_arg_reg(k).as_str(), offset).as_str());
            } else {
                let at = word_offset(frame, k - REG_ARGS)?;
                self.code(emit_lw("t0", at).as_str());
                self.code(emit_sw("t0", offset).as_str());
            }
            self.scopes.bind(param.name.clone(), param_symbol(consts, param, offset));
            k = k + 1;
        }
        Ok(())
    }

    fn enter_func(&mut self, func: &FuncDef, slots: Slots, size: i32)
        requires
            size >= 4,
        ensures
            final(self)@ == riscv_text::enter(old(self)@, func.view(), slots@, size),
    {
        self.scopes.restart();
        self.slots = slots;
        self.met = NameMap::new();
        self.loop_stack = Vec::new();
        let name = func.name.as_str();
        self.out = cat4(
            cat3("  .globl ", name, "\n").as_str(),
            cat2(name, ":\n").as_str(),
            sp_add(-size).as_str(),
            emit_sw("ra", size - 4).as_str(),
        );
        assert(self@.loops =~= Seq::empty());
    }

    fn gen_func(&mut self, consts: &NameMap<i32>, func: &FuncDef) -> (r: CompilerResult<()>)
        requires
            old(self).ready(),
        ensures
            match riscv_text::func(old(self)@, consts@, func.view()) {
                Ok(g) => r is Ok && final(self)@ == g && g.extra == old(self)@.extra,
                Err(e) => r matches Err(x) && x@ == e,
            },
    {
        let mut slots = Slots::new(consts.copy());
        slots.collect_params(&func.params)?;
        slots.collect_vars(&func.body)?;
        let size: i64 = round_up(round_up(4 * slots.words as i64) + 4);
        if size > i32::MAX as i64 {
            return Err(too_large());
        }
        let frame = size as i32;
        self.enter_func(func, slots, frame);
        self.gen_params(consts, &func.params, frame)?;
        self.gen_block(&func.body, frame)?;
        if matches!(func.ret_type, Type::Void) {
            self.code(leave(frame).as_str());
        }
        Ok(())
    }

    /// Writes a global array, and binds it to a name.
    fn gen_global_array(&mut self, name: &String, dims: Vec<i32>, init: Option<&Expr>) -> (r:
        CompilerResult<()>)
        ensures
            match riscv_text::global_array(
                old(self)@,
                name@,
                dims@,
                match init {
                    Some(e) => Some(e.view()),
                    None => None,
                },
            ) {
                Ok(g) => r is Ok && final(self)@ == g && g.extra == old(self)@.extra,
                Err(e) => r matches Err(x) && x@ == e,
            },
    {
        let (data, vals) = array_data(&self.scopes, &dims, init)?;
        let text = cat3(
            self.data_section.as_str(),
            cat2(name.as_str(), ":\n").as_str(),
            data.as_str(),
        );
        self.data_section = text;
        self.scopes.bind_global(name.clone(), RvSymbol::Global(name.clone(), dims, vals));
        Ok(())
    }

    fn gen_global_const(&mut self, consts: &mut NameMap<i32>, def: &ConstDef) -> (r: CompilerResult<
        (),
    >)
        ensures
            match riscv_text::global_const(old(self)@, old(consts)@, def.view()) {
                Ok((g, c)) => r is Ok && final(self)@ == g && final(consts)@ == c && g.extra
                    == old(self)@.extra,
                Err(e) => r matches Err(x) && x@ == e,
            },
    {
        let is_list = matches!(def.init, Expr::InitList(_));
        if def.dims.len() == 0 && !is_list {
            let v = dim_value(consts, &def.init);
            consts.insert(def.name.clone(), v);
            self.scopes.bind_global(def.name.clone(), RvSymbol::Const(v));
            return Ok(());
        }
        let dims = dim_values(consts, &def.dims);
        self.gen_global_array(&def.name, dims, Some(&def.init))
    }

    fn gen_global_var(&mut self, consts: &NameMap<i32>, def: &VarDef) -> (r: CompilerResult<()>)
        ensures
            match riscv_text::global_var(old(self)@, consts@, def.view()) {
                Ok((g, c)) => r is Ok && final(self)@ == g && consts@ == c && g.extra
                    == old(self)@.extra,
                Err(e) => r matches Err(x) && x@ == e,
            },
    {
        if def.dims.len() == 0 {
            let v = match &def.init {
                Some(e) => dim_value(consts, e),
                None => 0,
            };
            let label = def.name.as_str();
            self.data_section.append(
                cat4(label, ":\n  .word ", dec_i32(v).as_str(), "\n").as_str(),
            );
            let none: Vec<i32> = Vec::new();
            let nothing: Vec<i32> = Vec::new();
            assert(none@ =~= Seq::empty() && nothing@ =~= Seq::empty());
            self.scopes.bind_global(
                def.name.clone(),
                RvSymbol::Global(def.name.clone(), none, nothing),
            );
            return Ok(());
        }
        let dims = dim_values(consts, &def.dims);
        match &def.init {
            Some(init) => self.gen_global_array(&def.name, dims, Some(init)),
            None => self.gen_global_array(&def.name, dims, None),
        }
    }

    #[verifier::loop_isolation(false)]
    fn gen_global_decl(&mut self, consts: &mut NameMap<i32>, decl: &Decl) -> (r: CompilerResult<()>)
        ensures
            match riscv_text::global_decl(old(self)@, old(consts)@, decl.view(), 0) {
                Ok((g, c)) => r is Ok && final(self)@ == g && final(consts)@ == c && g.extra
                    == old(self)@.extra,
                Err(e) => r matches Err(x) && x@ == e,
            },
    {
        match decl {
            Decl::Const(defs) => {
                let mut k: usize = 0;
                while k < defs.len()
                    invariant
                        k <= defs.len(),
                        self@.extra == old(self)@.extra,
                        riscv_text::global_decl(old(self)@, old(consts)@, decl.view(), 0)
                            == riscv_text::global_decl(self@, consts@, decl.view(), k as int),
                    decreases defs.len() - k,
                {
                    self.gen_global_const(consts, &defs[k])?;
                    k = k + 1;
                }
            },
            Decl::Var(defs) => {
                let mut k: usize = 0;
                while k < defs.len()
                    invariant
                        k <= defs.len(),
                        self@.extra == old(self)@.extra,
                        riscv_text::global_decl(old(self)@, old(consts)@, decl.view(), 0)
                            == riscv_text::global_decl(self@, consts@, decl.view(), k as int),
                    decreases defs.len() - k,
                {
                    self.gen_global_var(consts, &defs[k])?;
                    k = k + 1;
                }
            },
        }
        Ok(())
    }

    /// Writes the global variables of a program.
    #[verifier::loop_isolation(false)]
    fn gen_globals(&mut self, consts: &mut NameMap<i32>, program: &CompUnit) -> (r: CompilerResult<
        (),
    >)
        ensures
            match riscv_text::globals(old(self)@, old(consts)@, program.view(), 0) {
                Ok((g, c)) => r is Ok && final(self)@ == g && final(consts)@ == c && g.extra
                    == old(self)@.extra,
                Err(e) => r matches Err(x) && x@ == e,
            },
    {
        let mut k: usize = 0;
        while k < program.items.len()
            invariant
                k <= program.items.len(),
                self@.extra == old(self)@.extra,
                riscv_text::globals(old(self)@, old(consts)@, program.view(), 0)
                    == riscv_text::globals(self@, consts@, program.view(), k as int),
            decreases program.items.len() - k,
        {
            if let GlobalItem::Decl(d) = &program.items[k] {
                self.gen_global_decl(consts, d)?;
            }
            k = k + 1;
        }
        Ok(())
    }

    /// Writes a program as RISC-V assembly.
    #[verifier::loop_isolation(false)]
    pub fn gen_program(self, program: &CompUnit) -> (r: CompilerResult<String>)
        requires
            self@ == riscv_text::start(),
        ensures
            match riscv_text::program(program.view()) {
                Ok(s) => r matches Ok(x) && x@ == s,
                Err(e) => r matches Err(x) && x@ == e,
            },
    {
        let mut gen = self;
        let mut consts: NameMap<i32> = NameMap::new();
        gen.gen_globals(&mut consts, program)?;
        let ghost start = gen@;
        let data = if gen.data_section.as_str().unicode_len() == 0 {
            String::new()
        } else {
            cat2("  .data\n", gen.data_section.as_str())
        };
        let mut out = cat2(data.as_str(), "  .text\n");
        let ghost head = out@;
        let mut k: usize = 0;
        while k < program.items.len()
            invariant
                k <= program.items.len(),
                gen.ready(),
                riscv_text::functions(start, consts@, program.view(), 0, head)
                    == riscv_text::functions(gen@, consts@, program.view(), k as int, out@),
            decreases program.items.len() - k,
        {
            if let GlobalItem::FuncDef(f) = &program.items[k] {
                gen.gen_func(&consts, f)?;
                out.append(gen.out.as_str());
            }
            k = k + 1;
        }
        Ok(out)
    }
}

} // verus!

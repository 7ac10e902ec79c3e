//! What each construct of the language is written as in RISC-V assembly, straight from the syntax
//! tree.
//!
//! The value of an expression is left in `a0`. A step takes the state of the generator and gives
//! the state after it, or the error that the generation ends in.

use crate::ast::{
    BinaryOp, BlockItemV, ConstDefV, DeclV, ExprV, FuncDefV, FuncParamV, GlobalItemV, StmtV, Type,
    UnaryOp, VarDefV,
};
use crate::error::{self, ErrorView};
use crate::eval;
use crate::frame::{self, REG_ARGS};
use crate::ir_to_riscv;
use crate::scopes::{self, ScopesV};
use crate::text;
use crate::translate;
use vstd::prelude::*;

verus! {

/// What a name stands for.
#[verifier::ext_equal]
pub enum RvSymV {
    Const(i32),
    /// A variable, by its offset from the stack pointer.
    Var(i32),
    /// An array: its offset, its dimensions, and the values it starts with.
    Array { offset: i32, dims: Seq<i32>, vals: Seq<i32> },
    /// A parameter that points to integers.
    PtrArray(i32),
    /// A parameter that points to arrays of the given dimensions.
    NdParam { offset: i32, dims: Seq<i32> },
    /// A global variable: its label, its dimensions, and the values it starts with.
    Global(Seq<char>, Seq<i32>, Seq<i32>),
}

/// Where the variables of a function are.
#[verifier::ext_equal]
pub struct SlotsV {
    /// How many variables have a name.
    pub counts: Map<Seq<char>, usize>,
    /// The offsets of variables, by their distinct names.
    pub offsets: Map<Seq<char>, i32>,
    /// The constants that array dimensions may be made of.
    pub consts: Map<Seq<char>, i32>,
    /// The number of words.
    pub words: i32,
}

/// The state of the generator.
#[verifier::ext_equal]
pub struct RvV {
    pub scopes: ScopesV<RvSymV>,
    pub slots: SlotsV,
    /// How many variables with a name have been met.
    pub met: Map<Seq<char>, usize>,
    /// How far the stack pointer is below its place in the function.
    pub extra: i32,
    pub label: usize,
    /// For each enclosing loop, the label it starts at and the label after it.
    pub loops: Seq<(Seq<char>, Seq<char>)>,
    pub data: Seq<char>,
    /// The code of the current function.
    pub out: Seq<char>,
}

/// The state after a step, or an error.
pub type Step = Result<RvV, ErrorView>;

impl RvV {
    /// The state after some code.
    pub open spec fn code(self, s: Seq<char>) -> RvV {
        RvV { out: self.out + s, ..self }
    }

    /// The state after an instruction.
    pub open spec fn emit(self, s: Seq<char>) -> RvV {
        self.code("  "@ + s + "\n"@)
    }

    /// The state after a label.
    pub open spec fn start(self, label: Seq<char>) -> RvV {
        self.code(label + ":\n"@)
    }

    /// A new label.
    pub open spec fn new_label(self) -> Result<(RvV, Seq<char>), ErrorView> {
        if self.label < usize::MAX {
            Ok(
                (
                    RvV { label: (self.label + 1) as usize, ..self },
                    ".L"@ + text::dec_nat(self.label as nat),
                ),
            )
        } else {
            Err(translate::too_large())
        }
    }

    /// Three new labels.
    pub open spec fn labels(self) -> Result<(RvV, (Seq<char>, Seq<char>, Seq<char>)), ErrorView> {
        match self.new_label() {
            Err(e) => Err(e),
            Ok((g1, a)) => match g1.new_label() {
                Err(e) => Err(e),
                Ok((g2, b)) => match g2.new_label() {
                    Err(e) => Err(e),
                    Ok((g3, c)) => Ok((g3, (a, b, c))),
                },
            },
        }
    }

    /// A register pushed on the stack.
    pub open spec fn push(self, reg: Seq<char>) -> Step {
        if self.extra + 4 <= i32::MAX {
            Ok(
                RvV { extra: (self.extra + 4) as i32, ..self }.emit("addi sp, sp, -4"@).emit(
                    "sw "@ + reg + ", 0(sp)"@,
                ),
            )
        } else {
            Err(translate::too_large())
        }
    }

    /// A register popped from the stack.
    pub open spec fn pop(self, reg: Seq<char>) -> RvV {
        RvV { extra: (self.extra - 4) as i32, ..self }.emit("lw "@ + reg + ", 0(sp)"@).emit(
            "addi sp, sp, 4"@,
        )
    }

    /// The offset from the stack pointer as it is of what is at an offset in the frame.
    pub open spec fn at(self, offset: i32) -> Result<i32, ErrorView> {
        if i32::MIN <= offset + self.extra <= i32::MAX {
            Ok((offset + self.extra) as i32)
        } else {
            Err(translate::too_large())
        }
    }

    /// The state after a name has been bound in the innermost scope.
    pub open spec fn bind(self, name: Seq<char>, sym: RvSymV) -> RvV {
        RvV { scopes: self.scopes.bind(name, sym), ..self }
    }
}

// ── Instructions with long operands ──────────────────────────────────────────

/// Moves the stack pointer.
pub open spec fn sp_add(delta: int) -> Seq<char> {
    if 0 < delta < 2048 {
        "  addi sp, sp, "@ + text::dec_int(delta) + "\n"@
    } else if delta >= 2048 {
        "  li t0, "@ + text::dec_int(delta) + "\n  add sp, sp, t0\n"@
    } else if -2048 < delta < 0 {
        "  addi sp, sp, -"@ + text::dec_int(-delta) + "\n"@
    } else if delta <= -2048 {
        "  li t0, "@ + text::dec_int(-delta) + "\n  sub sp, sp, t0\n"@
    } else {
        Seq::empty()
    }
}

/// Adds a constant to a register.
pub open spec fn addi_large(rd: Seq<char>, rs: Seq<char>, imm: i32) -> Seq<char> {
    if ir_to_riscv::is_short(imm as int) {
        "  addi "@ + rd + ", "@ + rs + ", "@ + text::dec_int(imm as int) + "\n"@
    } else {
        ("  li t0, "@ + text::dec_int(imm as int) + "\n"@) + ("  add "@ + rd + ", "@ + rs
            + ", t0\n"@)
    }
}

/// Returns from the function.
pub open spec fn leave(size: i32) -> Seq<char> {
    ir_to_riscv::lw("ra"@, (size - 4) as i32) + sp_add(size as int) + "  ret\n"@
}

// ── Constants ────────────────────────────────────────────────────────────────

/// The value that a dimension is taken to have; 1 where it is not known.
pub open spec fn dim_value(consts: Map<Seq<char>, i32>, e: ExprV) -> i32
    decreases e,
{
    match e {
        ExprV::Int(n) => n,
        ExprV::LVal(name) => if consts.contains_key(name) {
            consts[name]
        } else {
            1
        },
        ExprV::Unary { op, expr } => eval::unary_value(op, dim_value(consts, *expr)),
        ExprV::Binary { op, lhs, rhs } => if op is Mul || op is Div || op is Rem || op is Add
            || op is Sub {
            match eval::binary_value(op, dim_value(consts, *lhs), dim_value(consts, *rhs)) {
                Some(v) => v,
                None => 1,
            }
        } else {
            1
        },
        _ => 1,
    }
}

/// The values that some dimensions are taken to have.
pub open spec fn dim_values(consts: Map<Seq<char>, i32>, es: Seq<ExprV>) -> Seq<i32> {
    es.map_values(|e: ExprV| dim_value(consts, e))
}

/// The product of the dimensions from the `k`th on, in 32-bit arithmetic.
pub open spec fn stride(dims: Seq<i32>, k: int) -> i32
    decreases dims.len() - k,
{
    if k < 0 || k >= dims.len() {
        1
    } else {
        dims[k].wrapping_mul(stride(dims, k + 1))
    }
}

/// The name under the indices of an expression.
pub open spec fn base_name(e: ExprV) -> Option<Seq<char>>
    decreases e,
{
    match e {
        ExprV::Index { array, .. } => base_name(*array),
        ExprV::LVal(name) => Some(name),
        _ => None,
    }
}

/// The dimensions and the values of an array, by the name under the indices of an expression.
pub open spec fn const_array(v: ScopesV<RvSymV>, e: ExprV) -> Result<
    (Seq<i32>, Seq<i32>),
    ErrorView,
> {
    match base_name(e) {
        None => Err(error::err_new("array base is not a variable"@)),
        Some(name) => match v.lookup(name) {
            Some(RvSymV::Array { dims, vals, .. }) => Ok((dims, vals)),
            Some(RvSymV::Global(_, dims, vals)) => Ok((dims, vals)),
            _ => Err(translate::quoted("'"@, name, "' is not a const array"@)),
        },
    }
}

/// The element of an array at a position.
pub open spec fn element_at(vals: Seq<i32>, at: i32) -> Result<i32, ErrorView> {
    if 0 <= at < vals.len() {
        Ok(vals[at as int])
    } else {
        Err(
            error::err_new(
                "const array index out of bounds: index "@ + text::dec_int(at as int) + ", len "@
                    + text::dec_nat(vals.len()),
            ),
        )
    }
}

/// The value of a constant expression.
pub open spec fn const_value(v: ScopesV<RvSymV>, e: ExprV) -> Result<i32, ErrorView>
    decreases e, 1int,
{
    match e {
        ExprV::Int(n) => Ok(n),
        ExprV::LVal(name) => match v.lookup(name) {
            Some(RvSymV::Const(n)) => Ok(n),
            _ => Err(translate::quoted("'"@, name, "' is not a compile-time constant"@)),
        },
        ExprV::Unary { op, expr } => match const_value(v, *expr) {
            Err(e) => Err(e),
            Ok(n) => Ok(eval::unary_value(op, n)),
        },
        ExprV::Binary { op, lhs, rhs } => match const_value(v, *lhs) {
            Err(e) => Err(e),
            Ok(l) => match const_value(v, *rhs) {
                Err(e) => Err(e),
                Ok(r) => match eval::binary_value(op, l, r) {
                    Some(n) => Ok(n),
                    None => if op is Div {
                        Err(error::err_new("invalid constant division"@))
                    } else {
                        Err(error::err_new("invalid constant remainder"@))
                    },
                },
            },
        },
        ExprV::Call { .. } => Err(
            error::err_new("function call is not a compile-time constant"@),
        ),
        ExprV::Index { .. } => match const_array(v, e) {
            Err(e) => Err(e),
            Ok((dims, vals)) => match const_position(v, dims, e) {
                Err(e) => Err(e),
                Ok(at) => element_at(vals, at),
            },
        },
        ExprV::InitList(_) => Err(
            error::err_new("initializer list is not a compile-time constant"@),
        ),
        ExprV::Asm(_) => Err(error::err_new("inline assembly is not a compile-time constant"@)),
    }
}

/// The position among all elements that constant indices lead to.
pub open spec fn const_position(v: ScopesV<RvSymV>, dims: Seq<i32>, e: ExprV) -> Result<
    i32,
    ErrorView,
>
    decreases e, 0int,
{
    match e {
        ExprV::Index { array, index } => match const_position(v, dims, *array) {
            Err(e) => Err(e),
            Ok(before) => match const_value(v, *index) {
                Err(e) => Err(e),
                Ok(i) => Ok(
                    before.wrapping_add(
                        i.wrapping_mul(stride(dims, translate::index_count(*array) + 1)),
                    ),
                ),
            },
        },
        _ => Ok(0i32),
    }
}

/// The values of constant expressions, or the first error among them.
pub open spec fn const_values(v: ScopesV<RvSymV>, es: Seq<ExprV>) -> Result<Seq<i32>, ErrorView>
    decreases es.len(),
{
    if es.len() == 0 {
        Ok(Seq::empty())
    } else {
        match const_values(v, es.drop_last()) {
            Err(e) => Err(e),
            Ok(vs) => match const_value(v, es.last()) {
                Err(e) => Err(e),
                Ok(n) => Ok(vs.push(n)),
            },
        }
    }
}

// ── Initializers ─────────────────────────────────────────────────────────────

/// The values of an initializer, with zeros for those that are not constant, and those with their
/// positions.
pub type Flat = (Seq<i32>, Seq<(usize, ExprV)>);

/// The innermost dimension of an array.
pub open spec fn inner_dim(dims: Seq<i32>) -> i32 {
    if dims.len() == 0 {
        1
    } else {
        dims.last()
    }
}

/// The length of a list after a braced list that started at `len`.
pub open spec fn row_end(dims: Seq<i32>, len: int) -> Option<int> {
    if dims.len() > 1 {
        match translate::total(dims.drop_first()) {
            None => None,
            Some(t) => Some(len + t),
        }
    } else {
        Some(len + inner_dim(dims))
    }
}

/// The values with zeros added up to a length.
pub open spec fn padded(s: Flat, len: int) -> Result<Flat, ErrorView> {
    match translate::pad_to(s.0, len) {
        Err(e) => Err(e),
        Ok(vals) => Ok((vals, s.1)),
    }
}

/// The values after those of an initializer.
pub open spec fn flatten(v: ScopesV<RvSymV>, dims: Seq<i32>, init: ExprV, s: Flat) -> Result<
    Flat,
    ErrorView,
>
    decreases init, 0int,
{
    match translate::total(dims) {
        None => Err(translate::bad_dims()),
        Some(t) => match init {
            ExprV::InitList(items) => if items.len() == 0 {
                Ok(s)
            } else {
                match flatten_items(v, dims, items, 0, s, s.0.len() as int) {
                    Err(e) => Err(e),
                    Ok(f) => padded(f, s.0.len() + t),
                }
            },
            ExprV::Int(n) => padded((s.0.push(n), s.1), s.0.len() + t),
            _ => Ok(s),
        },
    }
}

/// The values after an item that is not a braced list.
pub open spec fn with_item(v: ScopesV<RvSymV>, s: Flat, e: ExprV) -> Flat {
    match const_value(v, e) {
        Ok(n) => (s.0.push(n), s.1),
        Err(_) => (s.0.push(0), s.1.push((s.0.len() as usize, e))),
    }
}

/// The values after the items of a braced list from the `k`th on.
pub open spec fn flatten_items(
    v: ScopesV<RvSymV>,
    dims: Seq<i32>,
    items: Seq<ExprV>,
    k: int,
    s: Flat,
    start: int,
) -> Result<Flat, ErrorView>
    decreases items, items.len() - k,
{
    if k < 0 || k >= items.len() {
        Ok(s)
    } else {
        match items[k] {
            ExprV::InitList(_) => match translate::align(s.0, start, inner_dim(dims)) {
                None => Err(translate::bad_dims()),
                Some(aligned) => match flatten(
                    v,
                    translate::row_dims(dims),
                    items[k],
                    (aligned, s.1),
                ) {
                    Err(e) => Err(e),
                    Ok(f) => match row_end(dims, aligned.len() as int) {
                        None => Err(translate::bad_dims()),
                        Some(end) => match padded(f, end) {
                            Err(e) => Err(e),
                            Ok(row) => flatten_items(v, dims, items, k + 1, row, start),
                        },
                    },
                },
            },
            _ => flatten_items(v, dims, items, k + 1, with_item(v, s, items[k]), start),
        }
    }
}

/// At most the first `n` values.
pub open spec fn cut(vals: Seq<i32>, n: int) -> Seq<i32> {
    if vals.len() > n {
        vals.take(n)
    } else {
        vals
    }
}

/// The values that an array starts with, and what is to be computed for it.
pub open spec fn init_values(v: ScopesV<RvSymV>, dims: Seq<i32>, init: ExprV) -> Result<
    Flat,
    ErrorView,
> {
    match flatten(v, dims, init, (Seq::empty(), Seq::empty())) {
        Err(e) => Err(e),
        Ok(f) => match translate::total(dims) {
            None => Err(translate::bad_dims()),
            Some(t) => Ok((cut(f.0, t as int), f.1)),
        },
    }
}

// ── Where variables are ──────────────────────────────────────────────────────

/// The distinct name of the `n`th variable with a name.
pub open spec fn distinct(name: Seq<char>, n: usize) -> Seq<char> {
    if n == 0 {
        name
    } else {
        name + "_"@ + text::dec_nat(n as nat)
    }
}

/// What a map of counts has for a name.
pub open spec fn count(m: Map<Seq<char>, usize>, name: Seq<char>) -> usize {
    if m.contains_key(name) {
        m[name]
    } else {
        0
    }
}

/// A variable more.
pub open spec fn with_slot(s: SlotsV, name: Seq<char>, words: i32) -> Result<SlotsV, ErrorView> {
    let n = count(s.counts, name);
    if n == usize::MAX || 4 * (s.words + words) > i32::MAX {
        Err(translate::too_large())
    } else {
        Ok(
            SlotsV {
                counts: s.counts.insert(name, (n + 1) as usize),
                offsets: s.offsets.insert(distinct(name, n), (4 * s.words) as i32),
                words: (s.words + words) as i32,
                ..s
            },
        )
    }
}

/// The number of words of a variable with given dimensions.
pub open spec fn words_of(consts: Map<Seq<char>, i32>, dims: Seq<ExprV>) -> i32 {
    let n = stride(dim_values(consts, dims), 0);
    if n > 0 {
        n
    } else {
        1
    }
}

/// The variables after the definitions of a declaration from the `k`th on.
pub open spec fn decl_slots(s: SlotsV, d: DeclV, k: int) -> Result<SlotsV, ErrorView>
    decreases
            (match d {
                DeclV::Const(defs) => defs.len(),
                DeclV::Var(defs) => defs.len(),
            }) - k,
{
    match d {
        DeclV::Const(defs) => if k < 0 || k >= defs.len() {
            Ok(s)
        } else if defs[k].dims.len() == 0 && !(defs[k].init is InitList) {
            decl_slots(
                SlotsV {
                    consts: s.consts.insert(defs[k].name, dim_value(s.consts, defs[k].init)),
                    ..s
                },
                d,
                k + 1,
            )
        } else {
            match with_slot(s, defs[k].name, words_of(s.consts, defs[k].dims)) {
                Err(e) => Err(e),
                Ok(s1) => decl_slots(s1, d, k + 1),
            }
        },
        DeclV::Var(defs) => if k < 0 || k >= defs.len() {
            Ok(s)
        } else {
            match with_slot(s, defs[k].name, words_of(s.consts, defs[k].dims)) {
                Err(e) => Err(e),
                Ok(s1) => decl_slots(s1, d, k + 1),
            }
        },
    }
}

/// The variables after those of a statement.
pub open spec fn stmt_slots(s: SlotsV, st: StmtV) -> Result<SlotsV, ErrorView>
    decreases st, 0int,
{
    match st {
        StmtV::Block(items) => block_slots(s, items, 0),
        StmtV::If { then_branch, else_branch, .. } => match stmt_slots(s, *then_branch) {
            Err(e) => Err(e),
            Ok(s1) => match else_branch {
                Some(els) => stmt_slots(s1, *els),
                None => Ok(s1),
            },
        },
        StmtV::While { body, .. } => stmt_slots(s, *body),
        _ => Ok(s),
    }
}

/// The variables after those of the items of a block from the `k`th on.
pub open spec fn block_slots(s: SlotsV, items: Seq<BlockItemV>, k: int) -> Result<SlotsV, ErrorView>
    decreases items, items.len() - k,
{
    if k < 0 || k >= items.len() {
        Ok(s)
    } else {
        match (match items[k] {
            BlockItemV::Decl(d) => decl_slots(s, d, 0),
            BlockItemV::Stmt(st) => stmt_slots(s, st),
        }) {
            Err(e) => Err(e),
            Ok(s1) => block_slots(s1, items, k + 1),
        }
    }
}

/// The variables after the parameters from the `k`th on.
pub open spec fn param_slots(s: SlotsV, ps: Seq<FuncParamV>, k: int) -> Result<SlotsV, ErrorView>
    decreases ps.len() - k,
{
    if k < 0 || k >= ps.len() {
        Ok(s)
    } else {
        match with_slot(s, ps[k].name, 1) {
            Err(e) => Err(e),
            Ok(s1) => param_slots(s1, ps, k + 1),
        }
    }
}

/// The state after a variable with a name has been met, and its offset: above the word that the
/// frame starts with.
pub open spec fn next_slot(g: RvV, name: Seq<char>) -> Result<(RvV, i32), ErrorView> {
    let n = count(g.met, name);
    let key = distinct(name, n);
    if n < count(g.slots.counts, name) && g.slots.offsets.contains_key(key)
        && g.slots.offsets[key] + 4 <= i32::MAX {
        Ok(
            (
                RvV { met: g.met.insert(name, (n + 1) as usize), ..g },
                (g.slots.offsets[key] + 4) as i32,
            ),
        )
    } else {
        Err(translate::too_large())
    }
}

/// The size of a frame of variables, with the return address.
pub open spec fn frame_size(words: int) -> int {
    frame::align16(frame::align16(4 * words) + 4)
}

// ── Expressions ──────────────────────────────────────────────────────────────

/// The value of a name.
pub open spec fn name_value(g: RvV, name: Seq<char>) -> Step {
    match g.scopes.lookup(name) {
        Some(RvSymV::Const(v)) => Ok(g.emit("li a0, "@ + text::dec_int(v as int))),
        Some(RvSymV::Var(o)) => word_at(g, o),
        Some(RvSymV::Array { offset, .. }) => match g.at(offset) {
            Err(e) => Err(e),
            Ok(at) => Ok(g.code(addi_large("a0"@, "sp"@, at))),
        },
        Some(RvSymV::PtrArray(o)) => word_at(g, o),
        Some(RvSymV::NdParam { offset, .. }) => word_at(g, offset),
        Some(RvSymV::Global(label, dims, _)) => {
            let g1 = g.emit("la a0, "@ + label);
            if dims.len() == 0 {
                Ok(g1.emit("lw a0, 0(a0)"@))
            } else {
                Ok(g1)
            }
        },
        None => Err(translate::quoted("undefined identifier '"@, name, "'"@)),
    }
}

/// Loads the word at an offset in the frame.
pub open spec fn word_at(g: RvV, offset: i32) -> Step {
    match g.at(offset) {
        Err(e) => Err(e),
        Ok(at) => Ok(g.code(ir_to_riscv::lw("a0"@, at))),
    }
}

/// The code of a binary operator other than the short-circuit ones, on `t0` and `a0`.
pub open spec fn op_code(op: BinaryOp) -> Seq<char> {
    match op {
        BinaryOp::Add => "  add a0, t0, a0\n"@,
        BinaryOp::Sub => "  sub a0, t0, a0\n"@,
        BinaryOp::Mul => "  mul a0, t0, a0\n"@,
        BinaryOp::Div => "  div a0, t0, a0\n"@,
        BinaryOp::Rem => "  rem a0, t0, a0\n"@,
        BinaryOp::Lt => "  slt a0, t0, a0\n"@,
        BinaryOp::Gt => "  sgt a0, t0, a0\n"@,
        BinaryOp::Le => "  sgt a0, t0, a0\n  xori a0, a0, 1\n"@,
        BinaryOp::Ge => "  slt a0, t0, a0\n  xori a0, a0, 1\n"@,
        BinaryOp::Eq => "  sub a0, t0, a0\n  seqz a0, a0\n"@,
        _ => "  sub a0, t0, a0\n  snez a0, a0\n"@,
    }
}

/// How an index is scaled: by the size of a word behind a pointer, or else by the number of
/// elements in a row.
pub open spec fn scale_code(pointer: bool, rows: i32) -> Seq<char> {
    if pointer {
        "  slli a0, a0, 2\n"@
    } else if rows == 1 {
        Seq::empty()
    } else {
        "  li t0, "@ + text::dec_int(rows as int) + "\n  mul a0, a0, t0\n"@
    }
}

/// How an index is added to those before it.
pub open spec fn gather_code(first: bool) -> Seq<char> {
    if first {
        "  mv t2, a0\n"@
    } else {
        "  add t2, t2, a0\n"@
    }
}

/// What an index counts: the dimensions that the elements of a row have.
#[verifier::ext_equal]
pub struct ScaleV {
    /// Whether indices count words.
    pub pointer: bool,
    pub dims: Seq<i32>,
    /// The first dimension that the first index does not count.
    pub from: int,
}

/// The code that follows the value of the `i`th index.
pub open spec fn index_code(s: ScaleV, i: int) -> Seq<char> {
    scale_code(s.pointer, stride(s.dims, i + s.from)) + gather_code(i == 0)
}

/// The base address of an array is put in `t3` and pushed.
pub open spec fn push_base(g: RvV, offset: i32) -> Step {
    match g.at(offset) {
        Err(e) => Err(e),
        Ok(at) => g.code(ir_to_riscv::lw("t3"@, at)).push("t3"@),
    }
}

/// The base address is popped, and added to the indices.
pub open spec fn pop_base(g: RvV, words: bool, reg: Seq<char>) -> RvV {
    let g1 = if words {
        g
    } else {
        g.emit("slli t2, t2, 2"@)
    };
    g1.pop(reg).emit("add t2, "@ + reg + ", t2"@)
}

/// The address of an element of an array in the frame, from its position in `t2`.
pub open spec fn frame_address(g: RvV, offset: i32) -> Step {
    match g.at(offset) {
        Err(e) => Err(e),
        Ok(at) => Ok(
            g.emit("slli t2, t2, 2"@).code(addi_large("t2"@, "t2"@, at)).emit("add t2, sp, t2"@),
        ),
    }
}

/// What an indexed address is read as: the element, or the address of the row.
pub open spec fn element(g: RvV, whole: bool) -> RvV {
    if whole {
        g.emit("lw a0, 0(t2)"@)
    } else {
        g.emit("mv a0, t2"@)
    }
}

/// The value of an expression, in `a0`.
pub open spec fn expr(g: RvV, e: ExprV) -> Step
    decreases e, 2int,
{
    match e {
        ExprV::Int(n) => Ok(g.emit("li a0, "@ + text::dec_int(n as int))),
        ExprV::LVal(name) => name_value(g, name),
        ExprV::Unary { op, expr: x } => match expr(g, *x) {
            Err(e) => Err(e),
            Ok(g1) => match op {
                UnaryOp::Plus => Ok(g1),
                UnaryOp::Minus => Ok(g1.emit("neg a0, a0"@)),
                UnaryOp::Not => Ok(g1.emit("seqz a0, a0"@)),
            },
        },
        ExprV::Binary { op, lhs, rhs } => if op == BinaryOp::And || op == BinaryOp::Or {
            match expr(g, *lhs) {
                Err(e) => Err(e),
                Ok(g1) => if op == BinaryOp::And {
                    decided(g1, "beqz a0, "@, "li a0, 0"@, *rhs)
                } else {
                    decided(g1, "bnez a0, "@, "li a0, 1"@, *rhs)
                },
            }
        } else {
            match expr(g, *lhs) {
                Err(e) => Err(e),
                Ok(g1) => match g1.push("a0"@) {
                    Err(e) => Err(e),
                    Ok(g2) => match expr(g2, *rhs) {
                        Err(e) => Err(e),
                        Ok(g3) => Ok(g3.pop("t0"@).code(op_code(op))),
                    },
                },
            }
        },
        ExprV::Call { name, args } => call(g, name, args),
        ExprV::Index { .. } => index_value(g, e),
        ExprV::InitList(_) => Err(
            error::err_new("initializer list not allowed in expression context"@),
        ),
        ExprV::Asm(code) => Ok(g.emit(code)),
    }
}

/// The right operand of a short-circuit operator; the code branches past it where the left one
/// decides, and the result is then the given one.
pub open spec fn decided(g: RvV, branch: Seq<char>, value: Seq<char>, rhs: ExprV) -> Step
    decreases rhs, 3int,
{
    match g.new_label() {
        Err(e) => Err(e),
        Ok((g1, past)) => match g1.new_label() {
            Err(e) => Err(e),
            Ok((g2, end)) => match expr(g2.emit(branch + past), rhs) {
                Err(e) => Err(e),
                Ok(g3) => Ok(
                    g3.emit("snez a0, a0"@).emit("j "@ + end).start(past).emit(value).start(end),
                ),
            },
        },
    }
}

/// A call: its arguments are pushed, and the first of them popped into registers; the others are
/// dropped after it.
pub open spec fn call(g: RvV, name: Seq<char>, args: Seq<ExprV>) -> Step
    decreases args, args.len() + 1,
{
    match pushed(g, args, args.len() as int) {
        Err(e) => Err(e),
        Ok(g1) => {
            let n = args.len() as int;
            let in_regs = ir_to_riscv::in_regs(n);
            Ok(
                RvV {
                    extra: g.extra,
                    ..g1.code(ir_to_riscv::args_popped(in_regs)).emit("call "@ + name).code(
                        sp_add(4 * (n - in_regs)),
                    )
                },
            )
        },
    }
}

/// The first `k` arguments of a call, pushed from the last on.
pub open spec fn pushed(g: RvV, args: Seq<ExprV>, k: int) -> Step
    decreases args, k,
{
    if k <= 0 || k > args.len() {
        Ok(g)
    } else {
        match expr(g, args[k - 1]) {
            Err(e) => Err(e),
            Ok(g1) => match g1.push("a0"@) {
                Err(e) => Err(e),
                Ok(g2) => pushed(g2, args, k - 1),
            },
        }
    }
}

/// The value of an indexed array.
pub open spec fn index_value(g: RvV, e: ExprV) -> Step
    decreases e, 1int,
{
    match base_name(e) {
        None => Err(error::err_new("invalid array access"@)),
        Some(name) => {
            let n = translate::index_count(e);
            match g.scopes.lookup(name) {
                Some(RvSymV::Array { offset, dims, .. }) => match indices(
                    g,
                    e,
                    ScaleV { pointer: false, dims, from: 1 },
                ) {
                    Err(e) => Err(e),
                    Ok(g1) => match frame_address(g1, offset) {
                        Err(e) => Err(e),
                        Ok(g2) => Ok(element(g2, n >= dims.len())),
                    },
                },
                Some(RvSymV::PtrArray(offset)) => match push_base(g, offset) {
                    Err(e) => Err(e),
                    Ok(g1) => match indices(
                        g1,
                        e,
                        ScaleV { pointer: true, dims: Seq::empty(), from: 0 },
                    ) {
                        Err(e) => Err(e),
                        Ok(g2) => Ok(element(pop_base(g2, true, "t5"@), true)),
                    },
                },
                Some(RvSymV::NdParam { offset, dims }) => match push_base(g, offset) {
                    Err(e) => Err(e),
                    Ok(g1) => match indices(g1, e, ScaleV { pointer: false, dims, from: 0 }) {
                        Err(e) => Err(e),
                        Ok(g2) => Ok(
                            element(pop_base(g2, false, "t5"@), n >= 1 + dims.len()),
                        ),
                    },
                },
                Some(RvSymV::Global(label, dims, _)) => if dims.len() == 0 {
                    Err(translate::quoted("'"@, name, "' is not an array"@))
                } else {
                    match g.emit("la t3, "@ + label).push("t3"@) {
                        Err(e) => Err(e),
                        Ok(g1) => match indices(
                            g1,
                            e,
                            ScaleV { pointer: false, dims, from: 1 },
                        ) {
                            Err(e) => Err(e),
                            Ok(g2) => Ok(element(pop_base(g2, false, "t5"@), n >= dims.len())),
                        },
                    }
                },
                _ => Err(translate::quoted("'"@, name, "' is not an array"@)),
            }
        },
    }
}

/// The indices of an expression, added up in `t2`, which is saved while each is computed.
pub open spec fn indices(g: RvV, e: ExprV, s: ScaleV) -> Step
    decreases e, 0int,
{
    match e {
        ExprV::Index { array, index } => {
            let i = translate::index_count(*array);
            match indices(g, *array, s) {
                Err(e) => Err(e),
                Ok(g1) => if i == 0 {
                    match expr(g1, *index) {
                        Err(e) => Err(e),
                        Ok(g2) => Ok(g2.code(index_code(s, i))),
                    }
                } else {
                    match g1.push("t2"@) {
                        Err(e) => Err(e),
                        Ok(g2) => match expr(g2, *index) {
                            Err(e) => Err(e),
                            Ok(g3) => Ok(g3.pop("t2"@).code(index_code(s, i))),
                        },
                    }
                },
            }
        },
        _ => Ok(g),
    }
}

// ── Declarations ─────────────────────────────────────────────────────────────

/// The offset of an element of an array in the frame.
pub open spec fn word_offset(offset: i32, i: int) -> Result<i32, ErrorView> {
    if offset + 4 * i <= i32::MAX {
        Ok((offset + 4 * i) as i32)
    } else {
        Err(translate::too_large())
    }
}

/// Stores of the values from the `i`th on.
pub open spec fn value_stores(g: RvV, offset: i32, vals: Seq<i32>, i: int) -> Step
    decreases vals.len() - i,
{
    if i < 0 || i >= vals.len() {
        Ok(g)
    } else {
        match word_offset(offset, i) {
            Err(e) => Err(e),
            Ok(at) => value_stores(
                g.emit("li t0, "@ + text::dec_int(vals[i] as int)).code(
                    ir_to_riscv::sw("t0"@, at),
                ),
                offset,
                vals,
                i + 1,
            ),
        }
    }
}

/// Stores of the values that are computed, from the `k`th on.
pub open spec fn computed_stores(g: RvV, offset: i32, items: Seq<(usize, ExprV)>, k: int) -> Step
    decreases items.len() - k,
{
    if k < 0 || k >= items.len() {
        Ok(g)
    } else {
        match expr(g, items[k].1) {
            Err(e) => Err(e),
            Ok(g1) => match word_offset(offset, items[k].0 as int) {
                Err(e) => Err(e),
                Ok(at) => computed_stores(
                    g1.code(ir_to_riscv::sw("a0"@, at)),
                    offset,
                    items,
                    k + 1,
                ),
            },
        }
    }
}

/// The initialization of an array in the frame, and its binding to a name.
pub open spec fn new_array(
    g: RvV,
    name: Seq<char>,
    offset: i32,
    dims: Seq<i32>,
    init: Option<ExprV>,
) -> Step {
    match (match init {
        Some(e) => init_values(g.scopes, dims, e),
        None => Ok((Seq::empty(), Seq::empty())),
    }) {
        Err(e) => Err(e),
        Ok(f) => match value_stores(g, offset, f.0, 0) {
            Err(e) => Err(e),
            Ok(g1) => match computed_stores(g1, offset, f.1, 0) {
                Err(e) => Err(e),
                Ok(g2) => Ok(g2.bind(name, RvSymV::Array { offset, dims, vals: f.0 })),
            },
        },
    }
}

/// A constant definition in a function.
pub open spec fn const_def(g: RvV, d: ConstDefV) -> Step {
    if g.scopes.declared(d.name) {
        Err(translate::quoted("redeclaration of '"@, d.name, "'"@))
    } else if d.dims.len() == 0 && !(d.init is InitList) {
        match const_value(g.scopes, d.init) {
            Err(e) => Err(e),
            Ok(v) => Ok(g.bind(d.name, RvSymV::Const(v))),
        }
    } else {
        match next_slot(g, d.name) {
            Err(e) => Err(e),
            Ok((g1, offset)) => match const_values(g1.scopes, d.dims) {
                Err(e) => Err(e),
                Ok(dims) => new_array(g1, d.name, offset, dims, Some(d.init)),
            },
        }
    }
}

/// A variable definition in a function.
pub open spec fn var_def(g: RvV, d: VarDefV) -> Step {
    if g.scopes.declared(d.name) {
        Err(translate::quoted("redeclaration of '"@, d.name, "'"@))
    } else {
        match next_slot(g, d.name) {
            Err(e) => Err(e),
            Ok((g1, offset)) => if d.dims.len() == 0 {
                match d.init {
                    None => Ok(g1.bind(d.name, RvSymV::Var(offset))),
                    Some(init) => match expr(g1, init) {
                        Err(e) => Err(e),
                        Ok(g2) => Ok(
                            g2.code(ir_to_riscv::sw("a0"@, offset)).bind(
                                d.name,
                                RvSymV::Var(offset),
                            ),
                        ),
                    },
                }
            } else {
                match const_values(g1.scopes, d.dims) {
                    Err(e) => Err(e),
                    Ok(dims) => new_array(g1, d.name, offset, dims, d.init),
                }
            },
        }
    }
}

/// The definitions of a declaration from the `k`th on.
pub open spec fn decl(g: RvV, d: DeclV, k: int) -> Step
    decreases
            (match d {
                DeclV::Const(defs) => defs.len(),
                DeclV::Var(defs) => defs.len(),
            }) - k,
{
    match d {
        DeclV::Const(defs) => if k < 0 || k >= defs.len() {
            Ok(g)
        } else {
            match const_def(g, defs[k]) {
                Err(e) => Err(e),
                Ok(g1) => decl(g1, d, k + 1),
            }
        },
        DeclV::Var(defs) => if k < 0 || k >= defs.len() {
            Ok(g)
        } else {
            match var_def(g, defs[k]) {
                Err(e) => Err(e),
                Ok(g1) => decl(g1, d, k + 1),
            }
        },
    }
}

// ── Statements ───────────────────────────────────────────────────────────────

/// The indices of an assignment from the `k`th on, added up in `t2`; with `save`, it is saved
/// while each is computed.
pub open spec fn targets(g: RvV, index: Seq<ExprV>, k: int, s: ScaleV, save: bool) -> Step
    decreases index.len() - k,
{
    if k < 0 || k >= index.len() {
        Ok(g)
    } else if save && k > 0 {
        match g.push("t2"@) {
            Err(e) => Err(e),
            Ok(g1) => match expr(g1, index[k]) {
                Err(e) => Err(e),
                Ok(g2) => targets(
                    g2.pop("t2"@).code(index_code(s, k)),
                    index,
                    k + 1,
                    s,
                    save,
                ),
            },
        }
    } else {
        match expr(g, index[k]) {
            Err(e) => Err(e),
            Ok(g1) => targets(g1.code(index_code(s, k)), index, k + 1, s, save),
        }
    }
}

/// An assignment to an element behind a base address that has been pushed.
pub open spec fn assign_behind(g: RvV, index: Seq<ExprV>, e: ExprV, s: ScaleV) -> Step {
    match expr(g, e) {
        Err(e) => Err(e),
        Ok(g1) => match targets(g1.emit("mv t1, a0"@), index, 0, s, true) {
            Err(e) => Err(e),
            Ok(g2) => Ok(pop_base(g2, s.pointer, "t4"@).emit("sw t1, 0(t2)"@)),
        },
    }
}

/// An assignment to an element.
pub open spec fn array_assign(g: RvV, name: Seq<char>, index: Seq<ExprV>, e: ExprV) -> Step {
    match g.scopes.lookup(name) {
        Some(RvSymV::Array { offset, dims, .. }) => match expr(g, e) {
            Err(e) => Err(e),
            Ok(g1) => match targets(
                g1.emit("mv t1, a0"@),
                index,
                0,
                ScaleV { pointer: false, dims, from: 1 },
                false,
            ) {
                Err(e) => Err(e),
                Ok(g2) => match frame_address(g2, offset) {
                    Err(e) => Err(e),
                    Ok(g3) => Ok(g3.emit("sw t1, 0(t2)"@)),
                },
            },
        },
        Some(RvSymV::PtrArray(offset)) => match push_base(g, offset) {
            Err(e) => Err(e),
            Ok(g1) => assign_behind(
                g1,
                index,
                e,
                ScaleV { pointer: true, dims: Seq::empty(), from: 0 },
            ),
        },
        Some(RvSymV::NdParam { offset, dims }) => match push_base(g, offset) {
            Err(e) => Err(e),
            Ok(g1) => assign_behind(g1, index, e, ScaleV { pointer: false, dims, from: 0 }),
        },
        Some(RvSymV::Global(label, dims, _)) => if dims.len() == 0 {
            Err(translate::quoted("'"@, name, "' is not an array"@))
        } else {
            match g.emit("la t3, "@ + label).push("t3"@) {
                Err(e) => Err(e),
                Ok(g1) => assign_behind(g1, index, e, ScaleV { pointer: false, dims, from: 1 }),
            }
        },
        _ => Err(translate::quoted("'"@, name, "' is not an array"@)),
    }
}

/// An assignment.
pub open spec fn assign(g: RvV, name: Seq<char>, index: Seq<ExprV>, e: ExprV) -> Step {
    if index.len() > 0 {
        array_assign(g, name, index, e)
    } else {
        match g.scopes.lookup(name) {
            Some(RvSymV::Var(offset)) => match expr(g, e) {
                Err(e) => Err(e),
                Ok(g1) => Ok(g1.code(ir_to_riscv::sw("a0"@, offset))),
            },
            Some(RvSymV::Global(label, _, _)) => match expr(g, e) {
                Err(e) => Err(e),
                Ok(g1) => Ok(
                    g1.emit("mv t0, a0"@).emit("la t1, "@ + label).emit("sw t0, 0(t1)"@),
                ),
            },
            Some(RvSymV::Const(_)) => Err(
                translate::quoted("cannot assign to constant '"@, name, "'"@),
            ),
            None => Err(translate::quoted("undefined variable '"@, name, "'"@)),
            _ => Err(translate::quoted("cannot assign to array '"@, name, "' without index"@)),
        }
    }
}

/// A statement of a function with a frame of the given size.
pub open spec fn stmt(g: RvV, s: StmtV, size: i32) -> Step
    decreases s,
{
    match s {
        StmtV::Return(None) => Ok(g.code(leave(size))),
        StmtV::Return(Some(e)) => match expr(g, e) {
            Err(e) => Err(e),
            Ok(g1) => Ok(g1.code(leave(size))),
        },
        StmtV::Assign { name, index, expr } => assign(g, name, index, expr),
        StmtV::Expr(e) => expr(g, e),
        StmtV::Block(items) => match block(
            RvV { scopes: g.scopes.enter(), ..g },
            items,
            0,
            size,
        ) {
            Err(e) => Err(e),
            Ok(g1) => Ok(RvV { scopes: g1.scopes.exit(), ..g1 }),
        },
        StmtV::If { cond, then_branch, else_branch } => match expr(g, cond) {
            Err(e) => Err(e),
            Ok(g1) => match g1.labels() {
                Err(e) => Err(e),
                Ok((g2, (yes, no, end))) => {
                    let target = if else_branch is Some {
                        no
                    } else {
                        end
                    };
                    match stmt(g2.emit("beqz a0, "@ + target).start(yes), *then_branch, size) {
                        Err(e) => Err(e),
                        Ok(g3) => match else_branch {
                            None => Ok(g3.emit("j "@ + end).start(end)),
                            Some(els) => match stmt(
                                g3.emit("j "@ + end).start(no),
                                *els,
                                size,
                            ) {
                                Err(e) => Err(e),
                                Ok(g4) => Ok(g4.emit("j "@ + end).start(end)),
                            },
                        },
                    }
                },
            },
        },
        StmtV::While { cond, body } => match g.labels() {
            Err(e) => Err(e),
            Ok((g1, (entry, inside, end))) => match expr(
                g1.emit("j "@ + entry).start(entry),
                cond,
            ) {
                Err(e) => Err(e),
                Ok(g2) => {
                    let g3 = g2.emit("beqz a0, "@ + end);
                    let g4 = RvV { loops: g3.loops.push((entry, end)), ..g3 }.start(inside);
                    match stmt(g4, *body, size) {
                        Err(e) => Err(e),
                        Ok(g5) => Ok(
                            RvV { loops: g5.loops.drop_last(), ..g5.emit("j "@ + entry) }.start(
                                end,
                            ),
                        ),
                    }
                },
            },
        },
        StmtV::Break => if g.loops.len() == 0 {
            Err(error::err_new("'break' outside of loop"@))
        } else {
            Ok(g.emit("j "@ + g.loops.last().1))
        },
        StmtV::Continue => if g.loops.len() == 0 {
            Err(error::err_new("'continue' outside of loop"@))
        } else {
            Ok(g.emit("j "@ + g.loops.last().0))
        },
        StmtV::Empty => Ok(g),
        StmtV::Asm(code) => Ok(g.emit(code)),
    }
}

/// The items of a block from the `k`th on.
pub open spec fn block(g: RvV, items: Seq<BlockItemV>, k: int, size: i32) -> Step
    decreases items, items.len() - k,
{
    if k < 0 || k >= items.len() {
        Ok(g)
    } else {
        match (match items[k] {
            BlockItemV::Stmt(s) => stmt(g, s, size),
            BlockItemV::Decl(d) => decl(g, d, 0),
        }) {
            Err(e) => Err(e),
            Ok(g1) => block(g1, items, k + 1, size),
        }
    }
}

// ── Functions and programs ───────────────────────────────────────────────────

/// What a parameter stands for.
pub open spec fn param_symbol(consts: Map<Seq<char>, i32>, p: FuncParamV, offset: i32) -> RvSymV {
    if p.is_array {
        if p.array_dims.len() == 0 {
            RvSymV::PtrArray(offset)
        } else {
            RvSymV::NdParam { offset, dims: dim_values(consts, p.array_dims) }
        }
    } else {
        RvSymV::Var(offset)
    }
}

/// The parameters of a function from the `k`th on, stored in the frame.
pub open spec fn params(
    g: RvV,
    consts: Map<Seq<char>, i32>,
    ps: Seq<FuncParamV>,
    k: int,
    size: i32,
) -> Step
    decreases ps.len() - k,
{
    if k < 0 || k >= ps.len() {
        Ok(g)
    } else {
        match next_slot(g, ps[k].name) {
            Err(e) => Err(e),
            Ok((g1, offset)) => match (if k < REG_ARGS {
                Ok(g1.code(ir_to_riscv::sw(ir_to_riscv::arg_reg(k as nat), offset)))
            } else {
                match word_offset(size, k - REG_ARGS) {
                    Err(e) => Err(e),
                    Ok(at) => Ok(
                        g1.code(ir_to_riscv::lw("t0"@, at)).code(
                            ir_to_riscv::sw("t0"@, offset),
                        ),
                    ),
                }
            }) {
                Err(e) => Err(e),
                Ok(g2) => params(
                    g2.bind(ps[k].name, param_symbol(consts, ps[k], offset)),
                    consts,
                    ps,
                    k + 1,
                    size,
                ),
            },
        }
    }
}

/// The variables of a function.
pub open spec fn func_slots(consts: Map<Seq<char>, i32>, f: FuncDefV) -> Result<SlotsV, ErrorView> {
    match param_slots(
        SlotsV { counts: Map::empty(), offsets: Map::empty(), consts, words: 0 },
        f.params,
        0,
    ) {
        Err(e) => Err(e),
        Ok(s) => block_slots(s, f.body, 0),
    }
}

/// The state at the start of a function.
pub open spec fn enter(g: RvV, f: FuncDefV, slots: SlotsV, size: i32) -> RvV {
    RvV {
        scopes: g.scopes.fresh(),
        slots,
        met: Map::empty(),
        loops: Seq::empty(),
        out: ("  .globl "@ + f.name + "\n"@) + (f.name + ":\n"@) + sp_add(-(size as int))
            + ir_to_riscv::sw("ra"@, (size - 4) as i32),
        ..g
    }
}

/// A function, with the constants of the program.
pub open spec fn func(g: RvV, consts: Map<Seq<char>, i32>, f: FuncDefV) -> Step {
    match func_slots(consts, f) {
        Err(e) => Err(e),
        Ok(slots) => if frame_size(slots.words as int) > i32::MAX {
            Err(translate::too_large())
        } else {
            let size = frame_size(slots.words as int) as i32;
            match params(enter(g, f, slots, size), consts, f.params, 0, size) {
                Err(e) => Err(e),
                Ok(g1) => match block(g1, f.body, 0, size) {
                    Err(e) => Err(e),
                    Ok(g2) => if f.ret_type == Type::Void {
                        Ok(g2.code(leave(size)))
                    } else {
                        Ok(g2)
                    },
                },
            }
        },
    }
}

/// The first `n` words of a global variable.
pub open spec fn words_text(vals: Seq<i32>, n: int) -> Seq<char>
    decreases n,
{
    if n <= 0 {
        Seq::empty()
    } else {
        words_text(vals, n - 1) + ("  .word "@ + text::dec_int(vals[n - 1] as int) + "\n"@)
    }
}

/// The zeros at the end of a global array.
pub open spec fn zeros_text(words: int) -> Seq<char> {
    if words > 0 {
        "  .zero "@ + text::dec_int(4 * words) + "\n"@
    } else {
        Seq::empty()
    }
}

/// The product of dimensions, where neither it nor a product on the way leaves 32 bits.
pub open spec fn product(dims: Seq<i32>) -> Option<i32>
    decreases dims.len(),
{
    if dims.len() == 0 {
        Some(1)
    } else {
        match product(dims.drop_last()) {
            None => None,
            Some(p) => if i32::MIN <= p * dims.last() <= i32::MAX {
                Some((p * dims.last()) as i32)
            } else {
                None
            },
        }
    }
}

/// The size in bytes that is written for a global array without an initializer: four for each
/// element, and the product as it is where a dimension is negative.
pub open spec fn blank_size(dims: Seq<i32>) -> Option<int> {
    match translate::total(dims) {
        Some(t) => if 4 * t > usize::MAX {
            None
        } else {
            Some(4 * t)
        },
        None => match product(dims) {
            Some(p) => if i32::MIN <= 4 * p <= i32::MAX {
                Some(4 * p)
            } else {
                None
            },
            None => None,
        },
    }
}

/// What stands in the data section for a global array, and the values that it starts with.
pub open spec fn array_data(v: ScopesV<RvSymV>, dims: Seq<i32>, init: Option<ExprV>) -> Result<
    (Seq<char>, Seq<i32>),
    ErrorView,
> {
    match init {
        None => match blank_size(dims) {
            None => Err(translate::bad_dims()),
            Some(n) => Ok(("  .zero "@ + text::dec_int(n) + "\n"@, Seq::empty())),
        },
        Some(e) => match translate::total(dims) {
            None => Err(translate::bad_dims()),
            Some(t) => if 4 * t > usize::MAX {
                Err(translate::bad_dims())
            } else {
                match init_values(v, dims, e) {
                    Err(e) => Err(e),
                    Ok(f) => Ok(
                        (words_text(f.0, f.0.len() as int) + zeros_text(t - f.0.len()), f.0),
                    ),
                }
            },
        },
    }
}

/// A global array, bound to a name.
pub open spec fn global_array(g: RvV, name: Seq<char>, dims: Seq<i32>, init: Option<ExprV>) -> Step {
    match array_data(g.scopes, dims, init) {
        Err(e) => Err(e),
        Ok((data, vals)) => Ok(
            RvV {
                data: g.data + (name + ":\n"@) + data,
                scopes: g.scopes.bind_global(name, RvSymV::Global(name, dims, vals)),
                ..g
            },
        ),
    }
}

/// The state and the constants of the program.
pub type Global = Result<(RvV, Map<Seq<char>, i32>), ErrorView>;

/// A constant definition at the top level.
pub open spec fn global_const(g: RvV, consts: Map<Seq<char>, i32>, d: ConstDefV) -> Global {
    if d.dims.len() == 0 && !(d.init is InitList) {
        let v = dim_value(consts, d.init);
        Ok(
            (
                RvV { scopes: g.scopes.bind_global(d.name, RvSymV::Const(v)), ..g },
                consts.insert(d.name, v),
            ),
        )
    } else {
        match global_array(g, d.name, dim_values(consts, d.dims), Some(d.init)) {
            Err(e) => Err(e),
            Ok(g1) => Ok((g1, consts)),
        }
    }
}

/// A variable definition at the top level.
pub open spec fn global_var(g: RvV, consts: Map<Seq<char>, i32>, d: VarDefV) -> Global {
    if d.dims.len() == 0 {
        let v = match d.init {
            Some(e) => dim_value(consts, e),
            None => 0,
        };
        Ok(
            (
                RvV {
                    data: g.data + (d.name + ":\n  .word "@ + text::dec_int(v as int) + "\n"@),
                    scopes: g.scopes.bind_global(
                        d.name,
                        RvSymV::Global(d.name, Seq::empty(), Seq::empty()),
                    ),
                    ..g
                },
                consts,
            ),
        )
    } else {
        match global_array(g, d.name, dim_values(consts, d.dims), d.init) {
            Err(e) => Err(e),
            Ok(g1) => Ok((g1, consts)),
        }
    }
}

/// The definitions of a declaration at the top level from the `k`th on.
pub open spec fn global_decl(g: RvV, consts: Map<Seq<char>, i32>, d: DeclV, k: int) -> Global
    decreases
            (match d {
                DeclV::Const(defs) => defs.len(),
                DeclV::Var(defs) => defs.len(),
            }) - k,
{
    match d {
        DeclV::Const(defs) => if k < 0 || k >= defs.len() {
            Ok((g, consts))
        } else {
            match global_const(g, consts, defs[k]) {
                Err(e) => Err(e),
                Ok((g1, c1)) => global_decl(g1, c1, d, k + 1),
            }
        },
        DeclV::Var(defs) => if k < 0 || k >= defs.len() {
            Ok((g, consts))
        } else {
            match global_var(g, consts, defs[k]) {
                Err(e) => Err(e),
                Ok((g1, c1)) => global_decl(g1, c1, d, k + 1),
            }
        },
    }
}

/// The global variables of the items from the `k`th on.
pub open spec fn globals(
    g: RvV,
    consts: Map<Seq<char>, i32>,
    items: Seq<GlobalItemV>,
    k: int,
) -> Global
    decreases items.len() - k,
{
    if k < 0 || k >= items.len() {
        Ok((g, consts))
    } else {
        match items[k] {
            GlobalItemV::Decl(d) => match global_decl(g, consts, d, 0) {
                Err(e) => Err(e),
                Ok((g1, c1)) => globals(g1, c1, items, k + 1),
            },
            _ => globals(g, consts, items, k + 1),
        }
    }
}

/// The functions of the items from the `k`th on, after a text.
pub open spec fn functions(
    g: RvV,
    consts: Map<Seq<char>, i32>,
    items: Seq<GlobalItemV>,
    k: int,
    done: Seq<char>,
) -> Result<Seq<char>, ErrorView>
    decreases items.len() - k,
{
    if k < 0 || k >= items.len() {
        Ok(done)
    } else {
        match items[k] {
            GlobalItemV::FuncDef(f) => match func(g, consts, f) {
                Err(e) => Err(e),
                Ok(g1) => functions(g1, consts, items, k + 1, done + g1.out),
            },
            _ => functions(g, consts, items, k + 1, done),
        }
    }
}

/// The variables of no function.
pub open spec fn no_slots() -> SlotsV {
    SlotsV { counts: Map::empty(), offsets: Map::empty(), consts: Map::empty(), words: 0 }
}

/// The state before anything has been generated.
pub open spec fn start() -> RvV {
    RvV {
        scopes: scopes::no_names(),
        slots: no_slots(),
        met: Map::empty(),
        extra: 0,
        label: 0,
        loops: Seq::empty(),
        data: Seq::empty(),
        out: Seq::empty(),
    }
}

/// The text of a program.
pub open spec fn program(items: Seq<GlobalItemV>) -> Result<Seq<char>, ErrorView> {
    match globals(start(), Map::empty(), items, 0) {
        Err(e) => Err(e),
        Ok((g, consts)) => functions(
            g,
            consts,
            items,
            0,
            (if g.data.len() == 0 {
                Seq::empty()
            } else {
                "  .data\n"@ + g.data
            }) + "  .text\n"@,
        ),
    }
}

} // verus!

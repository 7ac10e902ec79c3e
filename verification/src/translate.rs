//! What each construct of the language is translated to.
//!
//! A translation step takes the state of the translation and gives the state after it, or the
//! error that the translation ends in.

use crate::ast::{
    BinaryOp, BlockItemV, ConstDefV, DeclV, ExprV, FuncDefV, FuncParamV, GlobalItemV, StmtV, Type,
    UnaryOp, VarDefV,
};
use crate::codegen;
use crate::error::{self, ErrorView};
use crate::eval;
use crate::ir::{
    self, FuncDeclIrV, FuncV, GlobalV, InitV, InstV, IrArithOp, IrCmpOp, IrOperand, IrType, ProgV,
};
use crate::ir_builder::{self, BuilderV};
use crate::scopes;
use crate::text;
use vstd::prelude::*;

verus! {

/// What a name stands for.
#[verifier::ext_equal]
pub enum SymV {
    Const(i32),
    /// A variable, by the index of its name.
    Var(usize),
    /// An array and its dimensions.
    Array(usize, Seq<i32>),
    /// A parameter that points to integers.
    PtrArray(usize),
    /// A parameter that points to arrays of the given dimensions.
    NdParam { name: usize, dims: Seq<i32> },
}

/// The state of a translation.
#[verifier::ext_equal]
pub struct GenV {
    pub program: ProgV,
    pub scopes: Seq<Map<Seq<char>, SymV>>,
    pub globals: Map<Seq<char>, SymV>,
    /// How often each name has been used in the current function.
    pub counts: Map<Seq<char>, usize>,
    /// For each enclosing loop, the label it starts at and the label after it.
    pub loops: Seq<(usize, usize)>,
    pub ret_type: IrType,
    pub lib_emitted: Map<Seq<char>, bool>,
    pub func_rets: Map<Seq<char>, Type>,
    pub b: BuilderV,
}

/// The state after a step and what the step gives, or an error.
pub type Step<T> = Result<(GenV, T), ErrorView>;

/// The error that a counter has run out.
pub open spec fn too_large() -> ErrorView {
    error::err_new("program too large"@)
}

/// An error whose message quotes a name.
pub open spec fn quoted(before: Seq<char>, name: Seq<char>, after: Seq<char>) -> ErrorView {
    error::err_new(before + name + after)
}

// ── Names ────────────────────────────────────────────────────────────────────

impl GenV {
    /// What a name stands for.
    pub open spec fn lookup(self, name: Seq<char>) -> Option<SymV> {
        scopes::lookup_in(self.scopes, self.globals, name)
    }

    /// The state after a name has been bound in the innermost scope.
    pub open spec fn bind(self, name: Seq<char>, sym: SymV) -> GenV {
        GenV {
            scopes: self.scopes.update(
                self.scopes.len() - 1,
                self.scopes.last().insert(name, sym),
            ),
            ..self
        }
    }

    /// The state after an instruction.
    pub open spec fn emit(self, i: InstV) -> GenV {
        GenV { b: self.b.push(i), ..self }
    }

    /// The state after a block has been started.
    pub open spec fn start(self, label: usize) -> GenV {
        GenV { b: self.b.start(label), ..self }
    }

    /// The state after a variable of the function has been put down.
    pub open spec fn pend(self, name: usize, ty: IrType) -> GenV {
        GenV { b: self.b.with_pending(name, ty), ..self }
    }

    /// An instruction whose result goes to a new temporary.
    pub open spec fn def(self, i: InstV) -> Step<IrOperand> {
        if self.b.tmp_left() {
            Ok(
                (
                    GenV {
                        b: self.b.with_tmp().push(ir::with_dest(i, self.b.local_counter)),
                        ..self
                    },
                    IrOperand::Local(self.b.local_counter),
                ),
            )
        } else {
            Err(too_large())
        }
    }

    /// A new label.
    pub open spec fn label(self) -> Step<usize> {
        if self.b.block_counter < usize::MAX {
            Ok((GenV { b: self.b.with_label(), ..self }, self.b.block_counter))
        } else {
            Err(too_large())
        }
    }

    /// Three new labels.
    pub open spec fn labels(self) -> Step<(usize, usize, usize)> {
        match self.label() {
            Err(e) => Err(e),
            Ok((g1, a)) => match g1.label() {
                Err(e) => Err(e),
                Ok((g2, b)) => match g2.label() {
                    Err(e) => Err(e),
                    Ok((g3, c)) => Ok((g3, (a, b, c))),
                },
            },
        }
    }

    /// A new variable for the value of a short-circuit operator.
    pub open spec fn short_circuit(self) -> Step<usize> {
        if self.b.sc_left() {
            Ok(
                (
                    GenV { b: self.b.with_sc(), ..self }.pend(self.b.global_counter, IrType::I32),
                    self.b.global_counter,
                ),
            )
        } else {
            Err(too_large())
        }
    }

    /// The index of a variable name of the function.
    pub open spec fn intern(self, name: Seq<char>) -> Step<usize> {
        if self.b.global_counter < usize::MAX {
            Ok((GenV { b: self.b.with_global(name), ..self }, self.b.global_index(name)))
        } else {
            Err(too_large())
        }
    }

    /// How often a name has been used in the function.
    pub open spec fn count(self, name: Seq<char>) -> usize {
        if self.counts.contains_key(name) {
            self.counts[name]
        } else {
            0
        }
    }

    /// A variable name not used before in the function: the name, numbered from its second use.
    pub open spec fn mangle(self, name: Seq<char>) -> Step<Seq<char>> {
        let n = self.count(name);
        if n == usize::MAX {
            Err(too_large())
        } else {
            Ok(
                (
                    GenV { counts: self.counts.insert(name, (n + 1) as usize), ..self },
                    if n == 0 {
                        name
                    } else {
                        name + "_"@ + text::dec_nat(n as nat)
                    },
                ),
            )
        }
    }

    /// A variable name that also differs from that of a global variable.
    pub open spec fn local_name(self, name: Seq<char>) -> Step<Seq<char>> {
        if self.globals.contains_key(name) {
            match self.mangle(name) {
                Err(e) => Err(e),
                Ok((g, _)) => g.mangle(name),
            }
        } else {
            self.mangle(name)
        }
    }
}

// ── Constants and array shapes ───────────────────────────────────────────────

/// The value of a constant expression.
pub open spec fn const_value(g: GenV, e: ExprV) -> Result<i32, ErrorView>
    decreases e,
{
    match e {
        ExprV::Int(v) => Ok(v),
        ExprV::LVal(name) => match g.lookup(name) {
            Some(SymV::Const(v)) => Ok(v),
            _ => Err(quoted("'"@, name, "' is not a compile-time constant"@)),
        },
        ExprV::Unary { op, expr } => match const_value(g, *expr) {
            Err(e) => Err(e),
            Ok(v) => Ok(eval::unary_value(op, v)),
        },
        ExprV::Binary { op, lhs, rhs } => match const_value(g, *lhs) {
            Err(e) => Err(e),
            Ok(l) => match const_value(g, *rhs) {
                Err(e) => Err(e),
                Ok(r) => match eval::binary_value(op, l, r) {
                    Some(v) => Ok(v),
                    None => if op is Div {
                        Err(error::err_new("div by zero"@))
                    } else {
                        Err(error::err_new("rem by zero"@))
                    },
                },
            },
        },
        _ => Err(error::err_new("not a compile-time constant"@)),
    }
}

/// The values of constant expressions, or the first error among them.
pub open spec fn const_values(g: GenV, es: Seq<ExprV>) -> Result<Seq<i32>, ErrorView>
    decreases es.len(),
{
    if es.len() == 0 {
        Ok(Seq::empty())
    } else {
        match const_values(g, es.drop_last()) {
            Err(e) => Err(e),
            Ok(vs) => match const_value(g, es.last()) {
                Err(e) => Err(e),
                Ok(v) => Ok(vs.push(v)),
            },
        }
    }
}

/// The dimensions of an array parameter; one that is not constant counts as 1.
pub open spec fn param_dims(g: GenV, es: Seq<ExprV>) -> Seq<i32> {
    es.map_values(
        |e: ExprV|
            match const_value(g, e) {
                Ok(v) => v,
                Err(_) => 1i32,
            },
    )
}

/// The type of an array.
pub open spec fn array_type(dims: Seq<i32>) -> IrType
    decreases dims.len(),
{
    if dims.len() == 0 {
        IrType::I32
    } else {
        IrType::Array(Box::new(array_type(dims.drop_first())), dims[0] as u32)
    }
}

/// The size in bytes of what is left of an array after `k` indices, in 32-bit arithmetic.
pub open spec fn size_from(dims: Seq<i32>, k: int) -> i32
    decreases dims.len() - k,
{
    if k < 0 || k >= dims.len() {
        4
    } else {
        dims[k].wrapping_mul(size_from(dims, k + 1))
    }
}

/// The number of elements of an array, where its dimensions are such that it has one.
pub open spec fn total(dims: Seq<i32>) -> Option<usize>
    decreases dims.len(),
{
    if dims.len() == 0 {
        Some(1)
    } else {
        match total(dims.drop_last()) {
            None => None,
            Some(t) => if dims.last() < 0 || t * dims.last() > usize::MAX {
                None
            } else {
                Some((t * dims.last()) as usize)
            },
        }
    }
}

/// The error that an initializer cannot be laid out.
pub open spec fn bad_dims() -> ErrorView {
    error::err_new("invalid array dimension"@)
}

/// A list with zeros added up to a length.
pub open spec fn pad(vals: Seq<i32>, len: int) -> Seq<i32> {
    if vals.len() < len {
        vals + Seq::new((len - vals.len()) as nat, |i: int| 0i32)
    } else {
        vals
    }
}

/// A list with zeros added up to a length, which must be one that a list can have.
pub open spec fn pad_to(vals: Seq<i32>, len: int) -> Result<Seq<i32>, ErrorView> {
    if len > usize::MAX {
        Err(bad_dims())
    } else {
        Ok(pad(vals, len))
    }
}

/// A list with zeros added so that what follows `start` is made of whole rows of `inner` values.
pub open spec fn align(vals: Seq<i32>, start: int, inner: i32) -> Option<Seq<i32>> {
    if inner <= 0 {
        None
    } else {
        Some(pad(vals, vals.len() + (inner - (vals.len() - start) % inner as int) % inner as int))
    }
}

/// The items of an initializer, with zeros added up to a length.
pub open spec fn fill(items: Seq<ExprV>, len: int) -> Seq<ExprV> {
    if items.len() < len {
        items + Seq::new((len - items.len()) as nat, |i: int| ExprV::Int(0))
    } else {
        items
    }
}

/// The items of an initializer, with zeros added up to a length that a list can have.
pub open spec fn fill_to(items: Seq<ExprV>, len: int) -> Result<Seq<ExprV>, ErrorView> {
    if len > usize::MAX {
        Err(bad_dims())
    } else {
        Ok(fill(items, len))
    }
}

/// The items of an initializer, with zeros added so that what follows `start` is made of whole rows
/// of `inner` items.
pub open spec fn fill_rows(items: Seq<ExprV>, start: int, inner: i32) -> Option<Seq<ExprV>> {
    if inner <= 0 {
        None
    } else {
        Some(
            fill(
                items,
                items.len() + (inner - (items.len() - start) % inner as int) % inner as int,
            ),
        )
    }
}

/// The value of an item of a global initializer: that of a constant expression, and zero for
/// anything else.
pub open spec fn const_or_zero(g: GenV, e: ExprV) -> i32 {
    match const_value(g, e) {
        Ok(v) => v,
        Err(_) => 0,
    }
}

/// The items of an initializer of a global array, one for each element.
pub open spec fn global_flat(dims: Seq<i32>, init: ExprV, flat: Seq<ExprV>) -> Result<
    Seq<ExprV>,
    ErrorView,
>
    decreases init, 0int,
{
    if dims.len() == 0 {
        Ok(flat.push(init))
    } else {
        match init {
            ExprV::InitList(items) => match global_flat_items(
                dims,
                items,
                0,
                flat,
                flat.len() as int,
            ) {
                Err(e) => Err(e),
                Ok(all) => match total(dims) {
                    None => Err(bad_dims()),
                    Some(t) => fill_to(all, flat.len() + t),
                },
            },
            _ => Ok(flat.push(init)),
        }
    }
}

/// The items of a braced list from the `k`th on.
pub open spec fn global_flat_items(
    dims: Seq<i32>,
    items: Seq<ExprV>,
    k: int,
    flat: Seq<ExprV>,
    start: int,
) -> Result<Seq<ExprV>, ErrorView>
    decreases items, items.len() - k,
{
    if k < 0 || k >= items.len() {
        Ok(flat)
    } else if items[k] is InitList {
        match fill_rows(flat, start, dims.last()) {
            None => Err(bad_dims()),
            Some(aligned) => if dims.len() > 1 {
                match global_flat(dims.drop_first(), items[k], aligned) {
                    Err(e) => Err(e),
                    Ok(row) => global_flat_items(dims, items, k + 1, row, start),
                }
            } else {
                global_flat_items(dims, items, k + 1, aligned, start)
            },
        }
    } else {
        global_flat_items(dims, items, k + 1, flat.push(items[k]), start)
    }
}

/// The initial value of a global array.
pub open spec fn global_init(g: GenV, dims: Seq<i32>, init: ExprV) -> Result<InitV, ErrorView> {
    match total(dims) {
        None => Err(bad_dims()),
        Some(t) => match global_flat(dims, init, Seq::empty()) {
            Err(e) => Err(e),
            Ok(flat) => Ok(
                InitV::Values(fill(flat, t as int).map_values(|e: ExprV| const_or_zero(g, e))),
            ),
        },
    }
}

/// The items of an initializer of a local array, one for each element.
pub open spec fn local_flat(dims: Seq<i32>, init: ExprV, flat: Seq<ExprV>) -> Result<
    Seq<ExprV>,
    ErrorView,
>
    decreases init, 0int,
{
    if dims.len() == 0 {
        match init {
            ExprV::InitList(_) => Ok(flat),
            _ => Ok(flat.push(init)),
        }
    } else {
        match total(dims) {
            None => Err(bad_dims()),
            Some(t) => match init {
                ExprV::InitList(items) => match local_flat_items(
                    dims,
                    items,
                    0,
                    flat,
                    flat.len() as int,
                ) {
                    Err(e) => Err(e),
                    Ok(all) => fill_to(all, flat.len() + t),
                },
                _ => fill_to(flat.push(init), flat.len() + t),
            },
        }
    }
}

/// The dimensions of the rows of an array.
pub open spec fn row_dims(dims: Seq<i32>) -> Seq<i32> {
    if dims.len() > 1 {
        dims.drop_first()
    } else {
        Seq::empty()
    }
}

/// The length that a list has after a nested braced list that started at `len`.
pub open spec fn row_end(dims: Seq<i32>, len: int) -> Option<int> {
    if dims.len() > 1 {
        match total(dims.drop_first()) {
            None => None,
            Some(t) => Some(len + t),
        }
    } else {
        Some(len + dims.last())
    }
}

/// The items of a braced list from the `k`th on.
pub open spec fn local_flat_items(
    dims: Seq<i32>,
    items: Seq<ExprV>,
    k: int,
    flat: Seq<ExprV>,
    start: int,
) -> Result<Seq<ExprV>, ErrorView>
    decreases items, items.len() - k,
{
    if k < 0 || k >= items.len() {
        Ok(flat)
    } else {
        match items[k] {
            ExprV::InitList(_) => match fill_rows(flat, start, dims.last()) {
                None => Err(bad_dims()),
                Some(aligned) => match local_flat(row_dims(dims), items[k], aligned) {
                    Err(e) => Err(e),
                    Ok(all) => match row_end(dims, aligned.len() as int) {
                        None => Err(bad_dims()),
                        Some(end) => match fill_to(all, end) {
                            Err(e) => Err(e),
                            Ok(row) => local_flat_items(dims, items, k + 1, row, start),
                        },
                    },
                },
            },
            _ => local_flat_items(dims, items, k + 1, flat.push(items[k]), start),
        }
    }
}

/// The address of an element of a local array, by its position among all elements.
pub open spec fn elem_ptr(g: GenV, base: usize, dims: Seq<i32>, flat: i32) -> Step<IrOperand> {
    if dims.len() == 0 {
        Ok((g, IrOperand::Global(base)))
    } else {
        match inner_ptr(g, IrOperand::Global(base), dims, 0) {
            Err(e) => Err(e),
            Ok((g1, p)) => g1.def(
                InstV::GetPtr { dest: 0, ptr: p, index: IrOperand::Int(flat), elem_size: 4 },
            ),
        }
    }
}

/// The address of the first element, from the address of an array after `k` indices.
pub open spec fn inner_ptr(g: GenV, p: IrOperand, dims: Seq<i32>, k: int) -> Step<IrOperand>
    decreases dims.len() - k,
{
    if k >= dims.len() {
        Ok((g, p))
    } else {
        match g.def(
            InstV::GetElemPtr {
                dest: 0,
                ptr: p,
                index: IrOperand::Int(0),
                elem_size: size_from(dims, k + 1),
            },
        ) {
            Err(e) => Err(e),
            Ok((g1, q)) => inner_ptr(g1, q, dims, k + 1),
        }
    }
}

/// Stores of the items from the `i`th on into a local array, each computed before it is stored.
pub open spec fn init_stores(
    g: GenV,
    base: usize,
    dims: Seq<i32>,
    flat: Seq<ExprV>,
    i: int,
    n: int,
) -> Result<GenV, ErrorView>
    decreases n - i,
{
    if i >= n {
        Ok(g)
    } else {
        match expr(g, flat[i]) {
            Err(e) => Err(e),
            Ok((g1, value)) => match elem_ptr(g1, base, dims, (i as usize) as i32) {
                Err(e) => Err(e),
                Ok((g2, p)) => init_stores(
                    g2.emit(InstV::Store { value, ptr: p }),
                    base,
                    dims,
                    flat,
                    i + 1,
                    n,
                ),
            },
        }
    }
}

/// The initialization of a local array.
pub open spec fn array_init(g: GenV, base: usize, dims: Seq<i32>, init: ExprV) -> Result<
    GenV,
    ErrorView,
> {
    match local_flat(dims, init, Seq::empty()) {
        Err(e) => Err(e),
        Ok(flat) => match total(dims) {
            None => Err(bad_dims()),
            Some(t) => init_stores(g, base, dims, fill(flat, t as int), 0, t as int),
        },
    }
}

// ── Expressions ──────────────────────────────────────────────────────────────

/// The number of indices at the end of an expression.
pub open spec fn index_count(e: ExprV) -> int
    decreases e,
{
    match e {
        ExprV::Index { array, .. } => 1 + index_count(*array),
        _ => 0,
    }
}

/// What the name under the indices of an expression stands for.
pub open spec fn base_symbol(g: GenV, e: ExprV) -> Option<SymV>
    decreases e,
{
    match e {
        ExprV::Index { array, .. } => base_symbol(g, *array),
        ExprV::LVal(name) => g.lookup(name),
        _ => None,
    }
}

/// Whether a name stands for an array parameter with fixed inner dimensions.
pub open spec fn is_param(sym: Option<SymV>) -> bool {
    sym matches Some(SymV::NdParam { .. })
}

/// Whether a name stands for a parameter that points to integers.
pub open spec fn is_ptr(sym: Option<SymV>) -> bool {
    sym matches Some(SymV::PtrArray(_))
}

/// The dimensions of what the name under the indices of an expression stands for.
pub open spec fn base_dims(g: GenV, e: ExprV) -> Seq<i32> {
    match base_symbol(g, e) {
        Some(SymV::Array(_, dims)) => dims,
        Some(SymV::NdParam { dims, .. }) => dims,
        _ => Seq::empty(),
    }
}

/// The number of indices that the name under an expression takes to give an integer.
pub open spec fn total_dims(g: GenV, e: ExprV) -> int {
    match base_symbol(g, e) {
        Some(SymV::Array(_, dims)) => dims.len() as int,
        Some(SymV::NdParam { dims, .. }) => 1 + dims.len() as int,
        _ => 1,
    }
}

/// What an indexed address is read as: the element, or the address of the row's first element.
pub open spec fn element(g: GenV, p: IrOperand, whole: bool, row_size: i32) -> Step<IrOperand> {
    if whole {
        g.def(InstV::Load { dest: 0, src: p })
    } else {
        g.def(
            InstV::GetElemPtr {
                dest: 0,
                ptr: p,
                index: IrOperand::Int(0),
                elem_size: row_size,
            },
        )
    }
}

/// The address of an element of the array at `base`.
pub open spec fn array_step(g: GenV, base: IrOperand, index: IrOperand, size: i32) -> Step<
    IrOperand,
> {
    match g.def(
        InstV::GetElemPtr { dest: 0, ptr: base, index: IrOperand::Int(0), elem_size: size },
    ) {
        Err(e) => Err(e),
        Ok((g1, p)) => g1.def(InstV::GetPtr { dest: 0, ptr: p, index, elem_size: size }),
    }
}

/// The instruction of a binary operator other than the short-circuit ones.
pub open spec fn binary_inst(op: BinaryOp, lhs: IrOperand, rhs: IrOperand) -> InstV {
    match op {
        BinaryOp::Add => InstV::Arith { dest: 0, op: IrArithOp::Add, lhs, rhs },
        BinaryOp::Sub => InstV::Arith { dest: 0, op: IrArithOp::Sub, lhs, rhs },
        BinaryOp::Mul => InstV::Arith { dest: 0, op: IrArithOp::Mul, lhs, rhs },
        BinaryOp::Div => InstV::Arith { dest: 0, op: IrArithOp::Div, lhs, rhs },
        BinaryOp::Rem => InstV::Arith { dest: 0, op: IrArithOp::Mod, lhs, rhs },
        BinaryOp::Lt => InstV::Icmp { dest: 0, op: IrCmpOp::Lt, lhs, rhs },
        BinaryOp::Gt => InstV::Icmp { dest: 0, op: IrCmpOp::Gt, lhs, rhs },
        BinaryOp::Le => InstV::Icmp { dest: 0, op: IrCmpOp::Le, lhs, rhs },
        BinaryOp::Ge => InstV::Icmp { dest: 0, op: IrCmpOp::Ge, lhs, rhs },
        BinaryOp::Eq => InstV::Icmp { dest: 0, op: IrCmpOp::Eq, lhs, rhs },
        _ => InstV::Icmp { dest: 0, op: IrCmpOp::Ne, lhs, rhs },
    }
}

/// The truth value of an operand.
pub open spec fn test(g: GenV, v: IrOperand) -> Step<IrOperand> {
    g.def(InstV::Icmp { dest: 0, op: IrCmpOp::Ne, lhs: v, rhs: IrOperand::Int(0) })
}

/// What a called function returns: as the library or the program says, an integer otherwise.
pub open spec fn call_ret(g: GenV, name: Seq<char>) -> Type {
    match codegen::lib_ret(name) {
        Some(t) => t,
        None => if g.func_rets.contains_key(name) {
            g.func_rets[name]
        } else {
            Type::Int
        },
    }
}

/// A call with its arguments evaluated.
pub open spec fn call(g: GenV, name: Seq<char>, args: Seq<IrOperand>) -> Step<IrOperand> {
    let func = g.program.func_names.len() as usize;
    let g1 = GenV {
        program: ProgV { func_names: g.program.func_names.push(name), ..g.program },
        ..g
    };
    if call_ret(g, name) == Type::Void {
        Ok((g1.emit(InstV::Call { dest: None, func, args }), IrOperand::Int(0)))
    } else {
        g1.def(InstV::Call { dest: Some(0), func, args })
    }
}

/// The value of a name.
pub open spec fn name_value(g: GenV, name: Seq<char>) -> Step<IrOperand> {
    match g.lookup(name) {
        Some(SymV::Const(v)) => Ok((g, IrOperand::Int(v))),
        Some(SymV::Var(n)) => g.def(InstV::Load { dest: 0, src: IrOperand::Global(n) }),
        Some(SymV::Array(n, dims)) => g.def(
            InstV::GetElemPtr {
                dest: 0,
                ptr: IrOperand::Global(n),
                index: IrOperand::Int(0),
                elem_size: size_from(dims, 1),
            },
        ),
        Some(SymV::PtrArray(n)) => Ok((g, IrOperand::Global(n))),
        Some(SymV::NdParam { name: n, .. }) => Ok((g, IrOperand::Global(n))),
        None => Err(quoted("undefined identifier '"@, name, "'"@)),
    }
}

/// The address a name stands for.
pub open spec fn name_base(g: GenV, name: Seq<char>) -> Result<IrOperand, ErrorView> {
    match g.lookup(name) {
        Some(SymV::Var(n)) => Ok(IrOperand::Global(n)),
        Some(SymV::Array(n, _)) => Ok(IrOperand::Global(n)),
        Some(SymV::PtrArray(n)) => Ok(IrOperand::Global(n)),
        Some(SymV::NdParam { name: n, .. }) => Ok(IrOperand::Global(n)),
        _ => Err(quoted("'"@, name, "' is not an lvalue"@)),
    }
}

/// The value of an expression.
pub open spec fn expr(g: GenV, e: ExprV) -> Step<IrOperand>
    decreases e, 2int,
{
    match e {
        ExprV::Int(n) => Ok((g, IrOperand::Int(n))),
        ExprV::LVal(name) => name_value(g, name),
        ExprV::Unary { op, expr: x } => match expr(g, *x) {
            Err(e) => Err(e),
            Ok((g1, v)) => match op {
                UnaryOp::Plus => Ok((g1, v)),
                UnaryOp::Minus => g1.def(
                    InstV::Arith { dest: 0, op: IrArithOp::Sub, lhs: IrOperand::Int(0), rhs: v },
                ),
                UnaryOp::Not => g1.def(
                    InstV::Icmp { dest: 0, op: IrCmpOp::Eq, lhs: v, rhs: IrOperand::Int(0) },
                ),
            },
        },
        ExprV::Binary { op, lhs, rhs } => if op == BinaryOp::And || op == BinaryOp::Or {
            match g.short_circuit() {
                Err(e) => Err(e),
                Ok((g1, sc)) => match expr(g1, *lhs) {
                    Err(e) => Err(e),
                    Ok((g2, l)) => match branch_cond(g2, l) {
                        Err(e) => Err(e),
                        Ok((g3, cond)) => match g3.labels() {
                            Err(e) => Err(e),
                            Ok((g4, (a, b, end))) => {
                                let g5 = if op == BinaryOp::And {
                                    g4.emit(InstV::Br { cond, then_bb: a, else_bb: b }).start(a)
                                } else {
                                    decided(
                                        g4.emit(InstV::Br { cond, then_bb: a, else_bb: b }).start(
                                            a,
                                        ),
                                        1,
                                        sc,
                                        end,
                                    ).start(b)
                                };
                                match expr(g5, *rhs) {
                                    Err(e) => Err(e),
                                    Ok((g6, r)) => match test(g6, r) {
                                        Err(e) => Err(e),
                                        Ok((g7, t)) => {
                                            let g8 = g7.emit(
                                                InstV::Store {
                                                    value: t,
                                                    ptr: IrOperand::Global(sc),
                                                },
                                            ).emit(InstV::Jump { target: end });
                                            let g9 = if op == BinaryOp::And {
                                                decided(g8.start(b), 0, sc, end)
                                            } else {
                                                g8
                                            };
                                            g9.start(end).def(
                                                InstV::Load {
                                                    dest: 0,
                                                    src: IrOperand::Global(sc),
                                                },
                                            )
                                        },
                                    },
                                }
                            },
                        },
                    },
                },
            }
        } else {
            match expr(g, *lhs) {
                Err(e) => Err(e),
                Ok((g1, l)) => match expr(g1, *rhs) {
                    Err(e) => Err(e),
                    Ok((g2, r)) => g2.def(binary_inst(op, l, r)),
                },
            }
        },
        ExprV::Call { name, args } => match call_args(g, args, 0, Seq::empty()) {
            Err(e) => Err(e),
            Ok((g1, vals)) => call(g1, name, vals),
        },
        ExprV::Index { .. } => index_value(g, e),
        ExprV::InitList(_) => Err(error::err_new("init list not allowed here"@)),
        ExprV::Asm(code) => g.def(InstV::Asm { dest: Some(0), code }),
    }
}

/// The value of an indexed array.
pub open spec fn index_value(g: GenV, e: ExprV) -> Step<IrOperand>
    decreases e, 1int,
{
    match e {
        ExprV::Index { array, index } => if is_param(base_symbol(g, e)) {
            match param_ptr(g, e) {
                Err(e) => Err(e),
                Ok((g1, p)) => element(
                    g1,
                    p,
                    index_count(e) >= total_dims(g, e),
                    size_from(base_dims(g, e), index_count(e)),
                ),
            }
        } else {
            let dims = base_dims(g, *array);
            let depth = index_count(*array);
            match expr(g, *index) {
                Err(e) => Err(e),
                Ok((g1, i)) => match base(g1, *array) {
                    Err(e) => Err(e),
                    Ok((g2, b)) => match index_step(
                        g2,
                        *array is LVal && is_ptr(base_symbol(g, *array)),
                        b,
                        i,
                        size_from(dims, depth + 1),
                    ) {
                        Err(e) => Err(e),
                        Ok((g3, p)) => element(
                            g3,
                            p,
                            1 + depth >= total_dims(g, *array),
                            size_from(dims, depth + 2),
                        ),
                    },
                },
            }
        },
        _ => Err(error::err_new("invalid array access"@)),
    }
}

/// The address of an element behind a pointer or of an array.
pub open spec fn index_step(
    g: GenV,
    pointer: bool,
    base: IrOperand,
    index: IrOperand,
    size: i32,
) -> Step<IrOperand> {
    if pointer {
        g.def(InstV::GetPtr { dest: 0, ptr: base, index, elem_size: size })
    } else {
        array_step(g, base, index, size)
    }
}

/// The branch of a short-circuit operator that needs no second operand.
pub open spec fn decided(g: GenV, value: i32, sc: usize, end: usize) -> GenV {
    g.emit(
        InstV::Store { value: IrOperand::Int(value), ptr: IrOperand::Global(sc) },
    ).emit(InstV::Jump { target: end })
}

/// The condition of the branch of a short-circuit operator.
pub open spec fn branch_cond(g: GenV, v: IrOperand) -> Step<IrOperand> {
    match v {
        IrOperand::Int(n) => Ok((g, IrOperand::Int(eval::truth(n != 0)))),
        _ => test(g, v),
    }
}

/// The values of the arguments of a call from the `k`th on.
pub open spec fn call_args(
    g: GenV,
    args: Seq<ExprV>,
    k: int,
    done: Seq<IrOperand>,
) -> Step<Seq<IrOperand>>
    decreases args, args.len() - k,
{
    if k < 0 || k >= args.len() {
        Ok((g, done))
    } else {
        match expr(g, args[k]) {
            Err(e) => Err(e),
            Ok((g1, v)) => call_args(g1, args, k + 1, done.push(v)),
        }
    }
}

/// The address of an indexed array parameter: `getptr` for the first index, `getelemptr` for each
/// further one.
pub open spec fn param_ptr(g: GenV, e: ExprV) -> Step<IrOperand>
    decreases e, 0int,
{
    match e {
        ExprV::Index { array, index } => match *array {
            ExprV::LVal(name) => match g.lookup(name) {
                Some(SymV::NdParam { name: n, dims }) => match expr(g, *index) {
                    Err(e) => Err(e),
                    Ok((g1, i)) => g1.def(
                        InstV::GetPtr {
                            dest: 0,
                            ptr: IrOperand::Global(n),
                            index: i,
                            elem_size: size_from(dims, 0),
                        },
                    ),
                },
                _ => Err(error::err_new("expected NdParam"@)),
            },
            _ => match param_ptr(g, *array) {
                Err(e) => Err(e),
                Ok((g1, p)) => match expr(g1, *index) {
                    Err(e) => Err(e),
                    Ok((g2, i)) => g2.def(
                        InstV::GetElemPtr {
                            dest: 0,
                            ptr: p,
                            index: i,
                            elem_size: size_from(base_dims(g, *array), index_count(*array)),
                        },
                    ),
                },
            },
        },
        _ => Err(error::err_new("invalid array access"@)),
    }
}

/// The address that an expression under an index stands for.
pub open spec fn base(g: GenV, e: ExprV) -> Step<IrOperand>
    decreases e, 0int,
{
    match e {
        ExprV::LVal(name) => match name_base(g, name) {
            Err(e) => Err(e),
            Ok(b) => Ok((g, b)),
        },
        ExprV::Index { array, index } => match expr(g, *index) {
            Err(e) => Err(e),
            Ok((g1, i)) => match base(g1, *array) {
                Err(e) => Err(e),
                Ok((g2, b)) => array_step(
                    g2,
                    b,
                    i,
                    size_from(base_dims(g, *array), index_count(*array) + 1),
                ),
            },
        },
        _ => Err(error::err_new("not an lvalue"@)),
    }
}

// ── Declarations ─────────────────────────────────────────────────────────────

/// Whether the innermost scope binds a name.
pub open spec fn declared(g: GenV, name: Seq<char>) -> bool {
    g.scopes.len() > 0 && g.scopes.last().contains_key(name)
}

/// A new array of the function, bound to a name.
pub open spec fn new_array(g: GenV, name: Seq<char>, mangled: Seq<char>, dims: Seq<i32>) -> Step<
    usize,
> {
    match g.intern(mangled) {
        Err(e) => Err(e),
        Ok((g1, n)) => Ok(
            (g1.pend(n, array_type(dims)).bind(name, SymV::Array(n, dims)), n),
        ),
    }
}

/// A constant definition in a function.
pub open spec fn const_def(g: GenV, d: ConstDefV) -> Result<GenV, ErrorView> {
    if declared(g, d.name) {
        Err(quoted("redeclaration of '"@, d.name, "'"@))
    } else if d.dims.len() == 0 && !(d.init is InitList) {
        match const_value(g, d.init) {
            Err(e) => Err(e),
            Ok(v) => Ok(g.bind(d.name, SymV::Const(v))),
        }
    } else {
        match g.local_name(d.name) {
            Err(e) => Err(e),
            Ok((g1, mangled)) => match const_values(g1, d.dims) {
                Err(e) => Err(e),
                Ok(dims) => match new_array(g1, d.name, mangled, dims) {
                    Err(e) => Err(e),
                    Ok((g2, n)) => array_init(g2, n, dims, d.init),
                },
            },
        }
    }
}

/// A variable definition in a function.
pub open spec fn var_def(g: GenV, d: VarDefV) -> Result<GenV, ErrorView> {
    if declared(g, d.name) {
        Err(quoted("redeclaration of '"@, d.name, "'"@))
    } else {
        match g.local_name(d.name) {
            Err(e) => Err(e),
            Ok((g1, mangled)) => if d.dims.len() == 0 {
                match g1.intern(mangled) {
                    Err(e) => Err(e),
                    Ok((g2, n)) => {
                        let g3 = g2.pend(n, IrType::I32);
                        match d.init {
                            None => Ok(g3.bind(d.name, SymV::Var(n))),
                            Some(init) => match expr(g3, init) {
                                Err(e) => Err(e),
                                Ok((g4, v)) => Ok(
                                    g4.emit(
                                        InstV::Store { value: v, ptr: IrOperand::Global(n) },
                                    ).bind(d.name, SymV::Var(n)),
                                ),
                            },
                        }
                    },
                }
            } else {
                match const_values(g1, d.dims) {
                    Err(e) => Err(e),
                    Ok(dims) => match new_array(g1, d.name, mangled, dims) {
                        Err(e) => Err(e),
                        Ok((g2, n)) => match d.init {
                            None => Ok(g2),
                            Some(init) => array_init(g2, n, dims, init),
                        },
                    },
                }
            },
        }
    }
}

/// The constant definitions from the `k`th on.
pub open spec fn const_defs(g: GenV, defs: Seq<ConstDefV>, k: int) -> Result<GenV, ErrorView>
    decreases defs.len() - k,
{
    if k < 0 || k >= defs.len() {
        Ok(g)
    } else {
        match const_def(g, defs[k]) {
            Err(e) => Err(e),
            Ok(g1) => const_defs(g1, defs, k + 1),
        }
    }
}

/// The variable definitions from the `k`th on.
pub open spec fn var_defs(g: GenV, defs: Seq<VarDefV>, k: int) -> Result<GenV, ErrorView>
    decreases defs.len() - k,
{
    if k < 0 || k >= defs.len() {
        Ok(g)
    } else {
        match var_def(g, defs[k]) {
            Err(e) => Err(e),
            Ok(g1) => var_defs(g1, defs, k + 1),
        }
    }
}

/// A declaration in a function.
pub open spec fn decl(g: GenV, d: DeclV) -> Result<GenV, ErrorView> {
    match d {
        DeclV::Const(defs) => const_defs(g, defs, 0),
        DeclV::Var(defs) => var_defs(g, defs, 0),
    }
}

// ── Statements ───────────────────────────────────────────────────────────────

/// The address of an indexed array parameter, from the `k`th index on.
pub open spec fn param_target(
    g: GenV,
    p: IrOperand,
    dims: Seq<i32>,
    index: Seq<ExprV>,
    k: int,
) -> Step<IrOperand>
    decreases index.len() - k,
{
    if k < 0 || k >= index.len() {
        Ok((g, p))
    } else {
        match expr(g, index[k]) {
            Err(e) => Err(e),
            Ok((g1, i)) => match g1.def(
                InstV::GetElemPtr { dest: 0, ptr: p, index: i, elem_size: size_from(dims, k) },
            ) {
                Err(e) => Err(e),
                Ok((g2, q)) => param_target(g2, q, dims, index, k + 1),
            },
        }
    }
}

/// The address of an indexed array or pointer, from the `k`th index on.
pub open spec fn array_target(
    g: GenV,
    p: IrOperand,
    pointer: bool,
    dims: Seq<i32>,
    index: Seq<ExprV>,
    k: int,
) -> Step<IrOperand>
    decreases index.len() - k,
{
    if k < 0 || k >= index.len() {
        Ok((g, p))
    } else {
        match expr(g, index[k]) {
            Err(e) => Err(e),
            Ok((g1, i)) => match index_step(g1, pointer, p, i, size_from(dims, k + 1)) {
                Err(e) => Err(e),
                Ok((g2, q)) => array_target(g2, q, pointer, dims, index, k + 1),
            },
        }
    }
}

/// A store to an address.
pub open spec fn store_to(r: Step<IrOperand>, value: IrOperand) -> Result<GenV, ErrorView> {
    match r {
        Err(e) => Err(e),
        Ok((g, p)) => Ok(g.emit(InstV::Store { value, ptr: p })),
    }
}

/// An assignment to an element.
pub open spec fn array_assign(g: GenV, name: Seq<char>, index: Seq<ExprV>, e: ExprV) -> Result<
    GenV,
    ErrorView,
> {
    match g.lookup(name) {
        Some(SymV::NdParam { name: n, dims }) => match expr(g, e) {
            Err(e) => Err(e),
            Ok((g1, v)) => match expr(g1, index[0]) {
                Err(e) => Err(e),
                Ok((g2, i)) => match g2.def(
                    InstV::GetPtr {
                        dest: 0,
                        ptr: IrOperand::Global(n),
                        index: i,
                        elem_size: size_from(dims, 0),
                    },
                ) {
                    Err(e) => Err(e),
                    Ok((g3, p)) => store_to(param_target(g3, p, dims, index, 1), v),
                },
            },
        },
        Some(SymV::Array(n, dims)) => match expr(g, e) {
            Err(e) => Err(e),
            Ok((g1, v)) => store_to(
                array_target(g1, IrOperand::Global(n), false, dims, index, 0),
                v,
            ),
        },
        Some(SymV::PtrArray(n)) => match expr(g, e) {
            Err(e) => Err(e),
            Ok((g1, v)) => store_to(
                array_target(g1, IrOperand::Global(n), true, Seq::empty(), index, 0),
                v,
            ),
        },
        _ => Err(quoted("'"@, name, "' is not an array"@)),
    }
}

/// An assignment.
pub open spec fn assign(g: GenV, name: Seq<char>, index: Seq<ExprV>, e: ExprV) -> Result<
    GenV,
    ErrorView,
> {
    if index.len() > 0 {
        array_assign(g, name, index, e)
    } else {
        match g.lookup(name) {
            Some(SymV::Var(n)) => match expr(g, e) {
                Err(e) => Err(e),
                Ok((g1, v)) => Ok(
                    g1.emit(InstV::Store { value: v, ptr: IrOperand::Global(n) }),
                ),
            },
            Some(SymV::Const(_)) => Err(quoted("cannot assign to constant '"@, name, "'"@)),
            None => Err(quoted("undefined variable '"@, name, "'"@)),
            _ => Err(quoted("cannot assign to array '"@, name, "' without index"@)),
        }
    }
}

/// The state after a jump, where the current block has no terminator yet.
pub open spec fn jump_on(g: GenV, target: usize) -> GenV {
    if g.b.terminated {
        g
    } else {
        g.emit(InstV::Jump { target })
    }
}

/// A statement.
pub open spec fn stmt(g: GenV, s: StmtV) -> Result<GenV, ErrorView>
    decreases s,
{
    match s {
        StmtV::Return(None) => Ok(g.emit(InstV::Ret { value: None })),
        StmtV::Return(Some(e)) => match expr(g, e) {
            Err(e) => Err(e),
            Ok((g1, v)) => Ok(g1.emit(InstV::Ret { value: Some(v) })),
        },
        StmtV::Assign { name, index, expr } => assign(g, name, index, expr),
        StmtV::Expr(e) => match expr(g, e) {
            Err(e) => Err(e),
            Ok((g1, _)) => Ok(g1),
        },
        StmtV::Block(items) => match block(
            GenV { scopes: g.scopes.push(Map::empty()), ..g },
            items,
            0,
        ) {
            Err(e) => Err(e),
            Ok(g1) => Ok(GenV { scopes: g1.scopes.drop_last(), ..g1 }),
        },
        StmtV::If { cond, then_branch, else_branch } => match expr(g, cond) {
            Err(e) => Err(e),
            Ok((g1, c)) => match g1.labels() {
                Err(e) => Err(e),
                Ok((g2, (yes, no, end))) => {
                    let target = if else_branch is Some {
                        no
                    } else {
                        end
                    };
                    let g3 = g2.emit(
                        InstV::Br { cond: c, then_bb: yes, else_bb: target },
                    ).start(yes);
                    match stmt(g3, *then_branch) {
                        Err(e) => Err(e),
                        Ok(g4) => {
                            let g5 = jump_on(g4, end);
                            match else_branch {
                                None => Ok(g5.start(end)),
                                Some(els) => match stmt(g5.start(no), *els) {
                                    Err(e) => Err(e),
                                    Ok(g6) => if g4.b.terminated && g6.b.terminated {
                                        Ok(g6)
                                    } else {
                                        Ok(jump_on(g6, end).start(end))
                                    },
                                },
                            }
                        },
                    }
                },
            },
        },
        StmtV::While { cond, body } => match g.labels() {
            Err(e) => Err(e),
            Ok((g1, (entry, inside, end))) => match expr(
                g1.emit(InstV::Jump { target: entry }).start(entry),
                cond,
            ) {
                Err(e) => Err(e),
                Ok((g2, c)) => {
                    let g3 = g2.emit(InstV::Br { cond: c, then_bb: inside, else_bb: end });
                    let g4 = GenV { loops: g3.loops.push((entry, end)), ..g3 }.start(inside);
                    match stmt(g4, *body) {
                        Err(e) => Err(e),
                        Ok(g5) => Ok(
                            GenV { loops: g5.loops.drop_last(), ..jump_on(g5, entry) }.start(end),
                        ),
                    }
                },
            },
        },
        StmtV::Break => if g.loops.len() == 0 {
            Err(error::err_new("'break' outside of loop"@))
        } else {
            Ok(g.emit(InstV::Jump { target: g.loops.last().1 }))
        },
        StmtV::Continue => if g.loops.len() == 0 {
            Err(error::err_new("'continue' outside of loop"@))
        } else {
            Ok(g.emit(InstV::Jump { target: g.loops.last().0 }))
        },
        StmtV::Empty => Ok(g),
        StmtV::Asm(code) => Ok(g.emit(InstV::Asm { dest: None, code })),
    }
}

/// The items of a block from the `k`th on, up to one that ends the control flow.
pub open spec fn block(g: GenV, items: Seq<BlockItemV>, k: int) -> Result<GenV, ErrorView>
    decreases items, items.len() - k,
{
    if k < 0 || k >= items.len() || g.b.terminated {
        Ok(g)
    } else {
        match (match items[k] {
            BlockItemV::Stmt(s) => stmt(g, s),
            BlockItemV::Decl(d) => decl(g, d),
        }) {
            Err(e) => Err(e),
            Ok(g1) => block(g1, items, k + 1),
        }
    }
}

// ── Library declarations ─────────────────────────────────────────────────────

/// Whether a function is declared already.
pub open spec fn has_decl(decls: Seq<FuncDeclIrV>, name: usize) -> bool {
    exists|i: int| 0 <= i < decls.len() && (#[trigger] decls[i]).name == name
}

/// The declaration of a function of the runtime library at its first call.
pub open spec fn lib_call(g: GenV, name: Seq<char>) -> GenV {
    if codegen::lib_ret(name) is Some && !g.lib_emitted.contains_key(name) {
        let func = g.program.func_names.len() as usize;
        let d = FuncDeclIrV {
            name: func,
            param_types: codegen::lib_params(name),
            ret_type: if codegen::lib_ret(name) == Some(Type::Int) {
                IrType::I32
            } else {
                IrType::Void
            },
        };
        GenV {
            lib_emitted: g.lib_emitted.insert(name, true),
            program: ProgV {
                func_names: g.program.func_names.push(name),
                func_decls: if has_decl(g.program.func_decls, func) {
                    g.program.func_decls
                } else {
                    g.program.func_decls.push(d)
                },
                ..g.program
            },
            ..g
        }
    } else {
        g
    }
}

/// The library declarations for an expression; the arguments of a call are not looked into.
pub open spec fn lib_expr(g: GenV, e: ExprV) -> GenV
    decreases e, 0int,
{
    match e {
        ExprV::Call { name, .. } => lib_call(g, name),
        ExprV::Binary { lhs, rhs, .. } => lib_expr(lib_expr(g, *lhs), *rhs),
        ExprV::Unary { expr, .. } => lib_expr(g, *expr),
        ExprV::Index { array, index } => lib_expr(lib_expr(g, *array), *index),
        ExprV::InitList(items) => lib_exprs(g, items, 0),
        _ => g,
    }
}

/// The library declarations for the expressions from the `k`th on.
pub open spec fn lib_exprs(g: GenV, es: Seq<ExprV>, k: int) -> GenV
    decreases es, es.len() - k,
{
    if k < 0 || k >= es.len() {
        g
    } else {
        lib_exprs(lib_expr(g, es[k]), es, k + 1)
    }
}

/// The library declarations for a declaration.
pub open spec fn lib_decl(g: GenV, d: DeclV, k: int) -> GenV
    decreases
            (match d {
                DeclV::Const(defs) => defs.len(),
                DeclV::Var(defs) => defs.len(),
            }) - k,
{
    match d {
        DeclV::Const(defs) => if k < 0 || k >= defs.len() {
            g
        } else {
            lib_decl(lib_expr(g, defs[k].init), d, k + 1)
        },
        DeclV::Var(defs) => if k < 0 || k >= defs.len() {
            g
        } else {
            match defs[k].init {
                Some(init) => lib_decl(lib_expr(g, init), d, k + 1),
                None => lib_decl(g, d, k + 1),
            }
        },
    }
}

/// The library declarations for a statement.
pub open spec fn lib_stmt(g: GenV, s: StmtV) -> GenV
    decreases s, 0int,
{
    match s {
        StmtV::Return(Some(e)) => lib_expr(g, e),
        StmtV::Assign { expr, .. } => lib_expr(g, expr),
        StmtV::Expr(e) => lib_expr(g, e),
        StmtV::Block(items) => lib_block(g, items, 0),
        StmtV::If { cond, then_branch, else_branch } => {
            let g1 = lib_stmt(lib_expr(g, cond), *then_branch);
            match else_branch {
                Some(els) => lib_stmt(g1, *els),
                None => g1,
            }
        },
        StmtV::While { cond, body } => lib_stmt(lib_expr(g, cond), *body),
        _ => g,
    }
}

/// The library declarations for the items of a block from the `k`th on.
pub open spec fn lib_block(g: GenV, items: Seq<BlockItemV>, k: int) -> GenV
    decreases items, items.len() - k,
{
    if k < 0 || k >= items.len() {
        g
    } else {
        let g1 = match items[k] {
            BlockItemV::Stmt(s) => lib_stmt(g, s),
            BlockItemV::Decl(d) => lib_decl(g, d, 0),
        };
        lib_block(g1, items, k + 1)
    }
}

// ── Functions and programs ───────────────────────────────────────────────────

/// A parameter of a function: its name and type in the signature.
pub open spec fn param(g: GenV, p: FuncParamV) -> Step<(usize, IrType)> {
    match g.local_name(p.name) {
        Err(e) => Err(e),
        Ok((g1, first)) => if p.is_array {
            match g1.intern(first) {
                Err(e) => Err(e),
                Ok((g2, n)) => if p.array_dims.len() == 0 {
                    Ok((g2.bind(p.name, SymV::PtrArray(n)), (n, codegen::int_ptr())))
                } else {
                    let dims = param_dims(g2, p.array_dims);
                    Ok(
                        (
                            g2.bind(p.name, SymV::NdParam { name: n, dims }),
                            (n, IrType::Ptr(Box::new(array_type(dims)))),
                        ),
                    )
                },
            }
        } else {
            match g1.mangle(p.name) {
                Err(e) => Err(e),
                Ok((g2, second)) => match g2.intern(first) {
                    Err(e) => Err(e),
                    Ok((g3, sig)) => match g3.intern(second) {
                        Err(e) => Err(e),
                        Ok((g4, n)) => Ok(
                            (
                                g4.pend(n, IrType::I32).emit(
                                    InstV::Store {
                                        value: IrOperand::Global(sig),
                                        ptr: IrOperand::Global(n),
                                    },
                                ).bind(p.name, SymV::Var(n)),
                                (sig, IrType::I32),
                            ),
                        ),
                    },
                },
            }
        },
    }
}

/// The parameters of a function from the `k`th on.
pub open spec fn params(
    g: GenV,
    ps: Seq<FuncParamV>,
    k: int,
    done: Seq<(usize, IrType)>,
) -> Step<Seq<(usize, IrType)>>
    decreases ps.len() - k,
{
    if k < 0 || k >= ps.len() {
        Ok((g, done))
    } else {
        match param(g, ps[k]) {
            Err(e) => Err(e),
            Ok((g1, p)) => params(g1, ps, k + 1, done.push(p)),
        }
    }
}

/// The type of what a function returns.
pub open spec fn ret_type(t: Type) -> IrType {
    match t {
        Type::Void => IrType::Void,
        Type::Int => IrType::I32,
    }
}

/// The state at the start of a function.
pub open spec fn enter(g: GenV, f: FuncDefV) -> GenV {
    GenV {
        program: ProgV { func_names: g.program.func_names.push(f.name), ..g.program },
        scopes: seq![Map::empty()],
        counts: Map::empty(),
        loops: Seq::empty(),
        ret_type: ret_type(f.ret_type),
        b: ir_builder::new_builder(
            g.program.func_names.len() as usize,
            Seq::empty(),
            ret_type(f.ret_type),
            g.program.local_names.len() as usize,
            g.program.global_names.len() as usize,
            g.program.block_names.len() as usize,
            (g.program.func_names.len() + 1) as usize,
        ),
        ..g
    }
}

/// The builder between functions.
pub open spec fn idle() -> BuilderV {
    ir_builder::new_builder(0, Seq::empty(), IrType::I32, 0, 0, 0, 0)
}

/// The state after the end of a function, which returns where it has not yet.
pub open spec fn leave(g: GenV, ps: Seq<(usize, IrType)>) -> GenV {
    let b = if g.b.terminated {
        g.b
    } else if g.ret_type is Void {
        g.b.push(InstV::Ret { value: None })
    } else {
        g.b.push(InstV::Ret { value: Some(IrOperand::Int(0)) })
    };
    GenV {
        program: ProgV {
            local_names: g.program.local_names + b.names.local_names,
            global_names: g.program.global_names + b.names.global_names,
            block_names: g.program.block_names + b.names.block_names,
            func_names: g.program.func_names + b.names.func_names,
            funcs: g.program.funcs.push(FuncV { params: ps, ..b.built() }),
            ..g.program
        },
        b: idle(),
        ..g
    }
}

/// A function.
pub open spec fn func(g: GenV, f: FuncDefV) -> Result<GenV, ErrorView> {
    if g.program.block_names.len() >= usize::MAX || g.program.global_names.len() > usize::MAX {
        Err(too_large())
    } else {
        match params(enter(g, f), f.params, 0, Seq::empty()) {
            Err(e) => Err(e),
            Ok((g1, ps)) => match block(lib_block(g1, f.body, 0), f.body, 0) {
                Err(e) => Err(e),
                Ok(g2) => Ok(leave(g2, ps)),
            },
        }
    }
}

/// A new global variable, bound to a name.
pub open spec fn new_global(g: GenV, name: Seq<char>, ty: IrType, init: InitV, sym: SymV) -> GenV {
    GenV {
        program: ProgV {
            global_names: ir::global_interned(g.program.global_names, name),
            globals: g.program.globals.push(GlobalV { name: global_index(g, name), ty, init }),
            ..g.program
        },
        globals: g.globals.insert(name, sym),
        ..g
    }
}

/// The index that the name of a global variable has once it is interned.
pub open spec fn global_index(g: GenV, name: Seq<char>) -> usize {
    text::position(ir::global_interned(g.program.global_names, name), ir::global_mark(name))->0
}

/// A global array.
pub open spec fn global_array(g: GenV, name: Seq<char>, dims: Seq<i32>, init: InitV) -> GenV {
    new_global(g, name, array_type(dims), init, SymV::Array(global_index(g, name), dims))
}

/// A constant definition at the top level.
pub open spec fn global_const(g: GenV, d: ConstDefV) -> Result<GenV, ErrorView> {
    if d.dims.len() == 0 && !(d.init is InitList) {
        match const_value(g, d.init) {
            Err(e) => Err(e),
            Ok(v) => Ok(GenV { globals: g.globals.insert(d.name, SymV::Const(v)), ..g }),
        }
    } else {
        match const_values(g, d.dims) {
            Err(e) => Err(e),
            Ok(dims) => match global_init(g, dims, d.init) {
                Err(e) => Err(e),
                Ok(init) => Ok(global_array(g, d.name, dims, init)),
            },
        }
    }
}

/// A variable definition at the top level.
pub open spec fn global_var(g: GenV, d: VarDefV) -> Result<GenV, ErrorView> {
    if d.dims.len() == 0 {
        match (match d.init {
            None => Ok(0i32),
            Some(init) => const_value(g, init),
        }) {
            Err(e) => Err(e),
            Ok(v) => Ok(
                new_global(
                    g,
                    d.name,
                    IrType::I32,
                    InitV::Values(seq![v]),
                    SymV::Var(global_index(g, d.name)),
                ),
            ),
        }
    } else {
        match const_values(g, d.dims) {
            Err(e) => Err(e),
            Ok(dims) => match (match d.init {
                None => Ok(InitV::Zero),
                Some(init) => global_init(g, dims, init),
            }) {
                Err(e) => Err(e),
                Ok(init) => Ok(global_array(g, d.name, dims, init)),
            },
        }
    }
}

/// The definitions of a declaration at the top level from the `k`th on.
pub open spec fn global_decl(g: GenV, d: DeclV, k: int) -> Result<GenV, ErrorView>
    decreases
            (match d {
                DeclV::Const(defs) => defs.len(),
                DeclV::Var(defs) => defs.len(),
            }) - k,
{
    match d {
        DeclV::Const(defs) => if k < 0 || k >= defs.len() {
            Ok(g)
        } else {
            match global_const(g, defs[k]) {
                Err(e) => Err(e),
                Ok(g1) => global_decl(g1, d, k + 1),
            }
        },
        DeclV::Var(defs) => if k < 0 || k >= defs.len() {
            Ok(g)
        } else {
            match global_var(g, defs[k]) {
                Err(e) => Err(e),
                Ok(g1) => global_decl(g1, d, k + 1),
            }
        },
    }
}

/// The global variables and function signatures of the items from the `k`th on.
pub open spec fn signatures(g: GenV, items: Seq<GlobalItemV>, k: int) -> Result<GenV, ErrorView>
    decreases items.len() - k,
{
    if k < 0 || k >= items.len() {
        Ok(g)
    } else {
        match items[k] {
            GlobalItemV::FuncDef(f) => signatures(
                GenV { func_rets: g.func_rets.insert(f.name, f.ret_type), ..g },
                items,
                k + 1,
            ),
            GlobalItemV::FuncDecl(f) => signatures(
                GenV { func_rets: g.func_rets.insert(f.name, f.ret_type), ..g },
                items,
                k + 1,
            ),
            GlobalItemV::Decl(d) => match global_decl(g, d, 0) {
                Err(e) => Err(e),
                Ok(g1) => signatures(g1, items, k + 1),
            },
        }
    }
}

/// The functions of the items from the `k`th on.
pub open spec fn functions(g: GenV, items: Seq<GlobalItemV>, k: int) -> Result<GenV, ErrorView>
    decreases items.len() - k,
{
    if k < 0 || k >= items.len() {
        Ok(g)
    } else {
        match items[k] {
            GlobalItemV::FuncDef(f) => match func(g, f) {
                Err(e) => Err(e),
                Ok(g1) => functions(g1, items, k + 1),
            },
            _ => functions(g, items, k + 1),
        }
    }
}

/// The state before anything has been translated.
pub open spec fn start() -> GenV {
    GenV {
        program: ir::empty_program(),
        scopes: seq![Map::empty()],
        globals: Map::empty(),
        counts: Map::empty(),
        loops: Seq::empty(),
        ret_type: IrType::I32,
        lib_emitted: Map::empty(),
        func_rets: Map::empty(),
        b: idle(),
    }
}

/// The program that a syntax tree is translated to.
pub open spec fn program(items: Seq<GlobalItemV>) -> Result<ProgV, ErrorView> {
    match signatures(start(), items, 0) {
        Err(e) => Err(e),
        Ok(g) => match functions(g, items, 0) {
            Err(e) => Err(e),
            Ok(g1) => Ok(g1.program),
        },
    }
}

} // verus!

//! What each construct of the language is written as in Koopa IR, straight from the syntax tree.
//!
//! A step takes the state of the generator and gives the state after it, or the error that the
//! generation ends in.

use crate::ast::{
    BinaryOp, BlockItemV, ConstDefV, DeclV, ExprV, FuncDefV, FuncParamV, GlobalItemV, StmtV, Type,
    UnaryOp, VarDefV,
};
use crate::codegen;
use crate::error::{self, ErrorView};
use crate::eval;
use crate::ir::{self, IrType};
use crate::ir_to_koopa;
use crate::scopes::{self, ScopesV};
use crate::text;
use crate::translate;
use vstd::prelude::*;

verus! {

/// What a name stands for.
#[verifier::ext_equal]
pub enum SymbolV {
    Const(i32),
    /// A variable, by its name in the output.
    Var(Seq<char>),
    /// An array, and the number of its dimensions.
    Array(Seq<char>, nat),
    /// A parameter that points to integers.
    PtrArray(Seq<char>),
    /// A parameter that points to arrays of the given dimensions.
    NdParam { name: Seq<char>, dims: Seq<i32> },
}

/// The state of the generator.
#[verifier::ext_equal]
pub struct KoopaV {
    pub scopes: ScopesV<SymbolV>,
    /// How often each name has been used in the current function.
    pub counts: Map<Seq<char>, usize>,
    pub tmp: usize,
    pub label: usize,
    pub sc: usize,
    /// For each enclosing loop, the label it starts at and the label after it.
    pub loops: Seq<(Seq<char>, Seq<char>)>,
    /// The instructions of the current function.
    pub body: Seq<char>,
    /// The variables of the current function.
    pub allocs: Seq<char>,
    /// Declarations of library functions that are not written yet.
    pub decls: Seq<char>,
    /// The library functions that are declared.
    pub declared: Map<Seq<char>, bool>,
    /// Global variables that are not written yet.
    pub global_decls: Seq<char>,
    pub func_rets: Map<Seq<char>, Type>,
    /// Whether the current block has ended.
    pub terminated: bool,
    /// The names of parameters in the signature.
    pub sig_names: Map<Seq<char>, Seq<char>>,
}

/// The state after a step and what the step gives, or an error.
pub type Step<T> = Result<(KoopaV, T), ErrorView>;

impl KoopaV {
    /// The state after an instruction.
    pub open spec fn emit(self, s: Seq<char>) -> KoopaV {
        KoopaV { body: self.body + ("  "@ + s + "\n"@), ..self }
    }

    /// The state after an instruction that ends the block.
    pub open spec fn end_with(self, s: Seq<char>) -> KoopaV {
        KoopaV { terminated: true, ..self.emit(s) }
    }

    /// The state after a label.
    pub open spec fn start(self, label: Seq<char>) -> KoopaV {
        KoopaV { body: self.body + (label + ":\n"@), terminated: false, ..self }
    }

    /// The state after a variable of the function has been put down.
    pub open spec fn pend(self, name: Seq<char>, ty: Seq<char>) -> KoopaV {
        KoopaV { allocs: self.allocs + ("  "@ + name + " = alloc "@ + ty + "\n"@), ..self }
    }

    /// A new temporary.
    pub open spec fn new_tmp(self) -> Step<Seq<char>> {
        if self.tmp < usize::MAX {
            Ok(
                (
                    KoopaV { tmp: (self.tmp + 1) as usize, ..self },
                    "%"@ + text::dec_nat(self.tmp as nat),
                ),
            )
        } else {
            Err(translate::too_large())
        }
    }

    /// An instruction whose result goes to a new temporary.
    pub open spec fn def(self, s: Seq<char>) -> Step<Seq<char>> {
        match self.new_tmp() {
            Ok((g, t)) => Ok((g.emit(t + " = "@ + s), t)),
            Err(e) => Err(e),
        }
    }

    /// A new label.
    pub open spec fn new_label(self) -> Step<Seq<char>> {
        if self.label < usize::MAX {
            Ok(
                (
                    KoopaV { label: (self.label + 1) as usize, ..self },
                    "%label_"@ + text::dec_nat(self.label as nat),
                ),
            )
        } else {
            Err(translate::too_large())
        }
    }

    /// Three new labels.
    pub open spec fn labels(self) -> Step<(Seq<char>, Seq<char>, Seq<char>)> {
        match self.new_label() {
            Err(e) => Err(e),
            Ok((g1, a)) => match g1.new_label() {
                Err(e) => Err(e),
                Ok((g2, b)) => match g2.new_label() {
                    Err(e) => Err(e),
                    Ok((g3, c)) => Ok((g3, (a, b, c))),
                },
            },
        }
    }

    /// A new variable for the value of a short-circuit operator.
    pub open spec fn short_circuit(self) -> Step<Seq<char>> {
        if self.sc < usize::MAX {
            let name = "@sc_"@ + text::dec_nat(self.sc as nat);
            Ok((KoopaV { sc: (self.sc + 1) as usize, ..self }.pend(name, "i32"@), name))
        } else {
            Err(translate::too_large())
        }
    }

    /// How often a name has been used in the function.
    pub open spec fn count(self, name: Seq<char>) -> usize {
        if self.counts.contains_key(name) {
            self.counts[name]
        } else {
            0
        }
    }

    /// A variable name not used before in the function: the name, numbered from its second use.
    pub open spec fn mangle(self, name: Seq<char>) -> Step<Seq<char>> {
        let n = self.count(name);
        if n == usize::MAX {
            Err(translate::too_large())
        } else {
            Ok(
                (
                    KoopaV { counts: self.counts.insert(name, (n + 1) as usize), ..self },
                    if n == 0 {
                        name
                    } else {
                        name + "_"@ + text::dec_nat(n as nat)
                    },
                ),
            )
        }
    }

    /// A variable name that also differs from that of a global variable.
    pub open spec fn local_name(self, name: Seq<char>) -> Step<Seq<char>> {
        if self.scopes.globals.contains_key(name) {
            match self.mangle(name) {
                Err(e) => Err(e),
                Ok((g, _)) => g.mangle(name),
            }
        } else {
            self.mangle(name)
        }
    }

    /// The state after a name has been bound in the innermost scope.
    pub open spec fn bind(self, name: Seq<char>, sym: SymbolV) -> KoopaV {
        KoopaV { scopes: self.scopes.bind(name, sym), ..self }
    }
}

/// A name as it is written.
pub open spec fn at_name(name: Seq<char>) -> Seq<char> {
    "@"@ + name
}

// ── Constants and array shapes ───────────────────────────────────────────────

/// The value of a constant expression.
pub open spec fn const_value(v: ScopesV<SymbolV>, e: ExprV) -> Result<i32, ErrorView>
    decreases e,
{
    match e {
        ExprV::Int(n) => Ok(n),
        ExprV::LVal(name) => match v.lookup(name) {
            Some(SymbolV::Const(n)) => Ok(n),
            _ => Err(translate::quoted("'"@, name, "' is not a compile-time constant"@)),
        },
        ExprV::Unary { op, expr } => match const_value(v, *expr) {
            Err(e) => Err(e),
            Ok(n) => Ok(eval::unary_value(op, n)),
        },
        ExprV::Binary { op, lhs, rhs } => match const_value(v, *lhs) {
            Err(e) => Err(e),
            Ok(l) => match const_value(v, *rhs) {
                Err(e) => Err(e),
                Ok(r) => match eval::binary_value(op, l, r) {
                    Some(n) => Ok(n),
                    None => if op is Div {
                        Err(error::err_new("invalid constant division"@))
                    } else {
                        Err(error::err_new("invalid constant remainder"@))
                    },
                },
            },
        },
        ExprV::Call { .. } => Err(
            error::err_new("function call is not a compile-time constant"@),
        ),
        ExprV::Index { .. } => Err(
            error::err_new("array access is not a compile-time constant"@),
        ),
        ExprV::InitList(_) => Err(
            error::err_new("initializer list is not a compile-time constant"@),
        ),
        ExprV::Asm(_) => Err(error::err_new("inline assembly is not a compile-time constant"@)),
    }
}

/// The value of a constant expression, or another where it is not one.
pub open spec fn const_or(v: ScopesV<SymbolV>, e: ExprV, other: i32) -> i32 {
    match const_value(v, e) {
        Ok(n) => n,
        Err(_) => other,
    }
}

/// The values of constant expressions, or the first error among them.
pub open spec fn const_values(v: ScopesV<SymbolV>, es: Seq<ExprV>) -> Result<Seq<i32>, ErrorView>
    decreases es.len(),
{
    if es.len() == 0 {
        Ok(Seq::empty())
    } else {
        match const_values(v, es.drop_last()) {
            Err(e) => Err(e),
            Ok(vs) => match const_value(v, es.last()) {
                Err(e) => Err(e),
                Ok(n) => Ok(vs.push(n)),
            },
        }
    }
}

/// The dimensions of an array parameter; one that is not constant counts as 1.
pub open spec fn param_dims(v: ScopesV<SymbolV>, es: Seq<ExprV>) -> Seq<i32> {
    es.map_values(|e: ExprV| const_or(v, e, 1))
}

/// The type of an array.
pub open spec fn array_text(dims: Seq<i32>) -> Seq<char>
    decreases dims.len(),
{
    if dims.len() == 0 {
        "i32"@
    } else {
        "["@ + array_text(dims.drop_first()) + ", "@ + text::dec_int(dims[0] as int) + "]"@
    }
}

/// Whether a list has a braced list among its items.
pub open spec fn has_nested(items: Seq<ExprV>) -> bool {
    exists|i: int| 0 <= i < items.len() && (#[trigger] items[i]) is InitList
}

/// The items of an initializer, one for each element.
pub open spec fn flatten(dims: Seq<i32>, init: ExprV, flat: Seq<ExprV>) -> Result<
    Seq<ExprV>,
    ErrorView,
>
    decreases init, 0int,
{
    match translate::total(dims) {
        None => Err(translate::bad_dims()),
        Some(t) => match init {
            ExprV::InitList(items) => if items.len() == 0 {
                Ok(flat)
            } else {
                let rows = dims.len() > 1 && has_nested(items);
                match flatten_items(dims, items, 0, rows, flat) {
                    Err(e) => Err(e),
                    Ok(f) => Ok(translate::fill(f, t as int)),
                }
            },
            _ => Ok(translate::fill(flat.push(init), t as int)),
        },
    }
}

/// The length of a list whose part from `start` on is made of whole rows.
pub open spec fn row_end(start: int, end: int, row: int) -> int {
    end + (row - (end - start) % row) % row
}

/// The items of a braced list from the `k`th on; each fills a row where the list is made of rows.
pub open spec fn flatten_items(
    dims: Seq<i32>,
    items: Seq<ExprV>,
    k: int,
    rows: bool,
    flat: Seq<ExprV>,
) -> Result<Seq<ExprV>, ErrorView>
    decreases items, items.len() - k,
{
    if k < 0 || k >= items.len() {
        Ok(flat)
    } else if rows {
        match translate::total(dims.drop_first()) {
            None => Err(translate::bad_dims()),
            Some(row) => if row == 0 {
                Err(translate::bad_dims())
            } else {
                match (match items[k] {
                    ExprV::InitList(_) => flatten(dims.drop_first(), items[k], flat),
                    _ => Ok(flat.push(items[k])),
                }) {
                    Err(e) => Err(e),
                    Ok(f) => if row_end(flat.len() as int, f.len() as int, row as int)
                        <= usize::MAX {
                        flatten_items(
                            dims,
                            items,
                            k + 1,
                            rows,
                            translate::fill(
                                f,
                                row_end(flat.len() as int, f.len() as int, row as int),
                            ),
                        )
                    } else {
                        Err(translate::bad_dims())
                    },
                }
            },
        }
    } else {
        match (match items[k] {
            ExprV::InitList(_) => flatten(Seq::empty(), items[k], flat),
            _ => Ok(flat.push(items[k])),
        }) {
            Err(e) => Err(e),
            Ok(f) => flatten_items(dims, items, k + 1, rows, f),
        }
    }
}

/// The initial value of a global array.
pub open spec fn global_init(v: ScopesV<SymbolV>, dims: Seq<i32>, init: ExprV) -> Result<
    Seq<char>,
    ErrorView,
> {
    match flatten(dims, init, Seq::empty()) {
        Err(e) => Err(e),
        Ok(flat) => Ok(
            ir_to_koopa::nested_init(
                translate::array_type(dims),
                flat.map_values(|e: ExprV| const_or(v, e, 0)),
                0,
            ).0,
        ),
    }
}

/// The store of a value to an element, by its position among all elements.
pub open spec fn array_store(
    g: KoopaV,
    base: Seq<char>,
    dims: Seq<i32>,
    at: int,
    value: Seq<char>,
) -> Result<KoopaV, ErrorView>
    decreases dims.len(),
{
    if dims.len() == 0 {
        Err(translate::bad_dims())
    } else {
        let row = translate::total(dims.drop_first());
        if dims.len() > 1 && (row is None || row == Some(0usize)) {
            Err(translate::bad_dims())
        } else {
            let outer = if dims.len() == 1 {
                at
            } else {
                at / (row->0 as int)
            };
            match g.def(two("getelemptr"@, base, "0"@)) {
                Err(e) => Err(e),
                Ok((g1, p0)) => match g1.def(two("getptr"@, p0, text::dec_int(outer))) {
                    Err(e) => Err(e),
                    Ok((g2, p1)) => if dims.len() == 1 {
                        Ok(g2.emit(store(value, p1)))
                    } else {
                        array_store(g2, p1, dims.drop_first(), at % (row->0 as int), value)
                    },
                },
            }
        }
    }
}

// ── Expressions ──────────────────────────────────────────────────────────────

/// The name of a binary operator other than the short-circuit ones.
pub open spec fn op_text(op: BinaryOp) -> Seq<char> {
    match op {
        BinaryOp::Mul => "mul"@,
        BinaryOp::Div => "div"@,
        BinaryOp::Rem => "mod"@,
        BinaryOp::Add => "add"@,
        BinaryOp::Sub => "sub"@,
        BinaryOp::Lt => "lt"@,
        BinaryOp::Gt => "gt"@,
        BinaryOp::Le => "le"@,
        BinaryOp::Ge => "ge"@,
        BinaryOp::Eq => "eq"@,
        _ => "ne"@,
    }
}

/// A two-operand instruction.
pub open spec fn two(op: Seq<char>, a: Seq<char>, b: Seq<char>) -> Seq<char> {
    op + " "@ + a + ", "@ + b
}

/// A store.
pub open spec fn store(value: Seq<char>, ptr: Seq<char>) -> Seq<char> {
    two("store"@, value, ptr)
}

/// A jump.
pub open spec fn jump(label: Seq<char>) -> Seq<char> {
    "jump "@ + label
}

/// A branch.
pub open spec fn br(cond: Seq<char>, yes: Seq<char>, no: Seq<char>) -> Seq<char> {
    "br "@ + cond + ", "@ + yes + ", "@ + no
}

/// A load.
pub open spec fn load(ptr: Seq<char>) -> Seq<char> {
    "load "@ + ptr
}

/// The comment that stands for inline assembly.
pub open spec fn asm_text(code: Seq<char>) -> Seq<char> {
    "// asm(\""@ + code + "\")  ; not supported in Koopa IR"@
}

/// What the name under the indices of an expression stands for.
pub open spec fn base_symbol(v: ScopesV<SymbolV>, e: ExprV) -> Option<SymbolV>
    decreases e,
{
    match e {
        ExprV::Index { array, .. } => base_symbol(v, *array),
        ExprV::LVal(name) => v.lookup(name),
        _ => None,
    }
}

/// Whether a name stands for an array parameter with fixed inner dimensions.
pub open spec fn is_param(sym: Option<SymbolV>) -> bool {
    sym matches Some(SymbolV::NdParam { .. })
}

/// The number of indices that what the name under an expression stands for takes to give an
/// integer.
pub open spec fn total_dims(sym: Option<SymbolV>) -> int {
    match sym {
        Some(SymbolV::Array(_, n)) => n as int,
        Some(SymbolV::NdParam { dims, .. }) => 1 + dims.len() as int,
        _ => 1,
    }
}

/// What an indexed address is read as: the element, or the address of the row's first element.
pub open spec fn element(g: KoopaV, p: Seq<char>, whole: bool) -> Step<Seq<char>> {
    if whole {
        g.def(load(p))
    } else {
        g.def(two("getelemptr"@, p, "0"@))
    }
}

/// The address of an element of the array at `base`.
pub open spec fn array_step(g: KoopaV, base: Seq<char>, index: Seq<char>) -> Step<Seq<char>> {
    match g.def(two("getelemptr"@, base, "0"@)) {
        Err(e) => Err(e),
        Ok((g1, p)) => g1.def(two("getptr"@, p, index)),
    }
}

/// The address of an element behind a pointer or of an array.
pub open spec fn index_step(g: KoopaV, pointer: bool, base: Seq<char>, index: Seq<char>) -> Step<
    Seq<char>,
> {
    if pointer {
        g.def(two("getptr"@, base, index))
    } else {
        array_step(g, base, index)
    }
}

/// The value of a name.
pub open spec fn name_value(g: KoopaV, name: Seq<char>) -> Step<Seq<char>> {
    match g.scopes.lookup(name) {
        Some(SymbolV::Const(v)) => Ok((g, text::dec_int(v as int))),
        Some(SymbolV::Var(n)) => g.def(load(at_name(n))),
        Some(SymbolV::Array(n, _)) => g.def(two("getelemptr"@, at_name(n), "0"@)),
        Some(SymbolV::PtrArray(n)) => Ok((g, at_name(n))),
        Some(SymbolV::NdParam { name: n, .. }) => Ok((g, at_name(n))),
        None => Err(translate::quoted("undefined identifier '"@, name, "'"@)),
    }
}

/// The address a name stands for.
pub open spec fn name_base(g: KoopaV, name: Seq<char>) -> Result<Seq<char>, ErrorView> {
    match g.scopes.lookup(name) {
        Some(SymbolV::Var(n)) => Ok(at_name(n)),
        Some(SymbolV::Array(n, _)) => Ok(at_name(n)),
        Some(SymbolV::PtrArray(n)) => Ok(at_name(n)),
        Some(SymbolV::NdParam { name: n, .. }) => Ok(at_name(n)),
        _ => Err(translate::quoted("'"@, name, "' is not an lvalue"@)),
    }
}

/// The types of what a library function takes.
pub open spec fn lib_params_text(name: Seq<char>) -> Seq<char> {
    text::join(
        codegen::lib_params(name).map_values(|t: IrType| ir::type_text(t)),
        ", "@,
    )
}

/// What a function returns, in its signature.
pub open spec fn ret_text(t: Type) -> Seq<char> {
    match t {
        Type::Int => ": i32"@,
        Type::Void => Seq::empty(),
    }
}

/// The declaration of a library function, where it is not declared yet.
pub open spec fn lib_call(g: KoopaV, name: Seq<char>) -> KoopaV {
    match codegen::lib_ret(name) {
        Some(t) => if g.declared.contains_key(name) {
            g
        } else {
            KoopaV {
                declared: g.declared.insert(name, true),
                decls: g.decls + ("decl @"@ + name + "("@ + lib_params_text(name) + ")"@ + ret_text(
                    t,
                ) + "\n"@),
                ..g
            }
        },
        None => g,
    }
}

/// Whether a called function returns nothing.
pub open spec fn is_void(g: KoopaV, name: Seq<char>) -> bool {
    codegen::lib_ret(name) == Some(Type::Void) || (g.func_rets.contains_key(name)
        && g.func_rets[name] == Type::Void)
}

/// A call with its arguments evaluated.
pub open spec fn call(g: KoopaV, name: Seq<char>, args: Seq<Seq<char>>) -> Step<Seq<char>> {
    let code = "call @"@ + name + "("@ + text::join(args, ", "@) + ")"@;
    if is_void(g, name) {
        Ok((g.emit(code), Seq::empty()))
    } else {
        g.def(code)
    }
}

/// The condition that the first operand of a short-circuit operator branches on.
pub open spec fn branch_cond(g: KoopaV, v: Seq<char>) -> Step<Seq<char>> {
    if text::starts_with(v, '%') || text::starts_with(v, '@') {
        Ok((g, v))
    } else {
        g.def(two("ne"@, v, "0"@))
    }
}

/// The branch of a short-circuit operator that needs no second operand.
pub open spec fn decided(g: KoopaV, value: Seq<char>, sc: Seq<char>, end: Seq<char>) -> KoopaV {
    g.emit(store(value, sc)).emit(jump(end))
}

/// The value of an expression.
pub open spec fn expr(g: KoopaV, e: ExprV) -> Step<Seq<char>>
    decreases e, 2int,
{
    match e {
        ExprV::Int(n) => Ok((g, text::dec_int(n as int))),
        ExprV::LVal(name) => name_value(g, name),
        ExprV::Unary { op, expr: x } => match expr(g, *x) {
            Err(e) => Err(e),
            Ok((g1, v)) => match op {
                UnaryOp::Plus => Ok((g1, v)),
                UnaryOp::Minus => g1.def(two("sub"@, "0"@, v)),
                UnaryOp::Not => g1.def(two("eq"@, v, "0"@)),
            },
        },
        ExprV::Binary { op, lhs, rhs } => if op == BinaryOp::And || op == BinaryOp::Or {
            match g.short_circuit() {
                Err(e) => Err(e),
                Ok((g1, sc)) => match expr(g1, *lhs) {
                    Err(e) => Err(e),
                    Ok((g2, l)) => match branch_cond(g2, l) {
                        Err(e) => Err(e),
                        Ok((g3, cond)) => match g3.labels() {
                            Err(e) => Err(e),
                            Ok((g4, (a, b, end))) => {
                                let g5 = if op == BinaryOp::And {
                                    g4.emit(br(cond, a, b)).start(a)
                                } else {
                                    decided(
                                        g4.emit(br(cond, a, b)).start(a),
                                        "1"@,
                                        sc,
                                        end,
                                    ).start(b)
                                };
                                match expr(g5, *rhs) {
                                    Err(e) => Err(e),
                                    Ok((g6, r)) => match g6.def(two("ne"@, r, "0"@)) {
                                        Err(e) => Err(e),
                                        Ok((g7, t)) => {
                                            let g8 = g7.emit(store(t, sc)).emit(jump(end));
                                            let g9 = if op == BinaryOp::And {
                                                decided(g8.start(b), "0"@, sc, end)
                                            } else {
                                                g8
                                            };
                                            g9.start(end).def(load(sc))
                                        },
                                    },
                                }
                            },
                        },
                    },
                },
            }
        } else {
            match expr(g, *lhs) {
                Err(e) => Err(e),
                Ok((g1, l)) => match expr(g1, *rhs) {
                    Err(e) => Err(e),
                    Ok((g2, r)) => g2.def(two(op_text(op), l, r)),
                },
            }
        },
        ExprV::Call { name, args } => match exprs(lib_call(g, name), args, 0, Seq::empty()) {
            Err(e) => Err(e),
            Ok((g1, vals)) => call(g1, name, vals),
        },
        ExprV::Index { .. } => index_value(g, e),
        ExprV::InitList(items) => match exprs(g, items, 0, Seq::empty()) {
            Err(e) => Err(e),
            Ok((g1, vals)) => Ok(
                (
                    g1,
                    if vals.len() == 0 {
                        Seq::empty()
                    } else {
                        vals.last()
                    },
                ),
            ),
        },
        ExprV::Asm(code) => Ok((g.emit(asm_text(code)), "undef"@)),
    }
}

/// The values of the expressions from the `k`th on.
pub open spec fn exprs(g: KoopaV, es: Seq<ExprV>, k: int, done: Seq<Seq<char>>) -> Step<
    Seq<Seq<char>>,
>
    decreases es, es.len() - k,
{
    if k < 0 || k >= es.len() {
        Ok((g, done))
    } else {
        match expr(g, es[k]) {
            Err(e) => Err(e),
            Ok((g1, v)) => exprs(g1, es, k + 1, done.push(v)),
        }
    }
}

/// The value of an indexed array.
pub open spec fn index_value(g: KoopaV, e: ExprV) -> Step<Seq<char>>
    decreases e, 1int,
{
    match e {
        ExprV::Index { array, index } => if is_param(base_symbol(g.scopes, e)) {
            match param_ptr(g, e) {
                Err(e) => Err(e),
                Ok((g1, p)) => element(
                    g1,
                    p,
                    translate::index_count(e) >= total_dims(base_symbol(g.scopes, e)),
                ),
            }
        } else {
            let sym = base_symbol(g.scopes, *array);
            match expr(g, *index) {
                Err(e) => Err(e),
                Ok((g1, i)) => match base(g1, *array) {
                    Err(e) => Err(e),
                    Ok((g2, b)) => match index_step(
                        g2,
                        *array is LVal && sym matches Some(SymbolV::PtrArray(_)),
                        b,
                        i,
                    ) {
                        Err(e) => Err(e),
                        Ok((g3, p)) => element(
                            g3,
                            p,
                            1 + translate::index_count(*array) >= total_dims(sym),
                        ),
                    },
                },
            }
        },
        _ => Err(error::err_new("invalid array access"@)),
    }
}

/// The address of an indexed array parameter: `getptr` for the first index, `getelemptr` for each
/// further one.
pub open spec fn param_ptr(g: KoopaV, e: ExprV) -> Step<Seq<char>>
    decreases e, 0int,
{
    match e {
        ExprV::Index { array, index } => match *array {
            ExprV::LVal(name) => match g.scopes.lookup(name) {
                Some(SymbolV::NdParam { name: n, .. }) => match expr(g, *index) {
                    Err(e) => Err(e),
                    Ok((g1, i)) => g1.def(two("getptr"@, at_name(n), i)),
                },
                _ => Err(error::err_new("expected NdParam"@)),
            },
            _ => match param_ptr(g, *array) {
                Err(e) => Err(e),
                Ok((g1, p)) => match expr(g1, *index) {
                    Err(e) => Err(e),
                    Ok((g2, i)) => g2.def(two("getelemptr"@, p, i)),
                },
            },
        },
        _ => Err(error::err_new("invalid array access"@)),
    }
}

/// The address that an expression under an index stands for.
pub open spec fn base(g: KoopaV, e: ExprV) -> Step<Seq<char>>
    decreases e, 0int,
{
    match e {
        ExprV::LVal(name) => match name_base(g, name) {
            Err(e) => Err(e),
            Ok(b) => Ok((g, b)),
        },
        ExprV::Index { array, index } => match expr(g, *index) {
            Err(e) => Err(e),
            Ok((g1, i)) => match base(g1, *array) {
                Err(e) => Err(e),
                Ok((g2, b)) => array_step(g2, b, i),
            },
        },
        _ => Err(error::err_new("not an lvalue"@)),
    }
}

// ── Declarations ─────────────────────────────────────────────────────────────

/// The stores of the items of an initializer from the `i`th on.
pub open spec fn init_stores(
    g: KoopaV,
    base: Seq<char>,
    dims: Seq<i32>,
    flat: Seq<ExprV>,
    i: int,
    n: int,
) -> Result<KoopaV, ErrorView>
    decreases n - i,
{
    if i >= n {
        Ok(g)
    } else {
        match expr(g, flat[i]) {
            Err(e) => Err(e),
            Ok((g1, v)) => match array_store(g1, base, dims, i, v) {
                Err(e) => Err(e),
                Ok(g2) => init_stores(g2, base, dims, flat, i + 1, n),
            },
        }
    }
}

/// The initialization of a local array.
pub open spec fn array_init(g: KoopaV, base: Seq<char>, dims: Seq<i32>, init: ExprV) -> Result<
    KoopaV,
    ErrorView,
> {
    match flatten(dims, init, Seq::empty()) {
        Err(e) => Err(e),
        Ok(flat) => match translate::total(dims) {
            None => Err(translate::bad_dims()),
            Some(t) => init_stores(
                g,
                base,
                dims,
                translate::fill(flat, t as int),
                0,
                t as int,
            ),
        },
    }
}

/// A new array of the function, bound to a name.
pub open spec fn new_array(g: KoopaV, name: Seq<char>, mangled: Seq<char>, dims: Seq<i32>) -> KoopaV {
    g.pend(at_name(mangled), array_text(dims)).bind(name, SymbolV::Array(mangled, dims.len()))
}

/// A constant definition in a function.
pub open spec fn const_def(g: KoopaV, d: ConstDefV) -> Result<KoopaV, ErrorView> {
    if g.scopes.declared(d.name) {
        Err(translate::quoted("redeclaration of '"@, d.name, "'"@))
    } else if d.dims.len() == 0 && !(d.init is InitList) {
        match const_value(g.scopes, d.init) {
            Err(e) => Err(e),
            Ok(v) => Ok(g.bind(d.name, SymbolV::Const(v))),
        }
    } else {
        match g.local_name(d.name) {
            Err(e) => Err(e),
            Ok((g1, mangled)) => match const_values(g1.scopes, d.dims) {
                Err(e) => Err(e),
                Ok(dims) => array_init(
                    new_array(g1, d.name, mangled, dims),
                    at_name(mangled),
                    dims,
                    d.init,
                ),
            },
        }
    }
}

/// A variable definition in a function.
pub open spec fn var_def(g: KoopaV, d: VarDefV) -> Result<KoopaV, ErrorView> {
    if g.scopes.declared(d.name) {
        Err(translate::quoted("redeclaration of '"@, d.name, "'"@))
    } else {
        match g.local_name(d.name) {
            Err(e) => Err(e),
            Ok((g1, mangled)) => if d.dims.len() == 0 {
                let g2 = g1.pend(at_name(mangled), "i32"@);
                match d.init {
                    None => Ok(g2.bind(d.name, SymbolV::Var(mangled))),
                    Some(init) => match expr(g2, init) {
                        Err(e) => Err(e),
                        Ok((g3, v)) => Ok(
                            g3.emit(store(v, at_name(mangled))).bind(
                                d.name,
                                SymbolV::Var(mangled),
                            ),
                        ),
                    },
                }
            } else {
                match const_values(g1.scopes, d.dims) {
                    Err(e) => Err(e),
                    Ok(dims) => {
                        let g2 = new_array(g1, d.name, mangled, dims);
                        match d.init {
                            None => Ok(g2),
                            Some(init) => array_init(g2, at_name(mangled), dims, init),
                        }
                    },
                }
            },
        }
    }
}

/// The constant definitions from the `k`th on.
pub open spec fn const_defs(g: KoopaV, defs: Seq<ConstDefV>, k: int) -> Result<KoopaV, ErrorView>
    decreases defs.len() - k,
{
    if k < 0 || k >= defs.len() {
        Ok(g)
    } else {
        match const_def(g, defs[k]) {
            Err(e) => Err(e),
            Ok(g1) => const_defs(g1, defs, k + 1),
        }
    }
}

/// The variable definitions from the `k`th on.
pub open spec fn var_defs(g: KoopaV, defs: Seq<VarDefV>, k: int) -> Result<KoopaV, ErrorView>
    decreases defs.len() - k,
{
    if k < 0 || k >= defs.len() {
        Ok(g)
    } else {
        match var_def(g, defs[k]) {
            Err(e) => Err(e),
            Ok(g1) => var_defs(g1, defs, k + 1),
        }
    }
}

/// A declaration in a function.
pub open spec fn decl(g: KoopaV, d: DeclV) -> Result<KoopaV, ErrorView> {
    match d {
        DeclV::Const(defs) => const_defs(g, defs, 0),
        DeclV::Var(defs) => var_defs(g, defs, 0),
    }
}

// ── Statements ───────────────────────────────────────────────────────────────

/// The address of an indexed array parameter, from the `k`th index on.
pub open spec fn param_target(g: KoopaV, p: Seq<char>, index: Seq<ExprV>, k: int) -> Step<Seq<char>>
    decreases index.len() - k,
{
    if k < 0 || k >= index.len() {
        Ok((g, p))
    } else {
        match expr(g, index[k]) {
            Err(e) => Err(e),
            Ok((g1, i)) => match g1.def(two("getelemptr"@, p, i)) {
                Err(e) => Err(e),
                Ok((g2, q)) => param_target(g2, q, index, k + 1),
            },
        }
    }
}

/// The address of an indexed array or pointer, from the `k`th index on.
pub open spec fn array_target(
    g: KoopaV,
    p: Seq<char>,
    pointer: bool,
    index: Seq<ExprV>,
    k: int,
) -> Step<Seq<char>>
    decreases index.len() - k,
{
    if k < 0 || k >= index.len() {
        Ok((g, p))
    } else {
        match expr(g, index[k]) {
            Err(e) => Err(e),
            Ok((g1, i)) => match index_step(g1, pointer, p, i) {
                Err(e) => Err(e),
                Ok((g2, q)) => array_target(g2, q, pointer, index, k + 1),
            },
        }
    }
}

/// A store to an address.
pub open spec fn store_to(r: Step<Seq<char>>, value: Seq<char>) -> Result<KoopaV, ErrorView> {
    match r {
        Err(e) => Err(e),
        Ok((g, p)) => Ok(g.emit(store(value, p))),
    }
}

/// An assignment to an element.
pub open spec fn array_assign(g: KoopaV, name: Seq<char>, index: Seq<ExprV>, e: ExprV) -> Result<
    KoopaV,
    ErrorView,
> {
    match g.scopes.lookup(name) {
        Some(SymbolV::NdParam { name: n, .. }) => match expr(g, e) {
            Err(e) => Err(e),
            Ok((g1, v)) => match expr(g1, index[0]) {
                Err(e) => Err(e),
                Ok((g2, i)) => match g2.def(two("getptr"@, at_name(n), i)) {
                    Err(e) => Err(e),
                    Ok((g3, p)) => store_to(param_target(g3, p, index, 1), v),
                },
            },
        },
        Some(SymbolV::Array(n, _)) => match expr(g, e) {
            Err(e) => Err(e),
            Ok((g1, v)) => store_to(array_target(g1, at_name(n), false, index, 0), v),
        },
        Some(SymbolV::PtrArray(n)) => match expr(g, e) {
            Err(e) => Err(e),
            Ok((g1, v)) => store_to(array_target(g1, at_name(n), true, index, 0), v),
        },
        _ => Err(translate::quoted("'"@, name, "' is not an array"@)),
    }
}

/// An assignment.
pub open spec fn assign(g: KoopaV, name: Seq<char>, index: Seq<ExprV>, e: ExprV) -> Result<
    KoopaV,
    ErrorView,
> {
    if index.len() > 0 {
        array_assign(g, name, index, e)
    } else {
        match g.scopes.lookup(name) {
            Some(SymbolV::Var(n)) => match expr(g, e) {
                Err(e) => Err(e),
                Ok((g1, v)) => Ok(g1.emit(store(v, at_name(n)))),
            },
            Some(SymbolV::Const(_)) => Err(
                translate::quoted("cannot assign to constant '"@, name, "'"@),
            ),
            None => Err(translate::quoted("undefined variable '"@, name, "'"@)),
            _ => Err(translate::quoted("cannot assign to array '"@, name, "' without index"@)),
        }
    }
}

/// The state after a jump, where the current block has not ended yet.
pub open spec fn jump_on(g: KoopaV, label: Seq<char>) -> KoopaV {
    if g.terminated {
        g
    } else {
        g.end_with(jump(label))
    }
}

/// A statement.
pub open spec fn stmt(g: KoopaV, s: StmtV) -> Result<KoopaV, ErrorView>
    decreases s,
{
    match s {
        StmtV::Return(None) => Ok(g.end_with("ret"@)),
        StmtV::Return(Some(e)) => match expr(g, e) {
            Err(e) => Err(e),
            Ok((g1, v)) => Ok(g1.end_with("ret "@ + v)),
        },
        StmtV::Assign { name, index, expr } => assign(g, name, index, expr),
        StmtV::Expr(e) => match expr(g, e) {
            Err(e) => Err(e),
            Ok((g1, _)) => Ok(g1),
        },
        StmtV::Block(items) => match block(
            KoopaV { scopes: g.scopes.enter(), ..g },
            items,
            0,
        ) {
            Err(e) => Err(e),
            Ok(g1) => Ok(KoopaV { scopes: g1.scopes.exit(), ..g1 }),
        },
        StmtV::If { cond, then_branch, else_branch } => match expr(g, cond) {
            Err(e) => Err(e),
            Ok((g1, c)) => match g1.labels() {
                Err(e) => Err(e),
                Ok((g2, (yes, no, end))) => {
                    let target = if else_branch is Some {
                        no
                    } else {
                        end
                    };
                    match stmt(g2.end_with(br(c, yes, target)).start(yes), *then_branch) {
                        Err(e) => Err(e),
                        Ok(g4) => {
                            let g5 = jump_on(g4, end);
                            match else_branch {
                                None => Ok(g5.start(end)),
                                Some(els) => match stmt(g5.start(no), *els) {
                                    Err(e) => Err(e),
                                    Ok(g6) => if g4.terminated && g6.terminated {
                                        Ok(g6)
                                    } else {
                                        Ok(jump_on(g6, end).start(end))
                                    },
                                },
                            }
                        },
                    }
                },
            },
        },
        StmtV::While { cond, body } => match g.labels() {
            Err(e) => Err(e),
            Ok((g1, (entry, inside, end))) => match expr(
                g1.end_with(jump(entry)).start(entry),
                cond,
            ) {
                Err(e) => Err(e),
                Ok((g2, c)) => {
                    let g3 = g2.end_with(br(c, inside, end));
                    let g4 = KoopaV { loops: g3.loops.push((entry, end)), ..g3 }.start(inside);
                    match stmt(g4, *body) {
                        Err(e) => Err(e),
                        Ok(g5) => Ok(
                            KoopaV { loops: g5.loops.drop_last(), ..jump_on(g5, entry) }.start(
                                end,
                            ),
                        ),
                    }
                },
            },
        },
        StmtV::Break => if g.loops.len() == 0 {
            Err(error::err_new("'break' outside of loop"@))
        } else {
            Ok(g.end_with(jump(g.loops.last().1)))
        },
        StmtV::Continue => if g.loops.len() == 0 {
            Err(error::err_new("'continue' outside of loop"@))
        } else {
            Ok(g.end_with(jump(g.loops.last().0)))
        },
        StmtV::Empty => Ok(g),
        StmtV::Asm(code) => Ok(g.emit(asm_text(code))),
    }
}

/// The items of a block from the `k`th on, up to one that ends the control flow.
pub open spec fn block(g: KoopaV, items: Seq<BlockItemV>, k: int) -> Result<KoopaV, ErrorView>
    decreases items, items.len() - k,
{
    if k < 0 || k >= items.len() || g.terminated {
        Ok(g)
    } else {
        match (match items[k] {
            BlockItemV::Stmt(s) => stmt(g, s),
            BlockItemV::Decl(d) => decl(g, d),
        }) {
            Err(e) => Err(e),
            Ok(g1) => block(g1, items, k + 1),
        }
    }
}

// ── Library declarations ─────────────────────────────────────────────────────

/// The library declarations for an expression.
pub open spec fn lib_expr(g: KoopaV, e: ExprV) -> KoopaV
    decreases e, 0int,
{
    match e {
        ExprV::Call { name, args } => lib_exprs(lib_call(g, name), args, 0),
        ExprV::Binary { lhs, rhs, .. } => lib_expr(lib_expr(g, *lhs), *rhs),
        ExprV::Unary { expr, .. } => lib_expr(g, *expr),
        ExprV::Index { array, index } => lib_expr(lib_expr(g, *array), *index),
        ExprV::InitList(items) => lib_exprs(g, items, 0),
        _ => g,
    }
}

/// The library declarations for the expressions from the `k`th on.
pub open spec fn lib_exprs(g: KoopaV, es: Seq<ExprV>, k: int) -> KoopaV
    decreases es, es.len() - k,
{
    if k < 0 || k >= es.len() {
        g
    } else {
        lib_exprs(lib_expr(g, es[k]), es, k + 1)
    }
}

/// The library declarations for a statement.
pub open spec fn lib_stmt(g: KoopaV, s: StmtV) -> KoopaV
    decreases s, 0int,
{
    match s {
        StmtV::Return(Some(e)) => lib_expr(g, e),
        StmtV::Assign { expr, .. } => lib_expr(g, expr),
        StmtV::Expr(e) => lib_expr(g, e),
        StmtV::Block(items) => lib_block(g, items, 0),
        StmtV::If { cond, then_branch, else_branch } => {
            let g1 = lib_stmt(lib_expr(g, cond), *then_branch);
            match else_branch {
                Some(els) => lib_stmt(g1, *els),
                None => g1,
            }
        },
        StmtV::While { cond, body } => lib_stmt(lib_expr(g, cond), *body),
        _ => g,
    }
}

/// The library declarations for the statements of a block from the `k`th item on.
pub open spec fn lib_block(g: KoopaV, items: Seq<BlockItemV>, k: int) -> KoopaV
    decreases items, items.len() - k,
{
    if k < 0 || k >= items.len() {
        g
    } else {
        let g1 = match items[k] {
            BlockItemV::Stmt(s) => lib_stmt(g, s),
            BlockItemV::Decl(_) => g,
        };
        lib_block(g1, items, k + 1)
    }
}

// ── Functions and programs ───────────────────────────────────────────────────

/// A parameter of a function.
pub open spec fn param(g: KoopaV, p: FuncParamV) -> Result<KoopaV, ErrorView> {
    match g.local_name(p.name) {
        Err(e) => Err(e),
        Ok((g1, sig)) => {
            let g2 = KoopaV { sig_names: g1.sig_names.insert(p.name, sig), ..g1 };
            if p.is_array {
                if p.array_dims.len() == 0 {
                    Ok(g2.bind(p.name, SymbolV::PtrArray(sig)))
                } else {
                    Ok(
                        g2.bind(
                            p.name,
                            SymbolV::NdParam {
                                name: sig,
                                dims: param_dims(g2.scopes, p.array_dims),
                            },
                        ),
                    )
                }
            } else {
                match g2.mangle(p.name) {
                    Err(e) => Err(e),
                    Ok((g3, name)) => Ok(
                        g3.pend(at_name(name), "i32"@).emit(
                            store(at_name(sig), at_name(name)),
                        ).bind(p.name, SymbolV::Var(name)),
                    ),
                }
            }
        },
    }
}

/// The parameters of a function from the `k`th on.
pub open spec fn params(g: KoopaV, ps: Seq<FuncParamV>, k: int) -> Result<KoopaV, ErrorView>
    decreases ps.len() - k,
{
    if k < 0 || k >= ps.len() {
        Ok(g)
    } else {
        match param(g, ps[k]) {
            Err(e) => Err(e),
            Ok(g1) => params(g1, ps, k + 1),
        }
    }
}

/// A parameter in the signature.
pub open spec fn param_text(g: KoopaV, p: FuncParamV) -> Seq<char> {
    let name = if g.sig_names.contains_key(p.name) {
        g.sig_names[p.name]
    } else {
        p.name
    };
    at_name(name) + if p.is_array {
        ": *"@ + array_text(param_dims(g.scopes, p.array_dims))
    } else {
        ": i32"@
    }
}

/// The state at the start of a function.
pub open spec fn enter(g: KoopaV) -> KoopaV {
    KoopaV {
        scopes: g.scopes.fresh(),
        counts: Map::empty(),
        tmp: 0,
        label: 0,
        sc: 0,
        loops: Seq::empty(),
        body: Seq::empty(),
        terminated: false,
        ..g
    }
}

/// The state at the end of a function, which returns where it has no value to return.
pub open spec fn close(g: KoopaV, f: FuncDefV) -> KoopaV {
    if f.ret_type == Type::Void && !g.terminated {
        g.end_with("ret"@)
    } else {
        g
    }
}

/// A function, with the declarations before it.
pub open spec fn func_text(g: KoopaV, f: FuncDefV) -> Seq<char> {
    let ps = f.params.map_values(|p: FuncParamV| param_text(g, p));
    g.global_decls + g.decls + ("fun @"@ + f.name + "("@ + text::join(ps, ", "@) + ")"@ + ret_text(
        f.ret_type,
    ) + " {\n%entry:\n"@) + (g.allocs + g.body) + "}\n"@
}

/// The state after a function, and its text.
pub open spec fn func(g: KoopaV, f: FuncDefV) -> Step<Seq<char>> {
    match params(lib_block(enter(g), f.body, 0), f.params, 0) {
        Err(e) => Err(e),
        Ok(g1) => match block(g1, f.body, 0) {
            Err(e) => Err(e),
            Ok(g2) => {
                let g3 = close(g2, f);
                Ok(
                    (
                        KoopaV {
                            allocs: Seq::empty(),
                            decls: Seq::empty(),
                            global_decls: Seq::empty(),
                            ..g3
                        },
                        func_text(g3, f),
                    ),
                )
            },
        },
    }
}

/// A new global variable, bound to a name.
pub open spec fn new_global(
    g: KoopaV,
    name: Seq<char>,
    ty: Seq<char>,
    init: Seq<char>,
    sym: SymbolV,
) -> KoopaV {
    KoopaV {
        global_decls: g.global_decls + ("global @"@ + name + " = alloc "@ + ty + ", "@ + init
            + "\n"@),
        scopes: g.scopes.bind_global(name, sym),
        ..g
    }
}

/// A global array.
pub open spec fn global_array(g: KoopaV, name: Seq<char>, dims: Seq<i32>, init: Seq<char>) -> KoopaV {
    new_global(g, name, array_text(dims), init, SymbolV::Array(name, dims.len()))
}

/// A constant definition at the top level.
pub open spec fn global_const(g: KoopaV, d: ConstDefV) -> Result<KoopaV, ErrorView> {
    if d.dims.len() == 0 && !(d.init is InitList) {
        match const_value(g.scopes, d.init) {
            Err(e) => Err(e),
            Ok(v) => Ok(
                KoopaV { scopes: g.scopes.bind_global(d.name, SymbolV::Const(v)), ..g },
            ),
        }
    } else {
        match const_values(g.scopes, d.dims) {
            Err(e) => Err(e),
            Ok(dims) => match global_init(g.scopes, dims, d.init) {
                Err(e) => Err(e),
                Ok(init) => Ok(global_array(g, d.name, dims, init)),
            },
        }
    }
}

/// A variable definition at the top level.
pub open spec fn global_var(g: KoopaV, d: VarDefV) -> Result<KoopaV, ErrorView> {
    if d.dims.len() == 0 {
        match (match d.init {
            None => Ok(0i32),
            Some(init) => const_value(g.scopes, init),
        }) {
            Err(e) => Err(e),
            Ok(v) => Ok(
                new_global(
                    g,
                    d.name,
                    "i32"@,
                    text::dec_int(v as int),
                    SymbolV::Var(d.name),
                ),
            ),
        }
    } else {
        match const_values(g.scopes, d.dims) {
            Err(e) => Err(e),
            Ok(dims) => match (match d.init {
                None => Ok("zeroinit"@),
                Some(init) => global_init(g.scopes, dims, init),
            }) {
                Err(e) => Err(e),
                Ok(init) => Ok(global_array(g, d.name, dims, init)),
            },
        }
    }
}

/// The definitions of a declaration at the top level from the `k`th on.
pub open spec fn global_decl(g: KoopaV, d: DeclV, k: int) -> Result<KoopaV, ErrorView>
    decreases
            (match d {
                DeclV::Const(defs) => defs.len(),
                DeclV::Var(defs) => defs.len(),
            }) - k,
{
    match d {
        DeclV::Const(defs) => if k < 0 || k >= defs.len() {
            Ok(g)
        } else {
            match global_const(g, defs[k]) {
                Err(e) => Err(e),
                Ok(g1) => global_decl(g1, d, k + 1),
            }
        },
        DeclV::Var(defs) => if k < 0 || k >= defs.len() {
            Ok(g)
        } else {
            match global_var(g, defs[k]) {
                Err(e) => Err(e),
                Ok(g1) => global_decl(g1, d, k + 1),
            }
        },
    }
}

/// The global variables and function signatures of the items from the `k`th on.
pub open spec fn signatures(g: KoopaV, items: Seq<GlobalItemV>, k: int) -> Result<KoopaV, ErrorView>
    decreases items.len() - k,
{
    if k < 0 || k >= items.len() {
        Ok(g)
    } else {
        match items[k] {
            GlobalItemV::FuncDef(f) => signatures(
                KoopaV { func_rets: g.func_rets.insert(f.name, f.ret_type), ..g },
                items,
                k + 1,
            ),
            GlobalItemV::FuncDecl(f) => signatures(
                KoopaV { func_rets: g.func_rets.insert(f.name, f.ret_type), ..g },
                items,
                k + 1,
            ),
            GlobalItemV::Decl(d) => match global_decl(g, d, 0) {
                Err(e) => Err(e),
                Ok(g1) => signatures(g1, items, k + 1),
            },
        }
    }
}

/// The functions of the items from the `k`th on, after a text.
pub open spec fn functions(g: KoopaV, items: Seq<GlobalItemV>, k: int, out: Seq<char>) -> Step<
    Seq<char>,
>
    decreases items.len() - k,
{
    if k < 0 || k >= items.len() {
        Ok((g, out))
    } else {
        match items[k] {
            GlobalItemV::FuncDef(f) => match func(g, f) {
                Err(e) => Err(e),
                Ok((g1, t)) => functions(g1, items, k + 1, out + t),
            },
            _ => functions(g, items, k + 1, out),
        }
    }
}

/// The state before anything has been generated.
pub open spec fn start() -> KoopaV {
    KoopaV {
        scopes: scopes::no_names(),
        counts: Map::empty(),
        tmp: 0,
        label: 0,
        sc: 0,
        loops: Seq::empty(),
        body: Seq::empty(),
        allocs: Seq::empty(),
        decls: Seq::empty(),
        declared: Map::empty(),
        global_decls: Seq::empty(),
        func_rets: Map::empty(),
        terminated: false,
        sig_names: Map::empty(),
    }
}

/// The text of a program. Global variables stand before the first function, or at the end where
/// there is none.
pub open spec fn program(items: Seq<GlobalItemV>) -> Result<Seq<char>, ErrorView> {
    match signatures(start(), items, 0) {
        Err(e) => Err(e),
        Ok(g) => match functions(g, items, 0, Seq::empty()) {
            Err(e) => Err(e),
            Ok((g1, out)) => Ok(out + g1.global_decls),
        },
    }
}

} // verus!

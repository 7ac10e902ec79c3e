//! Translates a syntax tree to the intermediate representation.

use crate::ast::{
    self, BinaryOp, Block, BlockItem, CompUnit, ConstDef, Decl, Expr, ExprV, FuncDef, FuncParam,
    GlobalItem, Stmt, Type, UnaryOp, VarDef,
};
use crate::codegen::{lib_func_params, lib_func_ret_type};
use crate::error::{fail, CompilerError, CompilerResult, ErrorView};
use crate::eval::{as_int, eval_binary, eval_unary};
use crate::ir::{self, IrArithOp, IrCmpOp, IrFuncDecl, IrGlobal, IrGlobalInit, IrOperand, IrProgram, IrType};
use crate::ir_builder::{BuilderMeta, IrBuilder};
use crate::names::NameMap;
use crate::scopes;
use crate::text::{self, cat3, dec_usize};
use crate::translate::{self, GenV, SymV};
use vstd::prelude::*;

verus! {

broadcast use {
    crate::ast::exprs_push,
    crate::ast::call_view,
    crate::ast::init_list_view,
    crate::ast::block_view,
    crate::ir::funcs_push,
    crate::ir::globals_push,
    crate::ir::decls_push,
};

// ── Symbols ──────────────────────────────────────────────────────────────────

/// What a name stands for.
#[derive(Debug)]
pub enum IrSymbol {
    Const(i32),
    /// A variable, by the index of its name.
    Var(usize),
    /// An array and its dimensions.
    Array(usize, Vec<i32>),
    /// A parameter that points to integers.
    PtrArray(usize),
    /// A parameter that points to arrays of the given dimensions.
    NdParam { name: usize, dims: Vec<i32> },
}

impl View for IrSymbol {
    type V = SymV;

    open spec fn view(&self) -> SymV {
        match *self {
            IrSymbol::Const(v) => SymV::Const(v),
            IrSymbol::Var(n) => SymV::Var(n),
            IrSymbol::Array(n, dims) => SymV::Array(n, dims@),
            IrSymbol::PtrArray(n) => SymV::PtrArray(n),
            IrSymbol::NdParam { name, dims } => SymV::NdParam { name, dims: dims@ },
        }
    }
}

/// A copy of a list of integers.
pub fn copy_ints(v: &Vec<i32>) -> (r: Vec<i32>)
    ensures
        r@ == v@,
{
    let mut out: Vec<i32> = Vec::new();
    let mut i: usize = 0;
    while i < v.len()
        invariant
            i <= v.len(),
            out@ == v@.take(i as int),
        decreases v.len() - i,
    {
        out.push(v[i]);
        i = i + 1;
        assert(v@.take(i as int) =~= v@.take(i - 1).push(v@[i - 1]));
    }
    assert(v@.take(i as int) =~= v@);
    out
}

impl Clone for IrSymbol {
    fn clone(&self) -> (r: Self)
        ensures
            r@ == self@,
    {
        match self {
            IrSymbol::Const(v) => IrSymbol::Const(*v),
            IrSymbol::Var(n) => IrSymbol::Var(*n),
            IrSymbol::Array(n, dims) => IrSymbol::Array(*n, copy_ints(dims)),
            IrSymbol::PtrArray(n) => IrSymbol::PtrArray(*n),
            IrSymbol::NdParam { name, dims } => IrSymbol::NdParam {
                name: *name,
                dims: copy_ints(dims),
            },
        }
    }
}

/// An error whose message quotes a name.
pub(crate) fn quote(before: &str, name: &str, after: &str) -> (r: CompilerError)
    ensures
        r@ == translate::quoted(before@, name@, after@),
{
    CompilerError::new(cat3(before, name, after))
}

pub(crate) fn too_large() -> (r: CompilerError)
    ensures
        r@ == translate::too_large(),
{
    fail("program too large")
}

pub(crate) fn bad_dims() -> (r: CompilerError)
    ensures
        r@ == translate::bad_dims(),
{
    fail("invalid array dimension")
}

// ── The translator ───────────────────────────────────────────────────────────

pub struct AstToIr {
    pub program: IrProgram,
    scopes: Vec<NameMap<IrSymbol>>,
    globals: NameMap<IrSymbol>,
    name_count: NameMap<usize>,
    loop_stack: Vec<(usize, usize)>,
    current_ret_type: IrType,
    lib_funcs_emitted: NameMap<bool>,
    func_ret_types: NameMap<Type>,
    builder: IrBuilder,
}

spec fn scopes_view(v: Seq<NameMap<IrSymbol>>) -> Seq<Map<Seq<char>, SymV>> {
    v.map_values(|m: NameMap<IrSymbol>| m@)
}

impl View for AstToIr {
    type V = GenV;

    closed spec fn view(&self) -> GenV {
        GenV {
            program: self.program@,
            scopes: scopes_view(self.scopes@),
            globals: self.globals@,
            counts: self.name_count@,
            loops: self.loop_stack@,
            ret_type: self.current_ret_type,
            lib_emitted: self.lib_funcs_emitted@,
            func_rets: self.func_ret_types@,
            b: self.builder@,
        }
    }
}

impl AstToIr {
    pub fn new() -> (r: Self)
        ensures
            r@ == translate::start(),
            r@.b.wf(),
    {
        let mut scopes: Vec<NameMap<IrSymbol>> = Vec::new();
        scopes.push(NameMap::new());
        let r = AstToIr {
            program: IrProgram::new(),
            scopes,
            globals: NameMap::new(),
            name_count: NameMap::new(),
            loop_stack: Vec::new(),
            current_ret_type: IrType::I32,
            lib_funcs_emitted: NameMap::new(),
            func_ret_types: NameMap::new(),
            builder: idle_builder(),
        };
        assert(r@.scopes =~= seq![Map::empty()]);
        assert(r@ =~= translate::start());
        r
    }

    /// There is a scope, and the current block takes instructions.
    spec fn ready(self) -> bool {
        self@.b.wf() && !self@.b.terminated && self@.scopes.len() > 0
    }

    /// Scopes and loops are those of an earlier state.
    spec fn kept(self, before: AstToIr) -> bool {
        self@.scopes == before@.scopes && self@.loops == before@.loops
    }

    // ── Scopes and names ─────────────────────────────────────────────────────

    fn enter_scope(&mut self)
        ensures
            final(self)@ == (GenV { scopes: old(self)@.scopes.push(Map::empty()), ..old(self)@ }),
    {
        let ghost before = self.scopes@;
        self.scopes.push(NameMap::new());
        assert(self@.scopes =~= scopes_view(before).push(Map::empty()));
    }

    fn exit_scope(&mut self)
        requires
            old(self)@.scopes.len() > 0,
        ensures
            final(self)@ == (GenV { scopes: old(self)@.scopes.drop_last(), ..old(self)@ }),
    {
        let ghost before = self.scopes@;
        self.scopes.pop();
        assert(self@.scopes =~= scopes_view(before).drop_last());
    }

    fn lookup(&self, name: &str) -> (r: Option<&IrSymbol>)
        ensures
            match self@.lookup(name@) {
                Some(s) => r matches Some(x) && x@ == s,
                None => r is None,
            },
    {
        let mut i: usize = self.scopes.len();
        let ghost scopes = self@.scopes;
        assert(scopes.take(i as int) =~= scopes);
        while i > 0
            invariant
                i <= self.scopes.len(),
                scopes == scopes_view(self.scopes@),
                scopes::lookup_in(scopes, self@.globals, name@) == scopes::lookup_in(
                    scopes.take(i as int),
                    self@.globals,
                    name@,
                ),
                self@.scopes == scopes,
            decreases i,
        {
            assert(scopes.take(i as int).drop_last() =~= scopes.take(i - 1));
            i = i - 1;
            if let Some(sym) = self.scopes[i].get(name) {
                return Some(sym);
            }
        }
        self.globals.get(name)
    }

    fn current_scope_contains(&self, name: &str) -> (r: bool)
        ensures
            r == translate::declared(self@, name@),
    {
        let n = self.scopes.len();
        n > 0 && self.scopes[n - 1].contains_key(name)
    }

    /// Binds a name in the innermost scope.
    fn bind(&mut self, name: String, sym: IrSymbol)
        requires
            old(self)@.scopes.len() > 0,
        ensures
            final(self)@ == old(self)@.bind(name@, sym@),
            final(self)@.scopes.len() == old(self)@.scopes.len(),
    {
        let ghost before = self@;
        let n = self.scopes.len();
        self.scopes[n - 1].insert(name, sym);
        assert(self@.scopes =~= before.bind(name@, sym@).scopes);
    }

    fn mangle(&mut self, name: &str) -> (r: CompilerResult<String>)
        ensures
            match old(self)@.mangle(name@) {
                Ok((g, s)) => r matches Ok(x) && x@ == s && final(self)@ == g,
                Err(e) => r matches Err(x) && x@ == e,
            },
    {
        let count: usize = match self.name_count.get(name) {
            Some(n) => *n,
            None => 0,
        };
        if count == usize::MAX {
            return Err(too_large());
        }
        self.name_count.insert(name.to_owned(), count + 1);
        if count == 0 {
            Ok(name.to_owned())
        } else {
            Ok(cat3(name, "_", dec_usize(count).as_str()))
        }
    }

    /// A variable name that also differs from that of a global variable.
    fn local_name(&mut self, name: &str) -> (r: CompilerResult<String>)
        ensures
            match old(self)@.local_name(name@) {
                Ok((g, s)) => r matches Ok(x) && x@ == s && final(self)@ == g,
                Err(e) => r matches Err(x) && x@ == e,
            },
    {
        if self.globals.contains_key(name) {
            self.mangle(name)?;
        }
        self.mangle(name)
    }

    // ── Instructions ─────────────────────────────────────────────────────────

    fn load(&mut self, src: IrOperand) -> (r: CompilerResult<IrOperand>)
        requires
            old(self).ready(),
        ensures
            match old(self)@.def(ir::InstV::Load { dest: 0, src }) {
                Ok((g, v)) => r == Ok::<IrOperand, CompilerError>(v) && final(self)@ == g
                    && final(self).ready() && final(self).kept(*old(self)),
                Err(e) => r matches Err(x) && x@ == e,
            },
    {
        if !self.builder.has_tmp() {
            return Err(too_large());
        }
        Ok(self.builder.emit_load(src))
    }

    fn arith(&mut self, op: IrArithOp, lhs: IrOperand, rhs: IrOperand) -> (r: CompilerResult<
        IrOperand,
    >)
        requires
            old(self).ready(),
        ensures
            match old(self)@.def(ir::InstV::Arith { dest: 0, op, lhs, rhs }) {
                Ok((g, v)) => r == Ok::<IrOperand, CompilerError>(v) && final(self)@ == g
                    && final(self).ready() && final(self).kept(*old(self)),
                Err(e) => r matches Err(x) && x@ == e,
            },
    {
        if !self.builder.has_tmp() {
            return Err(too_large());
        }
        Ok(self.builder.emit_arith(op, lhs, rhs))
    }

    fn compare(&mut self, op: IrCmpOp, lhs: IrOperand, rhs: IrOperand) -> (r: CompilerResult<
        IrOperand,
    >)
        requires
            old(self).ready(),
        ensures
            match old(self)@.def(ir::InstV::Icmp { dest: 0, op, lhs, rhs }) {
                Ok((g, v)) => r == Ok::<IrOperand, CompilerError>(v) && final(self)@ == g
                    && final(self).ready() && final(self).kept(*old(self)),
                Err(e) => r matches Err(x) && x@ == e,
            },
    {
        if !self.builder.has_tmp() {
            return Err(too_large());
        }
        Ok(self.builder.emit_icmp(op, lhs, rhs))
    }

    fn getptr(&mut self, ptr: IrOperand, index: IrOperand, elem_size: i32) -> (r: CompilerResult<
        IrOperand,
    >)
        requires
            old(self).ready(),
        ensures
            match old(self)@.def(ir::InstV::GetPtr { dest: 0, ptr, index, elem_size }) {
                Ok((g, v)) => r == Ok::<IrOperand, CompilerError>(v) && final(self)@ == g
                    && final(self).ready() && final(self).kept(*old(self)),
                Err(e) => r matches Err(x) && x@ == e,
            },
    {
        if !self.builder.has_tmp() {
            return Err(too_large());
        }
        Ok(self.builder.emit_getptr(ptr, index, elem_size))
    }

    fn getelemptr(&mut self, ptr: IrOperand, index: IrOperand, elem_size: i32) -> (r:
        CompilerResult<IrOperand>)
        requires
            old(self).ready(),
        ensures
            match old(self)@.def(ir::InstV::GetElemPtr { dest: 0, ptr, index, elem_size }) {
                Ok((g, v)) => r == Ok::<IrOperand, CompilerError>(v) && final(self)@ == g
                    && final(self).ready() && final(self).kept(*old(self)),
                Err(e) => r matches Err(x) && x@ == e,
            },
    {
        if !self.builder.has_tmp() {
            return Err(too_large());
        }
        Ok(self.builder.emit_getelemptr(ptr, index, elem_size))
    }

    /// The address of an element of the array at `base`.
    fn array_step(&mut self, base: IrOperand, index: IrOperand, size: i32) -> (r: CompilerResult<
        IrOperand,
    >)
        requires
            old(self).ready(),
        ensures
            match translate::array_step(old(self)@, base, index, size) {
                Ok((g, v)) => r == Ok::<IrOperand, CompilerError>(v) && final(self)@ == g
                    && final(self).ready() && final(self).kept(*old(self)),
                Err(e) => r matches Err(x) && x@ == e,
            },
    {
        let p = self.getelemptr(base, IrOperand::Int(0), size)?;
        self.getptr(p, index, size)
    }

    /// The value at an address, or the address of the first element of the row there.
    fn element(&mut self, p: IrOperand, whole: bool, row_size: i32) -> (r: CompilerResult<
        IrOperand,
    >)
        requires
            old(self).ready(),
        ensures
            match translate::element(old(self)@, p, whole, row_size) {
                Ok((g, v)) => r == Ok::<IrOperand, CompilerError>(v) && final(self)@ == g
                    && final(self).ready() && final(self).kept(*old(self)),
                Err(e) => r matches Err(x) && x@ == e,
            },
    {
        if whole {
            self.load(p)
        } else {
            self.getelemptr(p, IrOperand::Int(0), row_size)
        }
    }

    fn label(&mut self) -> (r: CompilerResult<usize>)
        requires
            old(self)@.b.wf(),
        ensures
            match old(self)@.label() {
                Ok((g, v)) => r == Ok::<usize, CompilerError>(v) && final(self)@ == g && final(self)@.b.wf(),
                Err(e) => r matches Err(x) && x@ == e,
            },
    {
        if !self.builder.has_label() {
            return Err(too_large());
        }
        Ok(self.builder.alloc_label())
    }

    fn labels(&mut self) -> (r: CompilerResult<(usize, usize, usize)>)
        requires
            old(self).ready(),
        ensures
            match old(self)@.labels() {
                Ok((g, v)) => r == Ok::<(usize, usize, usize), CompilerError>(v) && final(self)@
                    == g && final(self).ready() && final(self).kept(*old(self)),
                Err(e) => r matches Err(x) && x@ == e,
            },
    {
        let a = self.label()?;
        let b = self.label()?;
        let c = self.label()?;
        Ok((a, b, c))
    }

    fn intern(&mut self, name: String) -> (r: CompilerResult<usize>)
        requires
            old(self).ready(),
        ensures
            match old(self)@.intern(name@) {
                Ok((g, v)) => r == Ok::<usize, CompilerError>(v) && final(self)@ == g
                    && final(self).ready() && final(self).kept(*old(self)),
                Err(e) => r matches Err(x) && x@ == e,
            },
    {
        if !self.builder.has_global() {
            return Err(too_large());
        }
        Ok(self.builder.intern_global(name))
    }

    fn short_circuit(&mut self) -> (r: CompilerResult<usize>)
        requires
            old(self).ready(),
        ensures
            match old(self)@.short_circuit() {
                Ok((g, v)) => r == Ok::<usize, CompilerError>(v) && final(self)@ == g
                    && final(self).ready() && final(self).kept(*old(self)),
                Err(e) => r matches Err(x) && x@ == e,
            },
    {
        if !self.builder.has_sc() {
            return Err(too_large());
        }
        let sc = self.builder.alloc_sc();
        self.builder.add_pending_alloca(sc, IrType::I32);
        Ok(sc)
    }
}

// ── Array shapes ─────────────────────────────────────────────────────────────

/// The type of an array.
pub(crate) fn make_array_type(dims: &[i32]) -> (r: IrType)
    ensures
        r == translate::array_type(dims@),
{
    let mut ty = IrType::I32;
    let mut i: usize = dims.len();
    while i > 0
        invariant
            i <= dims.len(),
            ty == translate::array_type(dims@.skip(i as int)),
        decreases i,
    {
        i = i - 1;
        assert(dims@.skip(i as int).drop_first() =~= dims@.skip(i + 1));
        ty = IrType::Array(Box::new(ty), dims[i] as u32);
    }
    assert(dims@.skip(0) =~= dims@);
    ty
}

/// The size in bytes of what is left of an array after `k` indices.
fn size_from(dims: &[i32], k: usize) -> (r: i32)
    ensures
        r == translate::size_from(dims@, k as int),
{
    let mut size: i32 = 4;
    let mut i: usize = dims.len();
    while i > k
        invariant
            i <= dims.len(),
            i >= k || i == dims.len(),
            size == translate::size_from(dims@, i as int),
        decreases i,
    {
        i = i - 1;
        size = dims[i].wrapping_mul(size);
    }
    size
}

/// The number of elements of an array.
pub(crate) fn total(dims: &[i32]) -> (r: Option<usize>)
    ensures
        r == translate::total(dims@),
{
    let mut t: usize = 1;
    let mut i: usize = 0;
    assert(dims@.take(0) =~= Seq::empty());
    while i < dims.len()
        invariant
            i <= dims.len(),
            translate::total(dims@.take(i as int)) == Some(t),
        decreases dims.len() - i,
    {
        let d = dims[i];
        assert(dims@.take(i + 1).drop_last() =~= dims@.take(i as int));
        if d < 0 {
            proof {
                total_fails(dims@, i + 1);
            }
            return None;
        }
        match t.checked_mul(d as usize) {
            Some(n) => {
                t = n;
            },
            None => {
                proof {
                    total_fails(dims@, i + 1);
                }
                return None;
            },
        }
        i = i + 1;
    }
    assert(dims@.take(i as int) =~= dims@);
    Some(t)
}

/// An array has no number of elements where one of its outer parts has none.
proof fn total_fails(dims: Seq<i32>, k: int)
    requires
        0 <= k <= dims.len(),
        translate::total(dims.take(k)) is None,
    ensures
        translate::total(dims) is None,
    decreases dims.len() - k,
{
    if k == dims.len() {
        assert(dims.take(k) =~= dims);
    } else {
        assert(dims.take(k + 1).drop_last() =~= dims.take(k));
        total_fails(dims, k + 1);
    }
}

/// An item of an initializer; zero where there is none.
pub(crate) open spec fn item_view(e: Option<&Expr>) -> ExprV {
    match e {
        Some(x) => x.view(),
        None => ExprV::Int(0),
    }
}

/// The items of an initializer.
pub(crate) open spec fn items_view(v: Seq<Option<&Expr>>) -> Seq<ExprV> {
    v.map_values(|e: Option<&Expr>| item_view(e))
}

pub(crate) proof fn items_push(v: Seq<Option<&Expr>>, e: Option<&Expr>)
    ensures
        items_view(v.push(e)) == items_view(v).push(item_view(e)),
{
    assert(items_view(v.push(e)) =~= items_view(v).push(item_view(e)));
}

/// Adds zeros up to a length.
pub(crate) fn fill<'a>(flat: &mut Vec<Option<&'a Expr>>, len: usize)
    ensures
        items_view(final(flat)@) == translate::fill(items_view(old(flat)@), len as int),
        final(flat)@.len() >= old(flat)@.len(),
{
    let ghost before = flat@;
    let ghost start = items_view(before);
    while flat.len() < len
        invariant
            start == items_view(before),
            before.len() <= flat@.len(),
            flat@.len() <= len || flat@ == before,
            items_view(flat@) =~= start + Seq::new(
                (flat@.len() - before.len()) as nat,
                |i: int| ExprV::Int(0),
            ),
        decreases len - flat@.len(),
    {
        proof {
            items_push(flat@, None);
        }
        flat.push(None);
    }
    assert(items_view(flat@) =~= translate::fill(start, len as int));
}

/// Adds zeros up to `start + count` items.
fn fill_to<'a>(flat: &mut Vec<Option<&'a Expr>>, start: usize, count: usize) -> (r: CompilerResult<
    (),
>)
    ensures
        match translate::fill_to(items_view(old(flat)@), start + count) {
            Ok(v) => r is Ok && items_view(final(flat)@) == v,
            Err(e) => r matches Err(x) && x@ == e,
        },
{
    match start.checked_add(count) {
        Some(len) => {
            fill(flat, len);
            Ok(())
        },
        None => Err(bad_dims()),
    }
}

/// Adds zeros so that what follows `start` is made of whole rows.
fn fill_rows<'a>(flat: &mut Vec<Option<&'a Expr>>, start: usize, inner: i32) -> (r: CompilerResult<
    (),
>)
    requires
        start <= old(flat)@.len(),
    ensures
        match translate::fill_rows(items_view(old(flat)@), start as int, inner) {
            Some(v) => r is Ok && items_view(final(flat)@) == v,
            None => r matches Err(x) && x@ == translate::bad_dims(),
        },
{
    if inner <= 0 {
        return Err(bad_dims());
    }
    let row = inner as usize;
    let rem: usize = (row - (flat.len() - start) % row) % row;
    let ghost before = items_view(flat@);
    let mut i: usize = 0;
    while i < rem
        invariant
            i <= rem,
            items_view(flat@) =~= before + Seq::new(i as nat, |k: int| ExprV::Int(0)),
        decreases rem - i,
    {
        proof {
            items_push(flat@, None);
        }
        flat.push(None);
        i = i + 1;
    }
    assert(items_view(flat@) =~= translate::fill(before, before.len() + rem));
    Ok(())
}

/// Adds zeros up to a length.
fn pad(vals: &mut Vec<i32>, len: usize)
    ensures
        final(vals)@ == translate::pad(old(vals)@, len as int),
{
    let ghost before = vals@;
    while vals.len() < len
        invariant
            before.len() <= vals@.len(),
            vals@.len() <= len || vals@ == before,
            vals@ =~= before + Seq::new((vals@.len() - before.len()) as nat, |i: int| 0i32),
        decreases len - vals@.len(),
    {
        vals.push(0);
    }
    assert(vals@ =~= translate::pad(before, len as int));
}

/// Adds zeros up to `start + count` values.
pub(crate) fn pad_to(vals: &mut Vec<i32>, start: usize, count: usize) -> (r: CompilerResult<()>)
    ensures
        match translate::pad_to(old(vals)@, start + count) {
            Ok(v) => r is Ok && final(vals)@ == v,
            Err(e) => r matches Err(x) && x@ == e,
        },
{
    match start.checked_add(count) {
        Some(len) => {
            pad(vals, len);
            Ok(())
        },
        None => Err(bad_dims()),
    }
}

/// Adds zeros so that what follows `start` is made of whole rows.
pub(crate) fn align(vals: &mut Vec<i32>, start: usize, inner: i32) -> (r: CompilerResult<()>)
    requires
        start <= old(vals)@.len(),
    ensures
        match translate::align(old(vals)@, start as int, inner) {
            Some(v) => r is Ok && final(vals)@ == v,
            None => r matches Err(x) && x@ == translate::bad_dims(),
        },
{
    if inner <= 0 {
        return Err(bad_dims());
    }
    let row = inner as usize;
    let rem: usize = (row - (vals.len() - start) % row) % row;
    let ghost before = vals@;
    let mut i: usize = 0;
    while i < rem
        invariant
            i <= rem,
            vals@ =~= before + Seq::new(i as nat, |k: int| 0i32),
        decreases rem - i,
    {
        vals.push(0);
        i = i + 1;
    }
    assert(vals@ =~= translate::pad(before, before.len() + rem));
    Ok(())
}

/// The items of an initializer of a global array, one for each element.
fn flatten_init_static<'a>(dims: &[i32], init: &'a Expr, flat: &mut Vec<Option<&'a Expr>>) -> (r:
    CompilerResult<()>)
    ensures
        match translate::global_flat(dims@, init.view(), items_view(old(flat)@)) {
            Ok(v) => r is Ok && items_view(final(flat)@) == v && v.len() >= old(flat)@.len(),
            Err(e) => r matches Err(x) && x@ == e,
        },
    decreases init,
{
    if dims.len() > 0 {
        if let Expr::InitList(items) = init {
            let start = flat.len();
            let ghost before = items_view(flat@);
            let ghost all = ast::exprs(items@);
            let mut k: usize = 0;
            while k < items.len()
                invariant
                    k <= items.len(),
                    dims@.len() > 0,
                    init == Expr::InitList(*items),
                    all == ast::exprs(items@),
                    start <= flat@.len(),
                    before.len() == start,
                    before == items_view(old(flat)@),
                    translate::global_flat_items(dims@, all, 0, before, start as int)
                        == translate::global_flat_items(
                        dims@,
                        all,
                        k as int,
                        items_view(flat@),
                        start as int,
                    ),
                decreases items.len() - k,
            {
                let item = &items[k];
                assert(all[k as int] == item.view());
                if let Expr::InitList(_) = item {
                    fill_rows(flat, start, dims[dims.len() - 1])?;
                    if dims.len() > 1 {
                        let rows = vstd::slice::slice_subrange(dims, 1, dims.len());
                        assert(rows@ =~= dims@.drop_first());
                        flatten_init_static(rows, item, flat)?;
                    }
                } else {
                    proof {
                        items_push(flat@, Some(item));
                    }
                    flat.push(Some(item));
                }
                k = k + 1;
            }
            return match total(dims) {
                None => Err(bad_dims()),
                Some(t) => fill_to(flat, start, t),
            };
        }
    }
    proof {
        items_push(flat@, Some(init));
    }
    flat.push(Some(init));
    Ok(())
}

/// The items of an initializer of a local array, one for each element.
fn flatten_init_vals<'a>(dims: &[i32], init: &'a Expr, flat: &mut Vec<Option<&'a Expr>>) -> (r:
    CompilerResult<()>)
    ensures
        match translate::local_flat(dims@, init.view(), items_view(old(flat)@)) {
            Ok(v) => r is Ok && items_view(final(flat)@) == v && v.len() >= old(flat)@.len(),
            Err(e) => r matches Err(x) && x@ == e,
        },
    decreases init, 0int,
{
    let is_list = matches!(init, Expr::InitList(_));
    if dims.len() == 0 {
        if !is_list {
            proof {
                items_push(flat@, Some(init));
            }
            flat.push(Some(init));
        }
        return Ok(());
    }
    let start = flat.len();
    let count = match total(dims) {
        None => return Err(bad_dims()),
        Some(t) => t,
    };
    if let Expr::InitList(items) = init {
        let ghost before = items_view(flat@);
        let ghost all = ast::exprs(items@);
        let mut k: usize = 0;
        while k < items.len()
            invariant
                k <= items.len(),
                dims@.len() > 0,
                init == Expr::InitList(*items),
                all == ast::exprs(items@),
                start <= flat@.len(),
                before.len() == start,
                before == items_view(old(flat)@),
                translate::total(dims@) is Some,
                translate::local_flat_items(dims@, all, 0, before, start as int)
                    == translate::local_flat_items(
                    dims@,
                    all,
                    k as int,
                    items_view(flat@),
                    start as int,
                ),
            decreases items.len() - k,
        {
            let item = &items[k];
            assert(all[k as int] == item.view());
            if let Expr::InitList(_) = item {
                fill_rows(flat, start, dims[dims.len() - 1])?;
                flatten_row(dims, item, flat)?;
            } else {
                proof {
                    items_push(flat@, Some(item));
                }
                flat.push(Some(item));
            }
            k = k + 1;
        }
    } else {
        proof {
            items_push(flat@, Some(init));
        }
        flat.push(Some(init));
    }
    fill_to(flat, start, count)
}

/// The items of a nested braced list, with zeros up to the end of its row.
fn flatten_row<'a>(dims: &[i32], item: &'a Expr, flat: &mut Vec<Option<&'a Expr>>) -> (r:
    CompilerResult<()>)
    requires
        dims@.len() > 0,
        dims@.last() > 0,
    ensures
        match translate::local_flat(
            translate::row_dims(dims@),
            item.view(),
            items_view(old(flat)@),
        ) {
            Err(e) => r matches Err(x) && x@ == e,
            Ok(all) => match translate::row_end(dims@, old(flat)@.len() as int) {
                None => r matches Err(x) && x@ == translate::bad_dims(),
                Some(end) => match translate::fill_to(all, end) {
                    Err(e) => r matches Err(x) && x@ == e,
                    Ok(v) => r is Ok && items_view(final(flat)@) == v && v.len() >= old(
                        flat,
                    )@.len(),
                },
            },
        },
    decreases item, 1int,
{
    let start = flat.len();
    if dims.len() > 1 {
        let rows = vstd::slice::slice_subrange(dims, 1, dims.len());
        assert(rows@ =~= dims@.drop_first());
        flatten_init_vals(rows, item, flat)?;
        match total(rows) {
            None => Err(bad_dims()),
            Some(t) => fill_to(flat, start, t),
        }
    } else {
        let rows = vstd::slice::slice_subrange(dims, 0, 0);
        assert(rows@ =~= Seq::empty());
        flatten_init_vals(rows, item, flat)?;
        fill_to(flat, start, dims[dims.len() - 1] as usize)
    }
}

// ── Expressions ──────────────────────────────────────────────────────────────

/// The number of indices at the end of an expression, up to a limit.
pub(crate) fn count_indices(expr: &Expr, limit: usize) -> (r: usize)
    ensures
        r == if translate::index_count(expr.view()) < limit {
            translate::index_count(expr.view())
        } else {
            limit as int
        },
    decreases limit,
{
    proof {
        index_count_nonneg(expr.view());
    }
    if limit == 0 {
        return 0;
    }
    match expr {
        Expr::Index { array, .. } => 1 + count_indices(array, limit - 1),
        _ => 0,
    }
}

pub proof fn index_count_nonneg(e: ast::ExprV)
    ensures
        translate::index_count(e) >= 0,
    decreases e,
{
    if let ast::ExprV::Index { array, .. } = e {
        index_count_nonneg(*array);
    }
}

impl AstToIr {
    fn eval_const(&self, expr: &Expr) -> (r: CompilerResult<i32>)
        ensures
            match translate::const_value(self@, expr.view()) {
                Ok(v) => r == Ok::<i32, CompilerError>(v),
                Err(e) => r matches Err(x) && x@ == e,
            },
        decreases expr,
    {
        match expr {
            Expr::Int(v) => Ok(*v),
            Expr::LVal(name) => match self.lookup(name.as_str()) {
                Some(IrSymbol::Const(v)) => Ok(*v),
                _ => Err(quote("'", name.as_str(), "' is not a compile-time constant")),
            },
            Expr::Unary { op, expr: inner } => {
                let v = self.eval_const(inner)?;
                Ok(eval_unary(*op, v))
            },
            Expr::Binary { op, lhs, rhs } => {
                let l = self.eval_const(lhs)?;
                let r = self.eval_const(rhs)?;
                match eval_binary(*op, l, r) {
                    Some(v) => Ok(v),
                    None => if matches!(op, BinaryOp::Div) {
                        Err(fail("div by zero"))
                    } else {
                        Err(fail("rem by zero"))
                    },
                }
            },
            _ => Err(fail("not a compile-time constant")),
        }
    }

    /// The values of constant expressions.
    fn eval_dims(&self, dims: &Vec<Expr>) -> (r: CompilerResult<Vec<i32>>)
        ensures
            match translate::const_values(self@, ast::exprs(dims@)) {
                Ok(v) => r matches Ok(x) && x@ == v,
                Err(e) => r matches Err(x) && x@ == e,
            },
    {
        let mut out: Vec<i32> = Vec::new();
        let ghost all = ast::exprs(dims@);
        let mut i: usize = 0;
        assert(all.take(0) =~= Seq::empty());
        while i < dims.len()
            invariant
                i <= dims.len(),
                all == ast::exprs(dims@),
                translate::const_values(self@, all.take(i as int)) == Ok::<Seq<i32>, ErrorView>(
                    out@,
                ),
            decreases dims.len() - i,
        {
            assert(all.take(i + 1).drop_last() =~= all.take(i as int));
            match self.eval_const(&dims[i]) {
                Ok(v) => {
                    out.push(v);
                },
                Err(e) => {
                    proof {
                        const_values_fail(self@, all, i + 1);
                    }
                    return Err(e);
                },
            }
            i = i + 1;
        }
        assert(all.take(i as int) =~= all);
        Ok(out)
    }

    /// The dimensions of an array parameter.
    fn eval_param_dims(&self, dims: &Vec<Expr>) -> (r: Vec<i32>)
        ensures
            r@ == translate::param_dims(self@, ast::exprs(dims@)),
    {
        let mut out: Vec<i32> = Vec::new();
        let ghost all = translate::param_dims(self@, ast::exprs(dims@));
        let mut i: usize = 0;
        while i < dims.len()
            invariant
                i <= dims.len(),
                all == translate::param_dims(self@, ast::exprs(dims@)),
                out@ =~= all.take(i as int),
            decreases dims.len() - i,
        {
            match self.eval_const(&dims[i]) {
                Ok(v) => {
                    out.push(v);
                },
                Err(_) => {
                    out.push(1);
                },
            }
            i = i + 1;
            assert(all.take(i as int) =~= all.take(i - 1).push(all[i - 1]));
        }
        assert(all.take(i as int) =~= all);
        out
    }

    /// What the name under the indices of an expression stands for.
    fn base_symbol(&self, expr: &Expr) -> (r: Option<&IrSymbol>)
        ensures
            match translate::base_symbol(self@, expr.view()) {
                Some(s) => r matches Some(x) && x@ == s,
                None => r is None,
            },
        decreases expr,
    {
        match expr {
            Expr::Index { array, .. } => self.base_symbol(array),
            Expr::LVal(name) => self.lookup(name.as_str()),
            _ => None,
        }
    }

    /// The dimensions of what the name under the indices of an expression stands for.
    fn base_dims(&self, expr: &Expr) -> (r: Vec<i32>)
        ensures
            r@ == translate::base_dims(self@, expr.view()),
    {
        match self.base_symbol(expr) {
            Some(IrSymbol::Array(_, dims)) => copy_ints(dims),
            Some(IrSymbol::NdParam { dims, .. }) => copy_ints(dims),
            _ => Vec::new(),
        }
    }

    /// Whether the name under the indices of an expression is an array parameter with fixed
    /// inner dimensions.
    fn is_ndparam_chain(&self, expr: &Expr) -> (r: bool)
        ensures
            r == translate::is_param(translate::base_symbol(self@, expr.view())),
    {
        match self.base_symbol(expr) {
            Some(IrSymbol::NdParam { .. }) => true,
            _ => false,
        }
    }

    /// Whether an expression has at least as many indices as its array has dimensions.
    fn fully_indexed(&self, expr: &Expr, extra: usize) -> (r: bool)
        requires
            extra <= 1,
        ensures
            r == (extra + translate::index_count(expr.view()) >= translate::total_dims(
                self@,
                expr.view(),
            )),
    {
        proof {
            index_count_nonneg(expr.view());
        }
        match self.base_symbol(expr) {
            Some(IrSymbol::Array(_, dims)) => {
                let n = dims.len();
                n <= extra || count_indices(expr, n - extra) == n - extra
            },
            Some(IrSymbol::NdParam { dims, .. }) => {
                let n = dims.len();
                if extra == 1 {
                    count_indices(expr, n) == n
                } else {
                    count_indices(expr, n) == n && (match expr {
                        Expr::Index { array, .. } => count_indices(array, n) == n,
                        _ => false,
                    })
                }
            },
            _ => extra == 1 || count_indices(expr, 1) == 1,
        }
    }

    /// The size of what is left of an array after the indices of an expression and `extra` more.
    fn size_after(&self, dims: &Vec<i32>, expr: &Expr, extra: usize) -> (r: i32)
        ensures
            r == translate::size_from(dims@, translate::index_count(expr.view()) + extra),
    {
        let n = count_indices(expr, dims.len());
        proof {
            index_count_nonneg(expr.view());
        }
        if dims.len() - n <= extra {
            4
        } else {
            size_from(dims.as_slice(), n + extra)
        }
    }
}

/// A list of constant expressions fails where one of its first parts does, in the same way.
proof fn const_values_fail(g: GenV, es: Seq<ast::ExprV>, k: int)
    requires
        0 <= k <= es.len(),
        translate::const_values(g, es.take(k)) is Err,
    ensures
        translate::const_values(g, es) == translate::const_values(g, es.take(k)),
    decreases es.len() - k,
{
    if k == es.len() {
        assert(es.take(k) =~= es);
    } else {
        assert(es.take(k + 1).drop_last() =~= es.take(k));
        const_values_fail(g, es, k + 1);
    }
}

impl AstToIr {
    fn gen_expr(&mut self, expr: &Expr) -> (r: CompilerResult<IrOperand>)
        requires
            old(self).ready(),
        ensures
            match translate::expr(old(self)@, expr.view()) {
                Ok((g, v)) => r == Ok::<IrOperand, CompilerError>(v) && final(self)@ == g
                    && final(self).ready() && final(self).kept(*old(self)),
                Err(e) => r matches Err(x) && x@ == e,
            },
        decreases expr, 2int,
    {
        match expr {
            Expr::Int(n) => Ok(IrOperand::Int(*n)),
            Expr::LVal(name) => self.gen_name(name.as_str()),
            Expr::Unary { op, expr: inner } => {
                let val = self.gen_expr(inner)?;
                match op {
                    UnaryOp::Plus => Ok(val),
                    UnaryOp::Minus => self.arith(IrArithOp::Sub, IrOperand::Int(0), val),
                    UnaryOp::Not => self.compare(IrCmpOp::Eq, val, IrOperand::Int(0)),
                }
            },
            Expr::Binary { op, lhs, rhs } => match op {
                BinaryOp::And => self.gen_and(expr),
                BinaryOp::Or => self.gen_or(expr),
                _ => {
                    let l = self.gen_expr(lhs)?;
                    let r = self.gen_expr(rhs)?;
                    self.gen_binary(*op, l, r)
                },
            },
            Expr::Call { name, args } => {
                let vals = self.gen_args(args)?;
                self.gen_call(name, vals)
            },
            Expr::Index { .. } => self.gen_index_expr(expr),
            Expr::InitList(_) => Err(fail("init list not allowed here")),
            Expr::Asm(code) => {
                if !self.builder.has_tmp() {
                    return Err(too_large());
                }
                Ok(self.builder.emit_asm_expr(code.clone()))
            },
        }
    }

    /// The value of a name.
    fn gen_name(&mut self, name: &str) -> (r: CompilerResult<IrOperand>)
        requires
            old(self).ready(),
        ensures
            match translate::name_value(old(self)@, name@) {
                Ok((g, v)) => r == Ok::<IrOperand, CompilerError>(v) && final(self)@ == g
                    && final(self).ready() && final(self).kept(*old(self)),
                Err(e) => r matches Err(x) && x@ == e,
            },
    {
        let sym = match self.lookup(name) {
            Some(s) => s.clone(),
            None => return Err(quote("undefined identifier '", name, "'")),
        };
        match sym {
            IrSymbol::Const(v) => Ok(IrOperand::Int(v)),
            IrSymbol::Var(n) => self.load(IrOperand::Global(n)),
            IrSymbol::Array(n, dims) => {
                let size = size_from(dims.as_slice(), 1);
                self.getelemptr(IrOperand::Global(n), IrOperand::Int(0), size)
            },
            IrSymbol::PtrArray(n) => Ok(IrOperand::Global(n)),
            IrSymbol::NdParam { name: n, .. } => Ok(IrOperand::Global(n)),
        }
    }

    /// A binary operator other than the short-circuit ones.
    fn gen_binary(&mut self, op: BinaryOp, lhs: IrOperand, rhs: IrOperand) -> (r: CompilerResult<
        IrOperand,
    >)
        requires
            old(self).ready(),
            !(op is And),
            !(op is Or),
        ensures
            match old(self)@.def(translate::binary_inst(op, lhs, rhs)) {
                Ok((g, v)) => r == Ok::<IrOperand, CompilerError>(v) && final(self)@ == g
                    && final(self).ready() && final(self).kept(*old(self)),
                Err(e) => r matches Err(x) && x@ == e,
            },
    {
        match op {
            BinaryOp::Add => self.arith(IrArithOp::Add, lhs, rhs),
            BinaryOp::Sub => self.arith(IrArithOp::Sub, lhs, rhs),
            BinaryOp::Mul => self.arith(IrArithOp::Mul, lhs, rhs),
            BinaryOp::Div => self.arith(IrArithOp::Div, lhs, rhs),
            BinaryOp::Rem => self.arith(IrArithOp::Mod, lhs, rhs),
            BinaryOp::Lt => self.compare(IrCmpOp::Lt, lhs, rhs),
            BinaryOp::Gt => self.compare(IrCmpOp::Gt, lhs, rhs),
            BinaryOp::Le => self.compare(IrCmpOp::Le, lhs, rhs),
            BinaryOp::Ge => self.compare(IrCmpOp::Ge, lhs, rhs),
            BinaryOp::Eq => self.compare(IrCmpOp::Eq, lhs, rhs),
            _ => self.compare(IrCmpOp::Ne, lhs, rhs),
        }
    }

    /// The condition that the first operand of a short-circuit operator branches on.
    fn as_br_cond(&mut self, val: IrOperand) -> (r: CompilerResult<IrOperand>)
        requires
            old(self).ready(),
        ensures
            match translate::branch_cond(old(self)@, val) {
                Ok((g, v)) => r == Ok::<IrOperand, CompilerError>(v) && final(self)@ == g
                    && final(self).ready() && final(self).kept(*old(self)),
                Err(e) => r matches Err(x) && x@ == e,
            },
    {
        match val {
            IrOperand::Int(n) => Ok(IrOperand::Int(as_int(n != 0))),
            _ => self.compare(IrCmpOp::Ne, val, IrOperand::Int(0)),
        }
    }

    /// Stores the value of a short-circuit operator that its first operand has decided.
    fn gen_decided(&mut self, value: i32, sc: usize, end: usize)
        requires
            old(self).ready(),
        ensures
            final(self)@ == translate::decided(old(self)@, value, sc, end),
            final(self)@.b.wf(),
            final(self).kept(*old(self)),
    {
        self.builder.emit_store(IrOperand::Int(value), IrOperand::Global(sc));
        self.builder.emit_jump(end);
    }

    fn gen_and(&mut self, expr: &Expr) -> (r: CompilerResult<IrOperand>)
        requires
            old(self).ready(),
            *expr matches Expr::Binary { op, .. } && op is And,
        ensures
            match translate::expr(old(self)@, expr.view()) {
                Ok((g, v)) => r == Ok::<IrOperand, CompilerError>(v) && final(self)@ == g
                    && final(self).ready() && final(self).kept(*old(self)),
                Err(e) => r matches Err(x) && x@ == e,
            },
        decreases expr, 0int,
    {
        if let Expr::Binary { lhs, rhs, .. } = expr {
            let sc = self.short_circuit()?;
            let l = self.gen_expr(lhs)?;
            let cond = self.as_br_cond(l)?;
            let (rhs_l, false_l, end_l) = self.labels()?;
            self.builder.emit_br(cond, rhs_l, false_l);
            self.builder.start_block(rhs_l);
            let rv = self.gen_expr(rhs)?;
            let t = self.compare(IrCmpOp::Ne, rv, IrOperand::Int(0))?;
            self.builder.emit_store(t, IrOperand::Global(sc));
            self.builder.emit_jump(end_l);
            self.builder.start_block(false_l);
            self.gen_decided(0, sc, end_l);
            self.builder.start_block(end_l);
            self.load(IrOperand::Global(sc))
        } else {
            Err(too_large())
        }
    }

    fn gen_or(&mut self, expr: &Expr) -> (r: CompilerResult<IrOperand>)
        requires
            old(self).ready(),
            *expr matches Expr::Binary { op, .. } && op is Or,
        ensures
            match translate::expr(old(self)@, expr.view()) {
                Ok((g, v)) => r == Ok::<IrOperand, CompilerError>(v) && final(self)@ == g
                    && final(self).ready() && final(self).kept(*old(self)),
                Err(e) => r matches Err(x) && x@ == e,
            },
        decreases expr, 0int,
    {
        if let Expr::Binary { lhs, rhs, .. } = expr {
            let sc = self.short_circuit()?;
            let l = self.gen_expr(lhs)?;
            let cond = self.as_br_cond(l)?;
            let (true_l, rhs_l, end_l) = self.labels()?;
            self.builder.emit_br(cond, true_l, rhs_l);
            self.builder.start_block(true_l);
            self.gen_decided(1, sc, end_l);
            self.builder.start_block(rhs_l);
            let rv = self.gen_expr(rhs)?;
            let t = self.compare(IrCmpOp::Ne, rv, IrOperand::Int(0))?;
            self.builder.emit_store(t, IrOperand::Global(sc));
            self.builder.emit_jump(end_l);
            self.builder.start_block(end_l);
            self.load(IrOperand::Global(sc))
        } else {
            Err(too_large())
        }
    }

    /// The values of the arguments of a call.
    #[verifier::loop_isolation(false)]
    fn gen_args(&mut self, args: &Vec<Expr>) -> (r: CompilerResult<Vec<IrOperand>>)
        requires
            old(self).ready(),
        ensures
            match translate::call_args(old(self)@, ast::exprs(args@), 0, Seq::empty()) {
                Ok((g, v)) => r matches Ok(x) && x@ == v && final(self)@ == g && final(self).ready()
                    && final(self).kept(*old(self)),
                Err(e) => r matches Err(x) && x@ == e,
            },
        decreases args, 0int,
    {
        let mut vals: Vec<IrOperand> = Vec::new();
        let mut k: usize = 0;
        while k < args.len()
            invariant
                k <= args.len(),
                self.ready(),
                self.kept(*old(self)),
                translate::call_args(old(self)@, ast::exprs(args@), 0, Seq::empty())
                    == translate::call_args(self@, ast::exprs(args@), k as int, vals@),
            decreases args.len() - k,
        {
            assert(ast::exprs(args@)[k as int] == args@[k as int].view());
            let v = self.gen_expr(&args[k])?;
            vals.push(v);
            k = k + 1;
        }
        Ok(vals)
    }

    fn gen_call(&mut self, name: &String, args: Vec<IrOperand>) -> (r: CompilerResult<IrOperand>)
        requires
            old(self).ready(),
        ensures
            match translate::call(old(self)@, name@, args@) {
                Ok((g, v)) => r == Ok::<IrOperand, CompilerError>(v) && final(self)@ == g
                    && final(self).ready() && final(self).kept(*old(self)),
                Err(e) => r matches Err(x) && x@ == e,
            },
    {
        let ret_ty = match lib_func_ret_type(name.as_str()) {
            Some(t) => t,
            None => match self.func_ret_types.get(name.as_str()) {
                Some(t) => *t,
                None => Type::Int,
            },
        };
        let func_idx = self.program.intern_func(name.clone());
        let has_ret = !matches!(ret_ty, Type::Void);
        if has_ret && !self.builder.has_tmp() {
            return Err(too_large());
        }
        match self.builder.emit_call(func_idx, args, has_ret) {
            Some(v) => Ok(v),
            None => Ok(IrOperand::Int(0)),
        }
    }

    /// The value of an indexed array.
    fn gen_index_expr(&mut self, expr: &Expr) -> (r: CompilerResult<IrOperand>)
        requires
            old(self).ready(),
        ensures
            match translate::index_value(old(self)@, expr.view()) {
                Ok((g, v)) => r == Ok::<IrOperand, CompilerError>(v) && final(self)@ == g
                    && final(self).ready() && final(self).kept(*old(self)),
                Err(e) => r matches Err(x) && x@ == e,
            },
        decreases expr, 1int,
    {
        match expr {
            Expr::Index { array, index } => {
                if self.is_ndparam_chain(expr) {
                    let dims = self.base_dims(expr);
                    let whole = self.fully_indexed(expr, 0);
                    let row_size = self.size_after(&dims, expr, 0);
                    let ptr = self.gen_ndparam_ptr(expr)?;
                    return self.element(ptr, whole, row_size);
                }
                let dims = self.base_dims(array);
                let size = self.size_after(&dims, array, 1);
                let row_size = self.size_after(&dims, array, 2);
                let whole = self.fully_indexed(array, 1);
                let is_ptr = self.is_ptr_array(array);
                let idx_val = self.gen_expr(index)?;
                let base = self.gen_expr_base(array)?;
                let elem_ptr = self.index_step(is_ptr, base, idx_val, size)?;
                self.element(elem_ptr, whole, row_size)
            },
            _ => Err(fail("invalid array access")),
        }
    }

    /// The address of an element behind a pointer or of an array.
    fn index_step(&mut self, pointer: bool, base: IrOperand, index: IrOperand, size: i32) -> (r:
        CompilerResult<IrOperand>)
        requires
            old(self).ready(),
        ensures
            match translate::index_step(old(self)@, pointer, base, index, size) {
                Ok((g, v)) => r == Ok::<IrOperand, CompilerError>(v) && final(self)@ == g
                    && final(self).ready() && final(self).kept(*old(self)),
                Err(e) => r matches Err(x) && x@ == e,
            },
    {
        if pointer {
            self.getptr(base, index, size)
        } else {
            self.array_step(base, index, size)
        }
    }

    /// Whether an expression is the name of a parameter that points to integers.
    fn is_ptr_array(&self, expr: &Expr) -> (r: bool)
        ensures
            r == (expr.view() is LVal && translate::is_ptr(
                translate::base_symbol(self@, expr.view()),
            )),
    {
        match expr {
            Expr::LVal(name) => matches!(self.lookup(name.as_str()), Some(IrSymbol::PtrArray(_))),
            _ => false,
        }
    }

    /// The address of an indexed array parameter.
    fn gen_ndparam_ptr(&mut self, expr: &Expr) -> (r: CompilerResult<IrOperand>)
        requires
            old(self).ready(),
        ensures
            match translate::param_ptr(old(self)@, expr.view()) {
                Ok((g, v)) => r == Ok::<IrOperand, CompilerError>(v) && final(self)@ == g
                    && final(self).ready() && final(self).kept(*old(self)),
                Err(e) => r matches Err(x) && x@ == e,
            },
        decreases expr, 0int,
    {
        match expr {
            Expr::Index { array, index } => {
                let inner: &Expr = &*array;
                match inner {
                    Expr::LVal(name) => {
                        assert(inner.view() == ast::ExprV::LVal(name@));
                        let (base, size) = match self.lookup(name.as_str()) {
                            Some(IrSymbol::NdParam { name: n, dims }) => (
                                *n,
                                size_from(dims.as_slice(), 0),
                            ),
                            _ => return Err(fail("expected NdParam")),
                        };
                        let first = self.gen_expr(index)?;
                        self.getptr(IrOperand::Global(base), first, size)
                    },
                    _ => {
                        assert(!(inner.view() is LVal));
                        let dims = self.base_dims(inner);
                        let size = self.size_after(&dims, inner, 0);
                        let ptr = self.gen_ndparam_ptr(inner)?;
                        let idx_val = self.gen_expr(index)?;
                        self.getelemptr(ptr, idx_val, size)
                    },
                }
            },
            _ => Err(fail("invalid array access")),
        }
    }

    /// The address that an expression under an index stands for.
    fn gen_expr_base(&mut self, expr: &Expr) -> (r: CompilerResult<IrOperand>)
        requires
            old(self).ready(),
        ensures
            match translate::base(old(self)@, expr.view()) {
                Ok((g, v)) => r == Ok::<IrOperand, CompilerError>(v) && final(self)@ == g
                    && final(self).ready() && final(self).kept(*old(self)),
                Err(e) => r matches Err(x) && x@ == e,
            },
        decreases expr, 0int,
    {
        match expr {
            Expr::LVal(name) => match self.lookup(name.as_str()) {
                Some(IrSymbol::Var(n)) => Ok(IrOperand::Global(*n)),
                Some(IrSymbol::Array(n, _)) => Ok(IrOperand::Global(*n)),
                Some(IrSymbol::PtrArray(n)) => Ok(IrOperand::Global(*n)),
                Some(IrSymbol::NdParam { name: n, .. }) => Ok(IrOperand::Global(*n)),
                _ => Err(quote("'", name.as_str(), "' is not an lvalue")),
            },
            Expr::Index { array, index } => {
                let dims = self.base_dims(array);
                let size = self.size_after(&dims, array, 1);
                let idx_val = self.gen_expr(index)?;
                let base = self.gen_expr_base(array)?;
                self.array_step(base, idx_val, size)
            },
            _ => Err(fail("not an lvalue")),
        }
    }
}

// ── Declarations and statements ──────────────────────────────────────────────

impl AstToIr {
    /// The address of an element of a local array, by its position among all elements.
    fn emit_array_elem_ptr(&mut self, base_idx: usize, dims: &Vec<i32>, flat_idx: i32) -> (r:
        CompilerResult<IrOperand>)
        requires
            old(self).ready(),
        ensures
            match translate::elem_ptr(old(self)@, base_idx, dims@, flat_idx) {
                Ok((g, v)) => r == Ok::<IrOperand, CompilerError>(v) && final(self)@ == g
                    && final(self).ready() && final(self).kept(*old(self)),
                Err(e) => r matches Err(x) && x@ == e,
            },
    {
        if dims.len() == 0 {
            return Ok(IrOperand::Global(base_idx));
        }
        let ptr = self.emit_inner_ptr(IrOperand::Global(base_idx), dims)?;
        self.getptr(ptr, IrOperand::Int(flat_idx), 4)
    }

    /// The address of the first element of an array.
    #[verifier::loop_isolation(false)]
    fn emit_inner_ptr(&mut self, base: IrOperand, dims: &Vec<i32>) -> (r: CompilerResult<IrOperand>)
        requires
            old(self).ready(),
        ensures
            match translate::inner_ptr(old(self)@, base, dims@, 0) {
                Ok((g, v)) => r == Ok::<IrOperand, CompilerError>(v) && final(self)@ == g
                    && final(self).ready() && final(self).kept(*old(self)),
                Err(e) => r matches Err(x) && x@ == e,
            },
    {
        let mut ptr = base;
        let mut k: usize = 0;
        while k < dims.len()
            invariant
                k <= dims.len(),
                self.ready(),
                self.kept(*old(self)),
                translate::inner_ptr(old(self)@, base, dims@, 0) == translate::inner_ptr(
                    self@,
                    ptr,
                    dims@,
                    k as int,
                ),
            decreases dims.len() - k,
        {
            let size = size_from(dims.as_slice(), k + 1);
            ptr = self.getelemptr(ptr, IrOperand::Int(0), size)?;
            k = k + 1;
        }
        Ok(ptr)
    }

    #[verifier::loop_isolation(false)]
    fn gen_array_init(&mut self, base_idx: usize, dims: &Vec<i32>, init: &Expr) -> (r:
        CompilerResult<()>)
        requires
            old(self).ready(),
        ensures
            match translate::array_init(old(self)@, base_idx, dims@, init.view()) {
                Ok(g) => r is Ok && final(self)@ == g && final(self).ready() && final(self).kept(
                    *old(self),
                ),
                Err(e) => r matches Err(x) && x@ == e,
            },
    {
        let mut flat: Vec<Option<&Expr>> = Vec::new();
        assert(items_view(flat@) =~= Seq::empty());
        flatten_init_vals(dims.as_slice(), init, &mut flat)?;
        let count = match total(dims.as_slice()) {
            None => return Err(bad_dims()),
            Some(t) => t,
        };
        fill(&mut flat, count);
        let ghost all = items_view(flat@);
        let mut i: usize = 0;
        while i < count
            invariant
                i <= count,
                count <= flat@.len(),
                self.ready(),
                self.kept(*old(self)),
                translate::init_stores(old(self)@, base_idx, dims@, all, 0, count as int)
                    == translate::init_stores(
                    self@,
                    base_idx,
                    dims@,
                    all,
                    i as int,
                    count as int,
                ),
            decreases count - i,
        {
            assert(all[i as int] == item_view(flat@[i as int]));
            let value = match flat[i] {
                Some(e) => self.gen_expr(e)?,
                None => IrOperand::Int(0),
            };
            let ptr = self.emit_array_elem_ptr(base_idx, dims, i as i32)?;
            self.builder.emit_store(value, ptr);
            i = i + 1;
        }
        Ok(())
    }

    /// A new array of the function, bound to a name.
    fn new_array(&mut self, name: &String, mangled: String, dims: &Vec<i32>) -> (r: CompilerResult<
        usize,
    >)
        requires
            old(self).ready(),
        ensures
            match translate::new_array(old(self)@, name@, mangled@, dims@) {
                Ok((g, n)) => r == Ok::<usize, CompilerError>(n) && final(self)@ == g
                    && final(self).ready() && final(self)@.loops == old(self)@.loops
                    && final(self)@.scopes.len() == old(self)@.scopes.len(),
                Err(e) => r matches Err(x) && x@ == e,
            },
    {
        let base_idx = self.intern(mangled)?;
        self.builder.add_pending_alloca(base_idx, make_array_type(dims.as_slice()));
        self.bind(name.clone(), IrSymbol::Array(base_idx, copy_ints(dims)));
        Ok(base_idx)
    }

    fn gen_const_def(&mut self, def: &ConstDef) -> (r: CompilerResult<()>)
        requires
            old(self).ready(),
        ensures
            match translate::const_def(old(self)@, def.view()) {
                Ok(g) => r is Ok && final(self)@ == g && final(self).ready() && final(self)@.loops
                    == old(self)@.loops && final(self)@.scopes.len() == old(self)@.scopes.len(),
                Err(e) => r matches Err(x) && x@ == e,
            },
    {
        if self.current_scope_contains(def.name.as_str()) {
            return Err(quote("redeclaration of '", def.name.as_str(), "'"));
        }
        if def.dims.len() == 0 && !matches!(def.init, Expr::InitList(_)) {
            let val = self.eval_const(&def.init)?;
            self.bind(def.name.clone(), IrSymbol::Const(val));
            return Ok(());
        }
        let mangled = self.local_name(def.name.as_str())?;
        let dims = self.eval_dims(&def.dims)?;
        let base_idx = self.new_array(&def.name, mangled, &dims)?;
        self.gen_array_init(base_idx, &dims, &def.init)
    }

    fn gen_var_def(&mut self, def: &VarDef) -> (r: CompilerResult<()>)
        requires
            old(self).ready(),
        ensures
            match translate::var_def(old(self)@, def.view()) {
                Ok(g) => r is Ok && final(self)@ == g && final(self).ready() && final(self)@.loops
                    == old(self)@.loops && final(self)@.scopes.len() == old(self)@.scopes.len(),
                Err(e) => r matches Err(x) && x@ == e,
            },
    {
        if self.current_scope_contains(def.name.as_str()) {
            return Err(quote("redeclaration of '", def.name.as_str(), "'"));
        }
        let mangled = self.local_name(def.name.as_str())?;
        if def.dims.len() == 0 {
            let base_idx = self.intern(mangled)?;
            self.builder.add_pending_alloca(base_idx, IrType::I32);
            if let Some(init) = &def.init {
                let val = self.gen_expr(init)?;
                self.builder.emit_store(val, IrOperand::Global(base_idx));
            }
            self.bind(def.name.clone(), IrSymbol::Var(base_idx));
            Ok(())
        } else {
            let dims = self.eval_dims(&def.dims)?;
            let base_idx = self.new_array(&def.name, mangled, &dims)?;
            match &def.init {
                Some(init) => self.gen_array_init(base_idx, &dims, init),
                None => Ok(()),
            }
        }
    }

    #[verifier::loop_isolation(false)]
    fn gen_decl(&mut self, decl: &Decl) -> (r: CompilerResult<()>)
        requires
            old(self).ready(),
        ensures
            match translate::decl(old(self)@, decl.view()) {
                Ok(g) => r is Ok && final(self)@ == g && final(self).ready() && final(self)@.loops
                    == old(self)@.loops && final(self)@.scopes.len() == old(self)@.scopes.len(),
                Err(e) => r matches Err(x) && x@ == e,
            },
    {
        match decl {
            Decl::Const(defs) => {
                let ghost all = defs@.map_values(|d: ConstDef| d.view());
                let mut k: usize = 0;
                while k < defs.len()
                    invariant
                        k <= defs.len(),
                        self.ready(),
                        self@.loops == old(self)@.loops,
                        self@.scopes.len() == old(self)@.scopes.len(),
                        translate::const_defs(old(self)@, all, 0) == translate::const_defs(
                            self@,
                            all,
                            k as int,
                        ),
                    decreases defs.len() - k,
                {
                    self.gen_const_def(&defs[k])?;
                    k = k + 1;
                }
            },
            Decl::Var(defs) => {
                let ghost all = defs@.map_values(|d: VarDef| d.view());
                let mut k: usize = 0;
                while k < defs.len()
                    invariant
                        k <= defs.len(),
                        self.ready(),
                        self@.loops == old(self)@.loops,
                        self@.scopes.len() == old(self)@.scopes.len(),
                        translate::var_defs(old(self)@, all, 0) == translate::var_defs(
                            self@,
                            all,
                            k as int,
                        ),
                    decreases defs.len() - k,
                {
                    self.gen_var_def(&defs[k])?;
                    k = k + 1;
                }
            },
        }
        Ok(())
    }

    /// The address of an indexed array parameter, from the second index on.
    #[verifier::loop_isolation(false)]
    fn gen_param_target(&mut self, first: IrOperand, dims: &Vec<i32>, indices: &Vec<Expr>) -> (r:
        CompilerResult<IrOperand>)
        requires
            old(self).ready(),
            indices@.len() > 0,
        ensures
            match translate::param_target(old(self)@, first, dims@, ast::exprs(indices@), 1) {
                Ok((g, v)) => r == Ok::<IrOperand, CompilerError>(v) && final(self)@ == g
                    && final(self).ready() && final(self).kept(*old(self)),
                Err(e) => r matches Err(x) && x@ == e,
            },
    {
        let mut ptr = first;
        let mut k: usize = 1;
        while k < indices.len()
            invariant
                1 <= k <= indices.len(),
                self.ready(),
                self.kept(*old(self)),
                translate::param_target(old(self)@, first, dims@, ast::exprs(indices@), 1)
                    == translate::param_target(
                    self@,
                    ptr,
                    dims@,
                    ast::exprs(indices@),
                    k as int,
                ),
            decreases indices.len() - k,
        {
            assert(ast::exprs(indices@)[k as int] == indices@[k as int].view());
            let idx_val = self.gen_expr(&indices[k])?;
            let size = size_from(dims.as_slice(), k);
            ptr = self.getelemptr(ptr, idx_val, size)?;
            k = k + 1;
        }
        Ok(ptr)
    }

    /// The address of an indexed array or pointer.
    #[verifier::loop_isolation(false)]
    fn gen_array_target(
        &mut self,
        base: IrOperand,
        pointer: bool,
        dims: &Vec<i32>,
        indices: &Vec<Expr>,
    ) -> (r: CompilerResult<IrOperand>)
        requires
            old(self).ready(),
        ensures
            match translate::array_target(
                old(self)@,
                base,
                pointer,
                dims@,
                ast::exprs(indices@),
                0,
            ) {
                Ok((g, v)) => r == Ok::<IrOperand, CompilerError>(v) && final(self)@ == g
                    && final(self).ready() && final(self).kept(*old(self)),
                Err(e) => r matches Err(x) && x@ == e,
            },
    {
        let mut ptr = base;
        let mut k: usize = 0;
        while k < indices.len()
            invariant
                k <= indices.len(),
                self.ready(),
                self.kept(*old(self)),
                translate::array_target(
                    old(self)@,
                    base,
                    pointer,
                    dims@,
                    ast::exprs(indices@),
                    0,
                ) == translate::array_target(
                    self@,
                    ptr,
                    pointer,
                    dims@,
                    ast::exprs(indices@),
                    k as int,
                ),
            decreases indices.len() - k,
        {
            assert(ast::exprs(indices@)[k as int] == indices@[k as int].view());
            let idx_val = self.gen_expr(&indices[k])?;
            let size = size_from(dims.as_slice(), k + 1);
            ptr = self.index_step(pointer, ptr, idx_val, size)?;
            k = k + 1;
        }
        Ok(ptr)
    }

    fn gen_array_assign(&mut self, name: &String, indices: &Vec<Expr>, expr: &Expr) -> (r:
        CompilerResult<()>)
        requires
            old(self).ready(),
            indices@.len() > 0,
        ensures
            match translate::array_assign(
                old(self)@,
                name@,
                ast::exprs(indices@),
                expr.view(),
            ) {
                Ok(g) => r is Ok && final(self)@ == g && final(self).ready() && final(self).kept(
                    *old(self),
                ),
                Err(e) => r matches Err(x) && x@ == e,
            },
    {
        let sym = match self.lookup(name.as_str()) {
            Some(s) => s.clone(),
            None => return Err(quote("'", name.as_str(), "' is not an array")),
        };
        match sym {
            IrSymbol::NdParam { name: n, dims } => {
                let val = self.gen_expr(expr)?;
                assert(ast::exprs(indices@)[0] == indices@[0].view());
                let first = self.gen_expr(&indices[0])?;
                let size = size_from(dims.as_slice(), 0);
                let row = self.getptr(IrOperand::Global(n), first, size)?;
                let ptr = self.gen_param_target(row, &dims, indices)?;
                self.builder.emit_store(val, ptr);
                Ok(())
            },
            IrSymbol::Array(n, dims) => {
                let val = self.gen_expr(expr)?;
                let ptr = self.gen_array_target(IrOperand::Global(n), false, &dims, indices)?;
                self.builder.emit_store(val, ptr);
                Ok(())
            },
            IrSymbol::PtrArray(n) => {
                let val = self.gen_expr(expr)?;
                let dims: Vec<i32> = Vec::new();
                let ptr = self.gen_array_target(IrOperand::Global(n), true, &dims, indices)?;
                self.builder.emit_store(val, ptr);
                Ok(())
            },
            _ => Err(quote("'", name.as_str(), "' is not an array")),
        }
    }

    fn gen_assign(&mut self, name: &String, index: &Vec<Expr>, expr: &Expr) -> (r: CompilerResult<
        (),
    >)
        requires
            old(self).ready(),
        ensures
            match translate::assign(old(self)@, name@, ast::exprs(index@), expr.view()) {
                Ok(g) => r is Ok && final(self)@ == g && final(self).ready() && final(self).kept(
                    *old(self),
                ),
                Err(e) => r matches Err(x) && x@ == e,
            },
    {
        if index.len() > 0 {
            return self.gen_array_assign(name, index, expr);
        }
        let dest = match self.lookup(name.as_str()) {
            Some(IrSymbol::Var(n)) => *n,
            Some(IrSymbol::Const(_)) => return Err(
                quote("cannot assign to constant '", name.as_str(), "'"),
            ),
            None => return Err(quote("undefined variable '", name.as_str(), "'")),
            _ => return Err(
                quote("cannot assign to array '", name.as_str(), "' without index"),
            ),
        };
        let val = self.gen_expr(expr)?;
        self.builder.emit_store(val, IrOperand::Global(dest));
        Ok(())
    }

    /// Jumps, where the current block has no terminator yet.
    fn jump_on(&mut self, target: usize)
        requires
            old(self)@.b.wf(),
        ensures
            final(self)@ == translate::jump_on(old(self)@, target),
            final(self)@.b.wf(),
            final(self).kept(*old(self)),
    {
        if !self.builder.is_terminated() {
            self.builder.emit_jump(target);
        }
    }

    fn gen_stmt(&mut self, stmt: &Stmt) -> (r: CompilerResult<()>)
        requires
            old(self).ready(),
        ensures
            match translate::stmt(old(self)@, stmt.view()) {
                Ok(g) => r is Ok && final(self)@ == g && final(self)@.b.wf() && final(self)@.loops
                    == old(self)@.loops && final(self)@.scopes.len() == old(self)@.scopes.len(),
                Err(e) => r matches Err(x) && x@ == e,
            },
        decreases stmt, 1int,
    {
        match stmt {
            Stmt::Return(None) => {
                self.builder.emit_ret(None);
                Ok(())
            },
            Stmt::Return(Some(e)) => {
                let val = self.gen_expr(e)?;
                self.builder.emit_ret(Some(val));
                Ok(())
            },
            Stmt::Assign { name, index, expr } => self.gen_assign(name, index, expr),
            Stmt::Expr(expr) => {
                self.gen_expr(expr)?;
                Ok(())
            },
            Stmt::Block(block) => {
                self.enter_scope();
                self.gen_block(block)?;
                self.exit_scope();
                Ok(())
            },
            Stmt::If { .. } => self.gen_if(stmt),
            Stmt::While { .. } => self.gen_while(stmt),
            Stmt::Break => {
                let n = self.loop_stack.len();
                if n == 0 {
                    return Err(fail("'break' outside of loop"));
                }
                let target = self.loop_stack[n - 1].1;
                self.builder.emit_jump(target);
                Ok(())
            },
            Stmt::Continue => {
                let n = self.loop_stack.len();
                if n == 0 {
                    return Err(fail("'continue' outside of loop"));
                }
                let target = self.loop_stack[n - 1].0;
                self.builder.emit_jump(target);
                Ok(())
            },
            Stmt::Empty => Ok(()),
            Stmt::Asm(code) => {
                self.builder.emit_asm(code.clone());
                Ok(())
            },
        }
    }

    fn gen_if(&mut self, stmt: &Stmt) -> (r: CompilerResult<()>)
        requires
            old(self).ready(),
            *stmt is If,
        ensures
            match translate::stmt(old(self)@, stmt.view()) {
                Ok(g) => r is Ok && final(self)@ == g && final(self)@.b.wf() && final(self)@.loops
                    == old(self)@.loops && final(self)@.scopes.len() == old(self)@.scopes.len(),
                Err(e) => r matches Err(x) && x@ == e,
            },
        decreases stmt, 0int,
    {
        if let Stmt::If { cond, then_branch, else_branch } = stmt {
            let cond_val = self.gen_expr(cond)?;
            let (then_label, else_label, end_label) = self.labels()?;
            let target = if else_branch.is_some() {
                else_label
            } else {
                end_label
            };
            self.builder.emit_br(cond_val, then_label, target);
            self.builder.start_block(then_label);
            self.gen_stmt(then_branch)?;
            let then_term = self.builder.is_terminated();
            self.jump_on(end_label);
            match else_branch {
                None => {
                    self.builder.start_block(end_label);
                },
                Some(els) => {
                    self.builder.start_block(else_label);
                    self.gen_stmt(els)?;
                    let else_term = self.builder.is_terminated();
                    if !then_term || !else_term {
                        self.jump_on(end_label);
                        self.builder.start_block(end_label);
                    }
                },
            }
        }
        Ok(())
    }

    fn gen_while(&mut self, stmt: &Stmt) -> (r: CompilerResult<()>)
        requires
            old(self).ready(),
            *stmt is While,
        ensures
            match translate::stmt(old(self)@, stmt.view()) {
                Ok(g) => r is Ok && final(self)@ == g && final(self)@.b.wf() && final(self)@.loops
                    == old(self)@.loops && final(self)@.scopes.len() == old(self)@.scopes.len(),
                Err(e) => r matches Err(x) && x@ == e,
            },
        decreases stmt, 0int,
    {
        if let Stmt::While { cond, body } = stmt {
            let (entry_label, body_label, end_label) = self.labels()?;
            self.builder.emit_jump(entry_label);
            self.builder.start_block(entry_label);
            let cond_val = self.gen_expr(cond)?;
            self.builder.emit_br(cond_val, body_label, end_label);
            self.loop_stack.push((entry_label, end_label));
            self.builder.start_block(body_label);
            let ghost inside = self@.loops;
            self.gen_stmt(body)?;
            self.jump_on(entry_label);
            self.loop_stack.pop();
            assert(inside.drop_last() =~= old(self)@.loops);
            self.builder.start_block(end_label);
        }
        Ok(())
    }

    #[verifier::loop_isolation(false)]
    fn gen_block(&mut self, block: &Block) -> (r: CompilerResult<()>)
        requires
            old(self)@.b.wf(),
            old(self)@.scopes.len() > 0,
        ensures
            match translate::block(old(self)@, block.view(), 0) {
                Ok(g) => r is Ok && final(self)@ == g && final(self)@.b.wf() && final(self)@.loops
                    == old(self)@.loops && final(self)@.scopes.len() == old(self)@.scopes.len(),
                Err(e) => r matches Err(x) && x@ == e,
            },
        decreases block, 0int,
    {
        let mut k: usize = 0;
        while k < block.items.len() && !self.builder.is_terminated()
            invariant
                k <= block.items.len(),
                self@.b.wf(),
                self@.loops == old(self)@.loops,
                self@.scopes.len() == old(self)@.scopes.len(),
                translate::block(old(self)@, block.view(), 0) == translate::block(
                    self@,
                    block.view(),
                    k as int,
                ),
            decreases block.items.len() - k,
        {
            assert(block.view()[k as int] == block.items@[k as int].view());
            match &block.items[k] {
                BlockItem::Stmt(s) => self.gen_stmt(s)?,
                BlockItem::Decl(d) => self.gen_decl(d)?,
            }
            k = k + 1;
        }
        Ok(())
    }
}

// ── Library declarations ─────────────────────────────────────────────────────

/// Whether a function is declared already.
fn has_decl(decls: &Vec<IrFuncDecl>, name: usize) -> (r: bool)
    ensures
        r == translate::has_decl(ir::decls_view(decls@), name),
{
    let ghost views = ir::decls_view(decls@);
    let mut i: usize = 0;
    while i < decls.len()
        invariant
            i <= decls.len(),
            views == ir::decls_view(decls@),
            forall|j: int| 0 <= j < i ==> (#[trigger] views[j]).name != name,
        decreases decls.len() - i,
    {
        assert(views[i as int].name == decls@[i as int].name);
        if decls[i].name == name {
            return true;
        }
        i = i + 1;
    }
    false
}

impl AstToIr {
    /// Declares a function of the runtime library at its first call.
    fn emit_lib_decl(&mut self, name: &String)
        ensures
            final(self)@ == translate::lib_call(old(self)@, name@),
            final(self).builder == old(self).builder,
            final(self).scopes == old(self).scopes,
    {
        let ret = match lib_func_ret_type(name.as_str()) {
            Some(t) => t,
            None => return,
        };
        if self.lib_funcs_emitted.contains_key(name.as_str()) {
            return;
        }
        self.lib_funcs_emitted.insert(name.clone(), true);
        let func_idx = self.program.intern_func(name.clone());
        let ret_type = match ret {
            Type::Int => IrType::I32,
            Type::Void => IrType::Void,
        };
        if !has_decl(&self.program.func_decls, func_idx) {
            self.program.func_decls.push(
                IrFuncDecl { name: func_idx, param_types: lib_func_params(name.as_str()), ret_type },
            );
        }
    }

    #[verifier::loop_isolation(false)]
    fn emit_lib_decl_for_expr(&mut self, expr: &Expr)
        ensures
            final(self)@ == translate::lib_expr(old(self)@, expr.view()),
            final(self).builder == old(self).builder,
            final(self).scopes == old(self).scopes,
        decreases expr,
    {
        match expr {
            Expr::Call { name, .. } => self.emit_lib_decl(name),
            Expr::Binary { lhs, rhs, .. } => {
                self.emit_lib_decl_for_expr(lhs);
                self.emit_lib_decl_for_expr(rhs);
            },
            Expr::Unary { expr: e, .. } => self.emit_lib_decl_for_expr(e),
            Expr::Index { array, index } => {
                self.emit_lib_decl_for_expr(array);
                self.emit_lib_decl_for_expr(index);
            },
            Expr::InitList(items) => {
                let mut k: usize = 0;
                while k < items.len()
                    invariant
                        k <= items.len(),
                        translate::lib_exprs(old(self)@, ast::exprs(items@), 0)
                            == translate::lib_exprs(self@, ast::exprs(items@), k as int),
                        self.builder == old(self).builder,
                        self.scopes == old(self).scopes,
                    decreases items.len() - k,
                {
                    assert(ast::exprs(items@)[k as int] == items@[k as int].view());
                    self.emit_lib_decl_for_expr(&items[k]);
                    k = k + 1;
                }
            },
            _ => {},
        }
    }

    #[verifier::loop_isolation(false)]
    fn emit_lib_decls_for_decl(&mut self, decl: &Decl)
        ensures
            final(self)@ == translate::lib_decl(old(self)@, decl.view(), 0),
            final(self).builder == old(self).builder,
            final(self).scopes == old(self).scopes,
    {
        match decl {
            Decl::Const(defs) => {
                let mut k: usize = 0;
                while k < defs.len()
                    invariant
                        k <= defs.len(),
                        translate::lib_decl(old(self)@, decl.view(), 0) == translate::lib_decl(
                            self@,
                            decl.view(),
                            k as int,
                        ),
                        self.builder == old(self).builder,
                        self.scopes == old(self).scopes,
                    decreases defs.len() - k,
                {
                    self.emit_lib_decl_for_expr(&defs[k].init);
                    k = k + 1;
                }
            },
            Decl::Var(defs) => {
                let mut k: usize = 0;
                while k < defs.len()
                    invariant
                        k <= defs.len(),
                        translate::lib_decl(old(self)@, decl.view(), 0) == translate::lib_decl(
                            self@,
                            decl.view(),
                            k as int,
                        ),
                        self.builder == old(self).builder,
                        self.scopes == old(self).scopes,
                    decreases defs.len() - k,
                {
                    if let Some(init) = &defs[k].init {
                        self.emit_lib_decl_for_expr(init);
                    }
                    k = k + 1;
                }
            },
        }
    }

    fn emit_lib_decls_for_stmt(&mut self, stmt: &Stmt)
        ensures
            final(self)@ == translate::lib_stmt(old(self)@, stmt.view()),
            final(self).builder == old(self).builder,
            final(self).scopes == old(self).scopes,
        decreases stmt,
    {
        match stmt {
            Stmt::Return(Some(e)) => self.emit_lib_decl_for_expr(e),
            Stmt::Assign { expr, .. } => self.emit_lib_decl_for_expr(expr),
            Stmt::Expr(e) => self.emit_lib_decl_for_expr(e),
            Stmt::Block(b) => self.emit_lib_decls_for_body(b),
            Stmt::If { cond, then_branch, else_branch } => {
                self.emit_lib_decl_for_expr(cond);
                self.emit_lib_decls_for_stmt(then_branch);
                if let Some(els) = else_branch {
                    self.emit_lib_decls_for_stmt(els);
                }
            },
            Stmt::While { cond, body } => {
                self.emit_lib_decl_for_expr(cond);
                self.emit_lib_decls_for_stmt(body);
            },
            _ => {},
        }
    }

    #[verifier::loop_isolation(false)]
    fn emit_lib_decls_for_body(&mut self, block: &Block)
        ensures
            final(self)@ == translate::lib_block(old(self)@, block.view(), 0),
            final(self).builder == old(self).builder,
            final(self).scopes == old(self).scopes,
        decreases block,
    {
        let mut k: usize = 0;
        while k < block.items.len()
            invariant
                k <= block.items.len(),
                translate::lib_block(old(self)@, block.view(), 0) == translate::lib_block(
                    self@,
                    block.view(),
                    k as int,
                ),
                self.builder == old(self).builder,
                self.scopes == old(self).scopes,
            decreases block.items.len() - k,
        {
            assert(block.view()[k as int] == block.items@[k as int].view());
            match &block.items[k] {
                BlockItem::Stmt(s) => self.emit_lib_decls_for_stmt(s),
                BlockItem::Decl(d) => self.emit_lib_decls_for_decl(d),
            }
            k = k + 1;
        }
    }
}

// ── Functions and programs ───────────────────────────────────────────────────

impl AstToIr {
    fn gen_param(&mut self, param: &FuncParam) -> (r: CompilerResult<(usize, IrType)>)
        requires
            old(self).ready(),
        ensures
            match translate::param(old(self)@, param.view()) {
                Ok((g, p)) => r == Ok::<(usize, IrType), CompilerError>(p) && final(self)@ == g
                    && final(self).ready(),
                Err(e) => r matches Err(x) && x@ == e,
            },
    {
        let first = self.local_name(param.name.as_str())?;
        if param.is_array {
            let koopa_idx = self.intern(first)?;
            if param.array_dims.len() == 0 {
                self.bind(param.name.clone(), IrSymbol::PtrArray(koopa_idx));
                Ok((koopa_idx, IrType::Ptr(Box::new(IrType::I32))))
            } else {
                let dims = self.eval_param_dims(&param.array_dims);
                let inner = make_array_type(dims.as_slice());
                self.bind(param.name.clone(), IrSymbol::NdParam { name: koopa_idx, dims });
                Ok((koopa_idx, IrType::Ptr(Box::new(inner))))
            }
        } else {
            let second = self.mangle(param.name.as_str())?;
            let sig_idx = self.intern(first)?;
            let koopa_idx = self.intern(second)?;
            self.builder.add_pending_alloca(koopa_idx, IrType::I32);
            self.builder.emit_store(IrOperand::Global(sig_idx), IrOperand::Global(koopa_idx));
            self.bind(param.name.clone(), IrSymbol::Var(koopa_idx));
            Ok((sig_idx, IrType::I32))
        }
    }

    #[verifier::loop_isolation(false)]
    fn gen_params(&mut self, params: &Vec<FuncParam>) -> (r: CompilerResult<Vec<(usize, IrType)>>)
        requires
            old(self).ready(),
        ensures
            match translate::params(old(self)@, ast::params(params@), 0, Seq::empty()) {
                Ok((g, ps)) => r matches Ok(x) && x@ == ps && final(self)@ == g && final(self).ready(),
                Err(e) => r matches Err(x) && x@ == e,
            },
    {
        let mut out: Vec<(usize, IrType)> = Vec::new();
        let mut k: usize = 0;
        while k < params.len()
            invariant
                k <= params.len(),
                self.ready(),
                translate::params(old(self)@, ast::params(params@), 0, Seq::empty())
                    == translate::params(self@, ast::params(params@), k as int, out@),
            decreases params.len() - k,
        {
            let p = self.gen_param(&params[k])?;
            out.push(p);
            k = k + 1;
        }
        Ok(out)
    }

    /// The state at the start of a function.
    fn enter_func(&mut self, func: &FuncDef)
        requires
            old(self)@.program.block_names.len() < usize::MAX,
        ensures
            final(self)@ == translate::enter(old(self)@, func.view()),
            final(self).ready(),
    {
        let ghost before = self@;
        let ret_type = match func.ret_type {
            Type::Void => IrType::Void,
            Type::Int => IrType::I32,
        };
        self.name_count = NameMap::new();
        let mut scopes: Vec<NameMap<IrSymbol>> = Vec::new();
        scopes.push(NameMap::new());
        self.scopes = scopes;
        self.loop_stack = Vec::new();
        self.current_ret_type = ret_type.clone();
        let func_idx = self.program.intern_func(func.name.clone());
        let params: Vec<(usize, IrType)> = Vec::new();
        let builder = IrBuilder::new(
            func_idx,
            params,
            ret_type,
            self.program.local_names.len(),
            self.program.global_names.len(),
            self.program.block_names.len(),
            self.program.func_names.len(),
        );
        self.builder = builder;
        proof {
            let after = translate::enter(before, func.view());
            assert(self@.program.func_names == before.program.func_names.push(func.name@));
            assert(self@.program.func_names.len() == self.program.func_names@.len());
            assert(self@.scopes =~= after.scopes);
            assert(self@.loops =~= after.loops);
            assert(self@.program =~= after.program);
            assert(self@.b =~= after.b);
        }
    }

    /// Adds the names of a function to those of the program.
    fn merge_meta(&mut self, meta: BuilderMeta)
        ensures
            final(self)@ == (GenV {
                program: ir::ProgV {
                    local_names: old(self)@.program.local_names + meta@.local_names,
                    global_names: old(self)@.program.global_names + meta@.global_names,
                    block_names: old(self)@.program.block_names + meta@.block_names,
                    func_names: old(self)@.program.func_names + meta@.func_names,
                    ..old(self)@.program
                },
                ..old(self)@
            }),
            final(self).builder == old(self).builder,
    {
        append_names(&mut self.program.local_names, meta.local_names);
        append_names(&mut self.program.global_names, meta.global_names);
        append_names(&mut self.program.block_names, meta.block_names);
        append_names(&mut self.program.func_names, meta.func_names);
    }

    fn gen_func(&mut self, func: &FuncDef) -> (r: CompilerResult<()>)
        ensures
            match translate::func(old(self)@, func.view()) {
                Ok(g) => r is Ok && final(self)@ == g,
                Err(e) => r matches Err(x) && x@ == e,
            },
    {
        assert(self@.program.global_names.len() == self.program.global_names.len());
        if self.program.block_names.len() == usize::MAX {
            return Err(too_large());
        }
        self.enter_func(func);
        let params = self.gen_params(&func.params)?;
        self.emit_lib_decls_for_body(&func.body);
        self.gen_block(&func.body)?;
        if !self.builder.is_terminated() {
            if self.current_ret_type.is_void() {
                self.builder.emit_ret(None);
            } else {
                self.builder.emit_ret(Some(IrOperand::Int(0)));
            }
        }
        let mut builder = idle_builder();
        std::mem::swap(&mut builder, &mut self.builder);
        let (mut ir_func, meta) = builder.build();
        ir_func.params = params;
        self.merge_meta(meta);
        self.program.funcs.push(ir_func);
        Ok(())
    }

    /// A new global variable, bound to a name.
    fn new_global(&mut self, name: &String, ty: IrType, init: IrGlobalInit) -> (r: usize)
        ensures
            r == translate::global_index(old(self)@, name@),
            final(self)@ == (GenV {
                program: ir::ProgV {
                    global_names: ir::global_interned(old(self)@.program.global_names, name@),
                    globals: old(self)@.program.globals.push(
                        ir::GlobalV { name: r, ty, init: init@ },
                    ),
                    ..old(self)@.program
                },
                ..old(self)@
            }),
    {
        let g_idx = self.program.intern_global(name.clone());
        self.program.globals.push(IrGlobal { name: g_idx, ty, init });
        g_idx
    }

    fn gen_global_array(&mut self, name: &String, dims: Vec<i32>, init: IrGlobalInit)
        ensures
            final(self)@ == translate::global_array(old(self)@, name@, dims@, init@),
    {
        let ty = make_array_type(dims.as_slice());
        let g_idx = self.new_global(name, ty, init);
        self.globals.insert(name.clone(), IrSymbol::Array(g_idx, dims));
    }

    /// The initial value of a global array.
    fn global_init_vals(&self, dims: &[i32], init: &Expr) -> (r: CompilerResult<IrGlobalInit>)
        ensures
            match translate::global_init(self@, dims@, init.view()) {
                Ok(v) => r matches Ok(x) && x@ == v,
                Err(e) => r matches Err(x) && x@ == e,
            },
    {
        let count = match total(dims) {
            None => return Err(bad_dims()),
            Some(t) => t,
        };
        let mut flat: Vec<Option<&Expr>> = Vec::new();
        assert(items_view(flat@) =~= Seq::empty());
        flatten_init_static(dims, init, &mut flat)?;
        fill(&mut flat, count);
        let ghost all = items_view(flat@);
        let mut vals: Vec<i32> = Vec::new();
        let mut i: usize = 0;
        while i < flat.len()
            invariant
                i <= flat.len(),
                all == items_view(flat@),
                vals@ =~= all.take(i as int).map_values(
                    |e: ExprV| translate::const_or_zero(self@, e),
                ),
            decreases flat.len() - i,
        {
            assert(all[i as int] == item_view(flat@[i as int]));
            let value: i32 = match flat[i] {
                Some(e) => match self.eval_const(e) {
                    Ok(v) => v,
                    Err(_) => 0,
                },
                None => 0,
            };
            vals.push(value);
            i = i + 1;
        }
        assert(all.take(i as int) =~= all);
        Ok(IrGlobalInit::Values(vals))
    }

    fn gen_global_const(&mut self, def: &ConstDef) -> (r: CompilerResult<()>)
        ensures
            match translate::global_const(old(self)@, def.view()) {
                Ok(g) => r is Ok && final(self)@ == g,
                Err(e) => r matches Err(x) && x@ == e,
            },
    {
        if def.dims.len() == 0 && !matches!(def.init, Expr::InitList(_)) {
            let val = self.eval_const(&def.init)?;
            self.globals.insert(def.name.clone(), IrSymbol::Const(val));
        } else {
            let dims = self.eval_dims(&def.dims)?;
            let init = self.global_init_vals(dims.as_slice(), &def.init)?;
            self.gen_global_array(&def.name, dims, init);
        }
        Ok(())
    }

    fn gen_global_var(&mut self, def: &VarDef) -> (r: CompilerResult<()>)
        ensures
            match translate::global_var(old(self)@, def.view()) {
                Ok(g) => r is Ok && final(self)@ == g,
                Err(e) => r matches Err(x) && x@ == e,
            },
    {
        if def.dims.len() == 0 {
            let val: i32 = match &def.init {
                Some(e) => self.eval_const(e)?,
                None => 0,
            };
            let mut vals: Vec<i32> = Vec::new();
            vals.push(val);
            assert(vals@ =~= seq![val]);
            let g_idx = self.new_global(&def.name, IrType::I32, IrGlobalInit::Values(vals));
            self.globals.insert(def.name.clone(), IrSymbol::Var(g_idx));
        } else {
            let dims = self.eval_dims(&def.dims)?;
            let init = match &def.init {
                Some(e) => self.global_init_vals(dims.as_slice(), e)?,
                None => IrGlobalInit::Zero,
            };
            self.gen_global_array(&def.name, dims, init);
        }
        Ok(())
    }

    #[verifier::loop_isolation(false)]
    fn gen_global_decl(&mut self, decl: &Decl) -> (r: CompilerResult<()>)
        ensures
            match translate::global_decl(old(self)@, decl.view(), 0) {
                Ok(g) => r is Ok && final(self)@ == g,
                Err(e) => r matches Err(x) && x@ == e,
            },
    {
        match decl {
            Decl::Const(defs) => {
                let mut k: usize = 0;
                while k < defs.len()
                    invariant
                        k <= defs.len(),
                        translate::global_decl(old(self)@, decl.view(), 0)
                            == translate::global_decl(self@, decl.view(), k as int),
                    decreases defs.len() - k,
                {
                    self.gen_global_const(&defs[k])?;
                    k = k + 1;
                }
            },
            Decl::Var(defs) => {
                let mut k: usize = 0;
                while k < defs.len()
                    invariant
                        k <= defs.len(),
                        translate::global_decl(old(self)@, decl.view(), 0)
                            == translate::global_decl(self@, decl.view(), k as int),
                    decreases defs.len() - k,
                {
                    self.gen_global_var(&defs[k])?;
                    k = k + 1;
                }
            },
        }
        Ok(())
    }

    /// The global variables and function signatures of a program.
    #[verifier::loop_isolation(false)]
    fn gen_signatures(&mut self, program: &CompUnit) -> (r: CompilerResult<()>)
        ensures
            match translate::signatures(old(self)@, program.view(), 0) {
                Ok(g) => r is Ok && final(self)@ == g,
                Err(e) => r matches Err(x) && x@ == e,
            },
    {
        let mut k: usize = 0;
        while k < program.items.len()
            invariant
                k <= program.items.len(),
                translate::signatures(old(self)@, program.view(), 0) == translate::signatures(
                    self@,
                    program.view(),
                    k as int,
                ),
            decreases program.items.len() - k,
        {
            match &program.items[k] {
                GlobalItem::FuncDef(f) => {
                    self.func_ret_types.insert(f.name.clone(), f.ret_type);
                },
                GlobalItem::FuncDecl(f) => {
                    self.func_ret_types.insert(f.name.clone(), f.ret_type);
                },
                GlobalItem::Decl(decl) => self.gen_global_decl(decl)?,
            }
            k = k + 1;
        }
        Ok(())
    }

    /// Translates a program.
    #[verifier::loop_isolation(false)]
    pub fn gen_program(self, program: &CompUnit) -> (r: CompilerResult<IrProgram>)
        requires
            self@ == translate::start(),
        ensures
            match translate::program(program.view()) {
                Ok(p) => r matches Ok(x) && x@ == p,
                Err(e) => r matches Err(x) && x@ == e,
            },
    {
        let mut gen = self;
        gen.gen_signatures(program)?;
        let ghost start = gen@;
        let mut k: usize = 0;
        while k < program.items.len()
            invariant
                k <= program.items.len(),
                translate::functions(start, program.view(), 0) == translate::functions(
                    gen@,
                    program.view(),
                    k as int,
                ),
            decreases program.items.len() - k,
        {
            if let GlobalItem::FuncDef(func) = &program.items[k] {
                gen.gen_func(func)?;
            }
            k = k + 1;
        }
        Ok(gen.program)
    }
}

/// The builder between functions.
fn idle_builder() -> (r: IrBuilder)
    ensures
        r@ == translate::idle(),
        r@.wf(),
{
    let params: Vec<(usize, IrType)> = Vec::new();
    IrBuilder::new(0, params, IrType::I32, 0, 0, 0, 0)
}

/// Adds names to the end of a table.
fn append_names(table: &mut Vec<String>, names: Vec<String>)
    ensures
        text::texts(final(table)@) == text::texts(old(table)@) + text::texts(names@),
{
    let ghost before = table@;
    let mut more = names;
    table.append(&mut more);
    assert(text::texts(table@) =~= text::texts(before) + text::texts(names@));
}

} // verus!

//! Writes a syntax tree as Koopa IR, without optimization.

use crate::ast::{
    self, BinaryOp, Block, BlockItem, CompUnit, ConstDef, Decl, Expr, ExprV, FuncDef, FuncParam,
    GlobalItem, Stmt, Type, UnaryOp, VarDef,
};
use crate::ast_to_ir::{
    self, bad_dims, copy_ints, count_indices, fill, item_view, items_push, items_view,
    make_array_type, quote, too_large, total,
};
use crate::codegen::{lib_func_params, lib_func_ret_type};
use crate::error::{fail, CompilerError, CompilerResult, ErrorView};
use crate::eval::{eval_binary, eval_unary};
use crate::ir_to_koopa::format_nested_init;
use crate::koopa_text::{self, KoopaV, SymbolV};
use crate::names::NameMap;
use crate::scopes::Scopes;
use crate::text::{self, cat2, cat3, cat5, cat6, cat7, dec_i32, dec_usize, join_strings};
use crate::translate;
use vstd::prelude::*;

verus! {

broadcast use {
    crate::ast::exprs_push,
    crate::ast::call_view,
    crate::ast::init_list_view,
    crate::ast::block_view,
    crate::text::texts_push,
};

// ── Symbols ──────────────────────────────────────────────────────────────────

/// What a name stands for.
#[derive(Debug)]
pub enum Symbol {
    Const(i32),
    /// A variable, by its name in the output.
    Var(String),
    /// An array, and the number of its dimensions.
    Array(String, usize),
    /// A parameter that points to integers.
    PtrArray(String),
    /// A parameter that points to arrays of the given dimensions.
    NdParam { name: String, dims: Vec<i32> },
}

impl View for Symbol {
    type V = SymbolV;

    open spec fn view(&self) -> SymbolV {
        match *self {
            Symbol::Const(v) => SymbolV::Const(v),
            Symbol::Var(n) => SymbolV::Var(n@),
            Symbol::Array(n, dims) => SymbolV::Array(n@, dims as nat),
            Symbol::PtrArray(n) => SymbolV::PtrArray(n@),
            Symbol::NdParam { name, dims } => SymbolV::NdParam { name: name@, dims: dims@ },
        }
    }
}

impl Clone for Symbol {
    fn clone(&self) -> (r: Self)
        ensures
            r@ == self@,
    {
        match self {
            Symbol::Const(v) => Symbol::Const(*v),
            Symbol::Var(n) => Symbol::Var(n.clone()),
            Symbol::Array(n, dims) => Symbol::Array(n.clone(), *dims),
            Symbol::PtrArray(n) => Symbol::PtrArray(n.clone()),
            Symbol::NdParam { name, dims } => Symbol::NdParam {
                name: name.clone(),
                dims: copy_ints(dims),
            },
        }
    }
}

// ── The generator ────────────────────────────────────────────────────────────

pub struct KoopaGen {
    scopes: Scopes<Symbol>,
    name_count: NameMap<usize>,
    tmp: usize,
    label: usize,
    sc_count: usize,
    loop_stack: Vec<(String, String)>,
    body: String,
    allocs: String,
    decls: String,
    lib_funcs_emitted: NameMap<bool>,
    global_decls: String,
    func_ret_types: NameMap<Type>,
    block_terminated: bool,
    param_sig_names: NameMap<String>,
}

spec fn loops_view(v: Seq<(String, String)>) -> Seq<(Seq<char>, Seq<char>)> {
    v.map_values(|l: (String, String)| (l.0@, l.1@))
}

impl View for KoopaGen {
    type V = KoopaV;

    closed spec fn view(&self) -> KoopaV {
        KoopaV {
            scopes: self.scopes@,
            counts: self.name_count@,
            tmp: self.tmp,
            label: self.label,
            sc: self.sc_count,
            loops: loops_view(self.loop_stack@),
            body: self.body@,
            allocs: self.allocs@,
            decls: self.decls@,
            declared: self.lib_funcs_emitted@,
            global_decls: self.global_decls@,
            func_rets: self.func_ret_types@,
            terminated: self.block_terminated,
            sig_names: self.param_sig_names@,
        }
    }
}

fn at_name(name: &str) -> (r: String)
    ensures
        r@ == koopa_text::at_name(name@),
{
    cat2("@", name)
}

fn two(op: &str, a: &str, b: &str) -> (r: String)
    ensures
        r@ == koopa_text::two(op@, a@, b@),
{
    cat5(op, " ", a, ", ", b)
}

fn jump(label: &str) -> (r: String)
    ensures
        r@ == koopa_text::jump(label@),
{
    cat2("jump ", label)
}

fn br(cond: &str, yes: &str, no: &str) -> (r: String)
    ensures
        r@ == koopa_text::br(cond@, yes@, no@),
{
    cat6("br ", cond, ", ", yes, ", ", no)
}

fn load(ptr: &str) -> (r: String)
    ensures
        r@ == koopa_text::load(ptr@),
{
    cat2("load ", ptr)
}

fn asm_text(code: &str) -> (r: String)
    ensures
        r@ == koopa_text::asm_text(code@),
{
    cat3("// asm(\"", code, "\")  ; not supported in Koopa IR")
}

fn op_text(op: BinaryOp) -> (r: &'static str)
    ensures
        r@ == koopa_text::op_text(op),
{
    match op {
        BinaryOp::Mul => "mul",
        BinaryOp::Div => "div",
        BinaryOp::Rem => "mod",
        BinaryOp::Add => "add",
        BinaryOp::Sub => "sub",
        BinaryOp::Lt => "lt",
        BinaryOp::Gt => "gt",
        BinaryOp::Le => "le",
        BinaryOp::Ge => "ge",
        BinaryOp::Eq => "eq",
        _ => "ne",
    }
}

impl KoopaGen {
    pub fn new() -> (r: Self)
        ensures
            r@ == koopa_text::start(),
    {
        let r = KoopaGen {
            scopes: Scopes::new(),
            name_count: NameMap::new(),
            tmp: 0,
            label: 0,
            sc_count: 0,
            loop_stack: Vec::new(),
            body: String::new(),
            allocs: String::new(),
            decls: String::new(),
            lib_funcs_emitted: NameMap::new(),
            global_decls: String::new(),
            func_ret_types: NameMap::new(),
            block_terminated: false,
            param_sig_names: NameMap::new(),
        };
        assert(r@ =~= koopa_text::start());
        r
    }

    /// There is a scope.
    spec fn ready(self) -> bool {
        self@.scopes.inner.len() > 0
    }

    /// Scopes and loops are those of an earlier state.
    spec fn kept(self, before: KoopaGen) -> bool {
        self@.scopes == before@.scopes && self@.loops == before@.loops
    }

    // ── Instructions ─────────────────────────────────────────────────────────

    fn emit(&mut self, s: &str)
        ensures
            final(self)@ == old(self)@.emit(s@),
            final(self).loop_stack == old(self).loop_stack,
    {
        self.body.append(cat3("  ", s, "\n").as_str());
    }

    /// Writes an instruction that ends the block.
    fn end_with(&mut self, s: &str)
        ensures
            final(self)@ == old(self)@.end_with(s@),
    {
        self.emit(s);
        self.block_terminated = true;
    }

    fn emit_label(&mut self, label: &str)
        ensures
            final(self)@ == old(self)@.start(label@),
    {
        self.body.append(cat2(label, ":\n").as_str());
        self.block_terminated = false;
    }

    /// Puts down a variable of the function.
    fn pend(&mut self, name: &str, ty: &str)
        ensures
            final(self)@ == old(self)@.pend(name@, ty@),
    {
        self.allocs.append(cat5("  ", name, " = alloc ", ty, "\n").as_str());
    }

    fn alloc_tmp(&mut self) -> (r: CompilerResult<String>)
        ensures
            match old(self)@.new_tmp() {
                Ok((g, t)) => r matches Ok(x) && x@ == t && final(self)@ == g,
                Err(e) => r matches Err(x) && x@ == e,
            },
    {
        if self.tmp == usize::MAX {
            return Err(too_large());
        }
        let t = cat2("%", dec_usize(self.tmp).as_str());
        self.tmp = self.tmp + 1;
        Ok(t)
    }

    /// Writes an instruction whose result goes to a new temporary.
    fn def(&mut self, s: &str) -> (r: CompilerResult<String>)
        ensures
            match old(self)@.def(s@) {
                Ok((g, t)) => r matches Ok(x) && x@ == t && final(self)@ == g && final(self).kept(
                    *old(self),
                ),
                Err(e) => r matches Err(x) && x@ == e,
            },
    {
        let t = self.alloc_tmp()?;
        self.emit(cat3(t.as_str(), " = ", s).as_str());
        Ok(t)
    }

    fn new_label(&mut self) -> (r: CompilerResult<String>)
        ensures
            match old(self)@.new_label() {
                Ok((g, t)) => r matches Ok(x) && x@ == t && final(self)@ == g,
                Err(e) => r matches Err(x) && x@ == e,
            },
    {
        if self.label == usize::MAX {
            return Err(too_large());
        }
        let l = cat2("%label_", dec_usize(self.label).as_str());
        self.label = self.label + 1;
        Ok(l)
    }

    fn labels(&mut self) -> (r: CompilerResult<(String, String, String)>)
        ensures
            match old(self)@.labels() {
                Ok((g, t)) => r matches Ok(x) && (x.0@, x.1@, x.2@) == t && final(self)@ == g
                    && final(self).kept(*old(self)),
                Err(e) => r matches Err(x) && x@ == e,
            },
    {
        let a = self.new_label()?;
        let b = self.new_label()?;
        let c = self.new_label()?;
        Ok((a, b, c))
    }

    fn alloc_sc(&mut self) -> (r: CompilerResult<String>)
        ensures
            match old(self)@.short_circuit() {
                Ok((g, t)) => r matches Ok(x) && x@ == t && final(self)@ == g && final(self).kept(
                    *old(self),
                ),
                Err(e) => r matches Err(x) && x@ == e,
            },
    {
        if self.sc_count == usize::MAX {
            return Err(too_large());
        }
        let t = cat2("@sc_", dec_usize(self.sc_count).as_str());
        self.sc_count = self.sc_count + 1;
        self.pend(t.as_str(), "i32");
        Ok(t)
    }

    // ── Names ────────────────────────────────────────────────────────────────

    fn mangle(&mut self, name: &str) -> (r: CompilerResult<String>)
        ensures
            match old(self)@.mangle(name@) {
                Ok((g, s)) => r matches Ok(x) && x@ == s && final(self)@ == g,
                Err(e) => r matches Err(x) && x@ == e,
            },
    {
        let count: usize = match self.name_count.get(name) {
            Some(n) => *n,
            None => 0,
        };
        if count == usize::MAX {
            return Err(too_large());
        }
        self.name_count.insert(name.to_owned(), count + 1);
        if count == 0 {
            Ok(name.to_owned())
        } else {
            Ok(cat3(name, "_", dec_usize(count).as_str()))
        }
    }

    /// A variable name that also differs from that of a global variable.
    fn local_name(&mut self, name: &str) -> (r: CompilerResult<String>)
        ensures
            match old(self)@.local_name(name@) {
                Ok((g, s)) => r matches Ok(x) && x@ == s && final(self)@ == g && final(self).kept(
                    *old(self),
                ),
                Err(e) => r matches Err(x) && x@ == e,
            },
    {
        if self.scopes.has_global(name) {
            self.mangle(name)?;
        }
        self.mangle(name)
    }

    // ── Constants and array shapes ───────────────────────────────────────────

    fn eval_const(&self, expr: &Expr) -> (r: CompilerResult<i32>)
        ensures
            match koopa_text::const_value(self@.scopes, expr.view()) {
                Ok(v) => r == Ok::<i32, CompilerError>(v),
                Err(e) => r matches Err(x) && x@ == e,
            },
        decreases expr,
    {
        match expr {
            Expr::Int(v) => Ok(*v),
            Expr::LVal(name) => match self.scopes.lookup(name.as_str()) {
                Some(Symbol::Const(v)) => Ok(*v),
                _ => Err(quote("'", name.as_str(), "' is not a compile-time constant")),
            },
            Expr::Unary { op, expr: inner } => {
                let v = self.eval_const(inner)?;
                Ok(eval_unary(*op, v))
            },
            Expr::Binary { op, lhs, rhs } => {
                let l = self.eval_const(lhs)?;
                let r = self.eval_const(rhs)?;
                match eval_binary(*op, l, r) {
                    Some(v) => Ok(v),
                    None => if matches!(op, BinaryOp::Div) {
                        Err(fail("invalid constant division"))
                    } else {
                        Err(fail("invalid constant remainder"))
                    },
                }
            },
            Expr::Call { .. } => Err(fail("function call is not a compile-time constant")),
            Expr::Index { .. } => Err(fail("array access is not a compile-time constant")),
            Expr::InitList(_) => Err(fail("initializer list is not a compile-time constant")),
            Expr::Asm(_) => Err(fail("inline assembly is not a compile-time constant")),
        }
    }

    /// The values of constant expressions.
    fn eval_dims(&self, dims: &Vec<Expr>) -> (r: CompilerResult<Vec<i32>>)
        ensures
            match koopa_text::const_values(self@.scopes, ast::exprs(dims@)) {
                Ok(v) => r matches Ok(x) && x@ == v,
                Err(e) => r matches Err(x) && x@ == e,
            },
    {
        let mut out: Vec<i32> = Vec::new();
        let ghost all = ast::exprs(dims@);
        let mut i: usize = 0;
        assert(all.take(0) =~= Seq::empty());
        while i < dims.len()
            invariant
                i <= dims.len(),
                all == ast::exprs(dims@),
                koopa_text::const_values(self@.scopes, all.take(i as int)) == Ok::<
                    Seq<i32>,
                    ErrorView,
                >(out@),
            decreases dims.len() - i,
        {
            assert(all.take(i + 1).drop_last() =~= all.take(i as int));
            match self.eval_const(&dims[i]) {
                Ok(v) => {
                    out.push(v);
                },
                Err(e) => {
                    proof {
                        const_values_fail(self@.scopes, all, i + 1);
                    }
                    return Err(e);
                },
            }
            i = i + 1;
        }
        assert(all.take(i as int) =~= all);
        Ok(out)
    }

    /// The dimensions of an array parameter.
    fn eval_param_dims(&self, dims: &Vec<Expr>) -> (r: Vec<i32>)
        ensures
            r@ == koopa_text::param_dims(self@.scopes, ast::exprs(dims@)),
    {
        let mut out: Vec<i32> = Vec::new();
        let ghost all = koopa_text::param_dims(self@.scopes, ast::exprs(dims@));
        let mut i: usize = 0;
        while i < dims.len()
            invariant
                i <= dims.len(),
                all == koopa_text::param_dims(self@.scopes, ast::exprs(dims@)),
                out@ =~= all.take(i as int),
            decreases dims.len() - i,
        {
            match self.eval_const(&dims[i]) {
                Ok(v) => {
                    out.push(v);
                },
                Err(_) => {
                    out.push(1);
                },
            }
            i = i + 1;
            assert(all.take(i as int) =~= all.take(i - 1).push(all[i - 1]));
        }
        assert(all.take(i as int) =~= all);
        out
    }
}

/// A list of constant expressions fails where one of its first parts does, in the same way.
proof fn const_values_fail(v: crate::scopes::ScopesV<SymbolV>, es: Seq<ExprV>, k: int)
    requires
        0 <= k <= es.len(),
        koopa_text::const_values(v, es.take(k)) is Err,
    ensures
        koopa_text::const_values(v, es) == koopa_text::const_values(v, es.take(k)),
    decreases es.len() - k,
{
    if k == es.len() {
        assert(es.take(k) =~= es);
    } else {
        assert(es.take(k + 1).drop_last() =~= es.take(k));
        const_values_fail(v, es, k + 1);
    }
}

/// The type of an array.
fn array_type_str(dims: &[i32]) -> (r: String)
    ensures
        r@ == koopa_text::array_text(dims@),
{
    let mut ty = "i32".to_owned();
    let mut i: usize = dims.len();
    while i > 0
        invariant
            i <= dims.len(),
            ty@ == koopa_text::array_text(dims@.skip(i as int)),
        decreases i,
    {
        i = i - 1;
        assert(dims@.skip(i as int).drop_first() =~= dims@.skip(i + 1));
        ty = cat5("[", ty.as_str(), ", ", dec_i32(dims[i]).as_str(), "]");
    }
    assert(dims@.skip(0) =~= dims@);
    ty
}

// ── Initializers ─────────────────────────────────────────────────────────────

fn has_nested(items: &Vec<Expr>) -> (r: bool)
    ensures
        r == koopa_text::has_nested(ast::exprs(items@)),
{
    let ghost all = ast::exprs(items@);
    let mut i: usize = 0;
    while i < items.len()
        invariant
            i <= items.len(),
            all == ast::exprs(items@),
            forall|k: int| 0 <= k < i ==> !((#[trigger] all[k]) is InitList),
        decreases items.len() - i,
    {
        assert(all[i as int] == items@[i as int].view());
        if let Expr::InitList(_) = &items[i] {
            assert(all[i as int] is InitList);
            return true;
        }
        i = i + 1;
    }
    false
}

/// Adds zeros so that what follows `start` is made of whole rows.
fn pad_row<'a>(flat: &mut Vec<Option<&'a Expr>>, start: usize, row: usize) -> (r: CompilerResult<()>)
    requires
        row > 0,
        start <= old(flat)@.len(),
    ensures
        ({
            let end = koopa_text::row_end(start as int, old(flat)@.len() as int, row as int);
            if end <= usize::MAX {
                r is Ok && items_view(final(flat)@) == translate::fill(
                    items_view(old(flat)@),
                    end,
                ) && final(flat)@.len() >= old(flat)@.len()
            } else {
                r matches Err(x) && x@ == translate::bad_dims()
            }
        }),
{
    let n = flat.len();
    let more = (row - (n - start) % row) % row;
    match n.checked_add(more) {
        Some(end) => {
            fill(flat, end);
            Ok(())
        },
        None => Err(bad_dims()),
    }
}

/// The items of an initializer, one for each element.
#[verifier::loop_isolation(false)]
fn flatten_init<'a>(dims: &[i32], init: &'a Expr, flat: &mut Vec<Option<&'a Expr>>) -> (r:
    CompilerResult<()>)
    ensures
        match koopa_text::flatten(dims@, init.view(), items_view(old(flat)@)) {
            Ok(v) => r is Ok && items_view(final(flat)@) == v && final(flat)@.len() >= old(
                flat,
            )@.len(),
            Err(e) => r matches Err(x) && x@ == e,
        },
    decreases init,
{
    let size = match total(dims) {
        Some(t) => t,
        None => return Err(bad_dims()),
    };
    if let Expr::InitList(items) = init {
        if items.len() == 0 {
            return Ok(());
        }
        let ghost all = ast::exprs(items@);
        let ghost start = items_view(flat@);
        let rows = dims.len() > 1 && has_nested(items);
        let mut k: usize = 0;
        while k < items.len()
            invariant
                k <= items.len(),
                flat@.len() >= start.len(),
                koopa_text::flatten_items(dims@, all, 0, rows, start) == koopa_text::flatten_items(
                    dims@,
                    all,
                    k as int,
                    rows,
                    items_view(flat@),
                ),
            decreases items.len() - k,
        {
            let item = &items[k];
            assert(all[k as int] == item.view());
            let before = flat.len();
            if rows {
                let inner = vstd::slice::slice_subrange(dims, 1, dims.len());
                assert(inner@ =~= dims@.drop_first());
                let row = match total(inner) {
                    Some(t) => t,
                    None => return Err(bad_dims()),
                };
                if row == 0 {
                    return Err(bad_dims());
                }
                if let Expr::InitList(_) = item {
                    flatten_init(inner, item, flat)?;
                } else {
                    proof {
                        items_push(flat@, Some(item));
                    }
                    flat.push(Some(item));
                }
                pad_row(flat, before, row)?;
            } else if let Expr::InitList(_) = item {
                let none: Vec<i32> = Vec::new();
                assert(none@ =~= Seq::empty());
                flatten_init(none.as_slice(), item, flat)?;
            } else {
                proof {
                    items_push(flat@, Some(item));
                }
                flat.push(Some(item));
            }
            k = k + 1;
        }
    } else {
        proof {
            items_push(flat@, Some(init));
        }
        flat.push(Some(init));
    }
    fill(flat, size);
    Ok(())
}

impl KoopaGen {
    /// The initial value of a global array.
    #[verifier::loop_isolation(false)]
    fn global_init_string(&self, dims: &Vec<i32>, init: &Expr) -> (r: CompilerResult<String>)
        ensures
            match koopa_text::global_init(self@.scopes, dims@, init.view()) {
                Ok(s) => r matches Ok(x) && x@ == s,
                Err(e) => r matches Err(x) && x@ == e,
            },
    {
        let mut flat: Vec<Option<&Expr>> = Vec::new();
        assert(items_view(flat@) =~= Seq::empty());
        flatten_init(dims.as_slice(), init, &mut flat)?;
        let ghost all = items_view(flat@).map_values(
            |e: ExprV| koopa_text::const_or(self@.scopes, e, 0),
        );
        let mut vals: Vec<i32> = Vec::new();
        let mut i: usize = 0;
        while i < flat.len()
            invariant
                i <= flat.len(),
                vals@ =~= all.take(i as int),
            decreases flat.len() - i,
        {
            let v = match flat[i] {
                Some(e) => match self.eval_const(e) {
                    Ok(v) => v,
                    Err(_) => 0,
                },
                None => 0,
            };
            vals.push(v);
            i = i + 1;
            assert(all.take(i as int) =~= all.take(i - 1).push(all[i - 1]));
        }
        assert(all.take(i as int) =~= all);
        let mut pos: usize = 0;
        Ok(format_nested_init(&make_array_type(dims.as_slice()), &vals, &mut pos, Ghost(0)))
    }

    /// Stores a value to an element, by its position among all elements.
    fn gen_array_store(&mut self, base: &str, dims: &[i32], at: usize, val: &str) -> (r:
        CompilerResult<()>)
        ensures
            match koopa_text::array_store(old(self)@, base@, dims@, at as int, val@) {
                Ok(g) => r is Ok && final(self)@ == g && final(self).kept(*old(self)),
                Err(e) => r matches Err(x) && x@ == e,
            },
        decreases dims@.len(),
    {
        if dims.len() == 0 {
            return Err(bad_dims());
        }
        let inner = vstd::slice::slice_subrange(dims, 1, dims.len());
        assert(inner@ =~= dims@.drop_first());
        if dims.len() == 1 {
            let p0 = self.def(two("getelemptr", base, "0").as_str())?;
            let p1 = self.def(two("getptr", p0.as_str(), dec_usize(at).as_str()).as_str())?;
            self.emit(two("store", val, p1.as_str()).as_str());
            return Ok(());
        }
        let row = match total(inner) {
            Some(t) => t,
            None => return Err(bad_dims()),
        };
        if row == 0 {
            return Err(bad_dims());
        }
        let p0 = self.def(two("getelemptr", base, "0").as_str())?;
        let p1 = self.def(two("getptr", p0.as_str(), dec_usize(at / row).as_str()).as_str())?;
        self.gen_array_store(p1.as_str(), inner, at % row, val)
    }
}

// ── Expressions ──────────────────────────────────────────────────────────────

impl KoopaGen {
    /// What the name under the indices of an expression stands for.
    fn base_symbol(&self, expr: &Expr) -> (r: Option<&Symbol>)
        ensures
            match koopa_text::base_symbol(self@.scopes, expr.view()) {
                Some(s) => r matches Some(x) && x@ == s,
                None => r is None,
            },
        decreases expr,
    {
        match expr {
            Expr::Index { array, .. } => self.base_symbol(array),
            Expr::LVal(name) => self.scopes.lookup(name.as_str()),
            _ => None,
        }
    }

    fn is_ndparam_chain(&self, expr: &Expr) -> (r: bool)
        ensures
            r == koopa_text::is_param(koopa_text::base_symbol(self@.scopes, expr.view())),
    {
        match self.base_symbol(expr) {
            Some(Symbol::NdParam { .. }) => true,
            _ => false,
        }
    }

    /// Whether an expression is the name of a parameter that points to integers.
    fn is_ptr_array(&self, expr: &Expr) -> (r: bool)
        ensures
            r == (expr.view() is LVal && koopa_text::base_symbol(
                self@.scopes,
                expr.view(),
            ) matches Some(SymbolV::PtrArray(_))),
    {
        match expr {
            Expr::LVal(name) => matches!(
                self.scopes.lookup(name.as_str()),
                Some(Symbol::PtrArray(_))
            ),
            _ => false,
        }
    }

    /// Whether an expression has at least as many indices as its array has dimensions.
    fn fully_indexed(&self, expr: &Expr, extra: usize) -> (r: bool)
        requires
            extra <= 1,
        ensures
            r == (extra + translate::index_count(expr.view()) >= koopa_text::total_dims(
                koopa_text::base_symbol(self@.scopes, expr.view()),
            )),
    {
        proof {
            ast_to_ir::index_count_nonneg(expr.view());
        }
        match self.base_symbol(expr) {
            Some(Symbol::Array(_, dims)) => {
                let n = *dims;
                n <= extra || count_indices(expr, n - extra) == n - extra
            },
            Some(Symbol::NdParam { dims, .. }) => {
                let n = dims.len();
                if extra == 1 {
                    count_indices(expr, n) == n
                } else {
                    count_indices(expr, n) == n && (match expr {
                        Expr::Index { array, .. } => count_indices(array, n) == n,
                        _ => false,
                    })
                }
            },
            _ => extra == 1 || count_indices(expr, 1) == 1,
        }
    }

    /// The value at an address, or the address of the first element of the row there.
    fn element(&mut self, p: &str, whole: bool) -> (r: CompilerResult<String>)
        ensures
            match koopa_text::element(old(self)@, p@, whole) {
                Ok((g, v)) => r matches Ok(x) && x@ == v && final(self)@ == g && final(self).kept(
                    *old(self),
                ),
                Err(e) => r matches Err(x) && x@ == e,
            },
    {
        if whole {
            self.def(load(p).as_str())
        } else {
            self.def(two("getelemptr", p, "0").as_str())
        }
    }

    /// The address of an element of the array at `base`.
    fn array_step(&mut self, base: &str, index: &str) -> (r: CompilerResult<String>)
        ensures
            match koopa_text::array_step(old(self)@, base@, index@) {
                Ok((g, v)) => r matches Ok(x) && x@ == v && final(self)@ == g && final(self).kept(
                    *old(self),
                ),
                Err(e) => r matches Err(x) && x@ == e,
            },
    {
        let p = self.def(two("getelemptr", base, "0").as_str())?;
        self.def(two("getptr", p.as_str(), index).as_str())
    }

    /// The address of an element behind a pointer or of an array.
    fn index_step(&mut self, pointer: bool, base: &str, index: &str) -> (r: CompilerResult<String>)
        ensures
            match koopa_text::index_step(old(self)@, pointer, base@, index@) {
                Ok((g, v)) => r matches Ok(x) && x@ == v && final(self)@ == g && final(self).kept(
                    *old(self),
                ),
                Err(e) => r matches Err(x) && x@ == e,
            },
    {
        if pointer {
            self.def(two("getptr", base, index).as_str())
        } else {
            self.array_step(base, index)
        }
    }

    /// The value of a name.
    fn gen_name(&mut self, name: &str) -> (r: CompilerResult<String>)
        ensures
            match koopa_text::name_value(old(self)@, name@) {
                Ok((g, v)) => r matches Ok(x) && x@ == v && final(self)@ == g && final(self).kept(
                    *old(self),
                ),
                Err(e) => r matches Err(x) && x@ == e,
            },
    {
        let sym = match self.scopes.lookup(name) {
            Some(s) => s.clone(),
            None => return Err(quote("undefined identifier '", name, "'")),
        };
        match sym {
            Symbol::Const(v) => Ok(dec_i32(v)),
            Symbol::Var(n) => self.def(load(at_name(n.as_str()).as_str()).as_str()),
            Symbol::Array(n, _) => self.def(
                two("getelemptr", at_name(n.as_str()).as_str(), "0").as_str(),
            ),
            Symbol::PtrArray(n) => Ok(at_name(n.as_str())),
            Symbol::NdParam { name: n, .. } => Ok(at_name(n.as_str())),
        }
    }

    /// Declares a function of the runtime library, where it is not declared yet.
    #[verifier::loop_isolation(false)]
    fn emit_lib_decl(&mut self, name: &str)
        ensures
            final(self)@ == koopa_text::lib_call(old(self)@, name@),
            final(self).kept(*old(self)),
    {
        let ret = match lib_func_ret_type(name) {
            Some(t) => t,
            None => return,
        };
        if self.lib_funcs_emitted.contains_key(name) {
            return;
        }
        self.lib_funcs_emitted.insert(name.to_owned(), true);
        let types = lib_func_params(name);
        let ghost all = types@.map_values(|t: crate::ir::IrType| crate::ir::type_text(t));
        let mut texts: Vec<String> = Vec::new();
        let mut i: usize = 0;
        assert(text::texts(texts@) =~= all.take(0));
        while i < types.len()
            invariant
                i <= types.len(),
                text::texts(texts@) == all.take(i as int),
            decreases types.len() - i,
        {
            texts.push(types[i].text());
            i = i + 1;
            assert(all.take(i as int) =~= all.take(i - 1).push(all[i - 1]));
        }
        assert(all.take(i as int) =~= all);
        let decl = cat7(
            "decl @",
            name,
            "(",
            join_strings(&texts, ", ").as_str(),
            ")",
            ret_text(ret),
            "\n",
        );
        self.decls.append(decl.as_str());
    }

    /// The condition that the first operand of a short-circuit operator branches on.
    fn as_br_cond(&mut self, val: String) -> (r: CompilerResult<String>)
        ensures
            match koopa_text::branch_cond(old(self)@, val@) {
                Ok((g, v)) => r matches Ok(x) && x@ == v && final(self)@ == g && final(self).kept(
                    *old(self),
                ),
                Err(e) => r matches Err(x) && x@ == e,
            },
    {
        if begins_with(val.as_str(), '%') || begins_with(val.as_str(), '@') {
            Ok(val)
        } else {
            self.def(two("ne", val.as_str(), "0").as_str())
        }
    }

    /// Stores the value of a short-circuit operator that its first operand has decided.
    fn gen_decided(&mut self, value: &str, sc: &str, end: &str)
        ensures
            final(self)@ == koopa_text::decided(old(self)@, value@, sc@, end@),
            final(self).kept(*old(self)),
    {
        self.emit(two("store", value, sc).as_str());
        self.emit(jump(end).as_str());
    }

    fn gen_expr(&mut self, expr: &Expr) -> (r: CompilerResult<String>)
        ensures
            match koopa_text::expr(old(self)@, expr.view()) {
                Ok((g, v)) => r matches Ok(x) && x@ == v && final(self)@ == g && final(self).kept(
                    *old(self),
                ),
                Err(e) => r matches Err(x) && x@ == e,
            },
        decreases expr, 2int,
    {
        match expr {
            Expr::Int(n) => Ok(dec_i32(*n)),
            Expr::LVal(name) => self.gen_name(name.as_str()),
            Expr::Unary { op, expr: inner } => {
                let val = self.gen_expr(inner)?;
                match op {
                    UnaryOp::Plus => Ok(val),
                    UnaryOp::Minus => self.def(two("sub", "0", val.as_str()).as_str()),
                    UnaryOp::Not => self.def(two("eq", val.as_str(), "0").as_str()),
                }
            },
            Expr::Binary { op, lhs, rhs } => match op {
                BinaryOp::And => self.gen_and(expr),
                BinaryOp::Or => self.gen_or(expr),
                _ => {
                    let l = self.gen_expr(lhs)?;
                    let r = self.gen_expr(rhs)?;
                    self.def(two(op_text(*op), l.as_str(), r.as_str()).as_str())
                },
            },
            Expr::Call { name, args } => {
                self.emit_lib_decl(name.as_str());
                let vals = self.gen_exprs(args)?;
                self.gen_call(name.as_str(), &vals)
            },
            Expr::Index { .. } => self.gen_index_expr(expr),
            Expr::InitList(items) => {
                let vals = self.gen_exprs(items)?;
                let n = vals.len();
                if n == 0 {
                    Ok(String::new())
                } else {
                    assert(text::texts(vals@).last() == vals@[n - 1]@);
                    Ok(vals[n - 1].clone())
                }
            },
            Expr::Asm(code) => {
                self.emit(asm_text(code.as_str()).as_str());
                Ok("undef".to_owned())
            },
        }
    }

    fn gen_and(&mut self, expr: &Expr) -> (r: CompilerResult<String>)
        requires
            *expr matches Expr::Binary { op, .. } && op is And,
        ensures
            match koopa_text::expr(old(self)@, expr.view()) {
                Ok((g, v)) => r matches Ok(x) && x@ == v && final(self)@ == g && final(self).kept(
                    *old(self),
                ),
                Err(e) => r matches Err(x) && x@ == e,
            },
        decreases expr, 0int,
    {
        if let Expr::Binary { lhs, rhs, .. } = expr {
            let sc = self.alloc_sc()?;
            let l = self.gen_expr(lhs)?;
            let cond = self.as_br_cond(l)?;
            let (rhs_l, false_l, end_l) = self.labels()?;
            self.emit(br(cond.as_str(), rhs_l.as_str(), false_l.as_str()).as_str());
            self.emit_label(rhs_l.as_str());
            let rv = self.gen_expr(rhs)?;
            let t = self.def(two("ne", rv.as_str(), "0").as_str())?;
            self.emit(two("store", t.as_str(), sc.as_str()).as_str());
            self.emit(jump(end_l.as_str()).as_str());
            self.emit_label(false_l.as_str());
            self.gen_decided("0", sc.as_str(), end_l.as_str());
            self.emit_label(end_l.as_str());
            self.def(load(sc.as_str()).as_str())
        } else {
            Err(too_large())
        }
    }

    fn gen_or(&mut self, expr: &Expr) -> (r: CompilerResult<String>)
        requires
            *expr matches Expr::Binary { op, .. } && op is Or,
        ensures
            match koopa_text::expr(old(self)@, expr.view()) {
                Ok((g, v)) => r matches Ok(x) && x@ == v && final(self)@ == g && final(self).kept(
                    *old(self),
                ),
                Err(e) => r matches Err(x) && x@ == e,
            },
        decreases expr, 0int,
    {
        if let Expr::Binary { lhs, rhs, .. } = expr {
            let sc = self.alloc_sc()?;
            let l = self.gen_expr(lhs)?;
            let cond = self.as_br_cond(l)?;
            let (true_l, rhs_l, end_l) = self.labels()?;
            self.emit(br(cond.as_str(), true_l.as_str(), rhs_l.as_str()).as_str());
            self.emit_label(true_l.as_str());
            self.gen_decided("1", sc.as_str(), end_l.as_str());
            self.emit_label(rhs_l.as_str());
            let rv = self.gen_expr(rhs)?;
            let t = self.def(two("ne", rv.as_str(), "0").as_str())?;
            self.emit(two("store", t.as_str(), sc.as_str()).as_str());
            self.emit(jump(end_l.as_str()).as_str());
            self.emit_label(end_l.as_str());
            self.def(load(sc.as_str()).as_str())
        } else {
            Err(too_large())
        }
    }

    /// The values of expressions.
    #[verifier::loop_isolation(false)]
    fn gen_exprs(&mut self, es: &Vec<Expr>) -> (r: CompilerResult<Vec<String>>)
        ensures
            match koopa_text::exprs(old(self)@, ast::exprs(es@), 0, Seq::empty()) {
                Ok((g, v)) => r matches Ok(x) && text::texts(x@) == v && final(self)@ == g
                    && final(self).kept(*old(self)),
                Err(e) => r matches Err(x) && x@ == e,
            },
        decreases es, 0int,
    {
        let mut vals: Vec<String> = Vec::new();
        let mut k: usize = 0;
        assert(text::texts(vals@) =~= Seq::empty());
        while k < es.len()
            invariant
                k <= es.len(),
                self.kept(*old(self)),
                koopa_text::exprs(old(self)@, ast::exprs(es@), 0, Seq::empty())
                    == koopa_text::exprs(self@, ast::exprs(es@), k as int, text::texts(vals@)),
            decreases es.len() - k,
        {
            assert(ast::exprs(es@)[k as int] == es@[k as int].view());
            let v = self.gen_expr(&es[k])?;
            vals.push(v);
            k = k + 1;
        }
        Ok(vals)
    }

    fn gen_call(&mut self, name: &str, args: &Vec<String>) -> (r: CompilerResult<String>)
        ensures
            match koopa_text::call(old(self)@, name@, text::texts(args@)) {
                Ok((g, v)) => r matches Ok(x) && x@ == v && final(self)@ == g && final(self).kept(
                    *old(self),
                ),
                Err(e) => r matches Err(x) && x@ == e,
            },
    {
        let code = cat5("call @", name, "(", join_strings(args, ", ").as_str(), ")");
        let is_void = matches!(lib_func_ret_type(name), Some(Type::Void)) || matches!(
            self.func_ret_types.get(name),
            Some(Type::Void)
        );
        if is_void {
            self.emit(code.as_str());
            Ok(String::new())
        } else {
            self.def(code.as_str())
        }
    }

    /// The value of an indexed array.
    fn gen_index_expr(&mut self, expr: &Expr) -> (r: CompilerResult<String>)
        ensures
            match koopa_text::index_value(old(self)@, expr.view()) {
                Ok((g, v)) => r matches Ok(x) && x@ == v && final(self)@ == g && final(self).kept(
                    *old(self),
                ),
                Err(e) => r matches Err(x) && x@ == e,
            },
        decreases expr, 1int,
    {
        match expr {
            Expr::Index { array, index } => {
                if self.is_ndparam_chain(expr) {
                    let whole = self.fully_indexed(expr, 0);
                    let ptr = self.gen_ndparam_ptr(expr)?;
                    return self.element(ptr.as_str(), whole);
                }
                let whole = self.fully_indexed(array, 1);
                let is_ptr = self.is_ptr_array(array);
                let idx_val = self.gen_expr(index)?;
                let base = self.gen_expr_base(array)?;
                let elem_ptr = self.index_step(is_ptr, base.as_str(), idx_val.as_str())?;
                self.element(elem_ptr.as_str(), whole)
            },
            _ => Err(fail("invalid array access")),
        }
    }

    /// The address of an indexed array parameter.
    fn gen_ndparam_ptr(&mut self, expr: &Expr) -> (r: CompilerResult<String>)
        ensures
            match koopa_text::param_ptr(old(self)@, expr.view()) {
                Ok((g, v)) => r matches Ok(x) && x@ == v && final(self)@ == g && final(self).kept(
                    *old(self),
                ),
                Err(e) => r matches Err(x) && x@ == e,
            },
        decreases expr, 0int,
    {
        match expr {
            Expr::Index { array, index } => {
                let inner: &Expr = &*array;
                match inner {
                    Expr::LVal(name) => {
                        assert(inner.view() == ExprV::LVal(name@));
                        let base = match self.scopes.lookup(name.as_str()) {
                            Some(Symbol::NdParam { name: n, .. }) => at_name(n.as_str()),
                            _ => return Err(fail("expected NdParam")),
                        };
                        let first = self.gen_expr(index)?;
                        self.def(two("getptr", base.as_str(), first.as_str()).as_str())
                    },
                    _ => {
                        assert(!(inner.view() is LVal));
                        let ptr = self.gen_ndparam_ptr(inner)?;
                        let idx_val = self.gen_expr(index)?;
                        self.def(two("getelemptr", ptr.as_str(), idx_val.as_str()).as_str())
                    },
                }
            },
            _ => Err(fail("invalid array access")),
        }
    }

    /// The address that an expression under an index stands for.
    fn gen_expr_base(&mut self, expr: &Expr) -> (r: CompilerResult<String>)
        ensures
            match koopa_text::base(old(self)@, expr.view()) {
                Ok((g, v)) => r matches Ok(x) && x@ == v && final(self)@ == g && final(self).kept(
                    *old(self),
                ),
                Err(e) => r matches Err(x) && x@ == e,
            },
        decreases expr, 0int,
    {
        match expr {
            Expr::LVal(name) => match self.scopes.lookup(name.as_str()) {
                Some(Symbol::Var(n)) => Ok(at_name(n.as_str())),
                Some(Symbol::Array(n, _)) => Ok(at_name(n.as_str())),
                Some(Symbol::PtrArray(n)) => Ok(at_name(n.as_str())),
                Some(Symbol::NdParam { name: n, .. }) => Ok(at_name(n.as_str())),
                _ => Err(quote("'", name.as_str(), "' is not an lvalue")),
            },
            Expr::Index { array, index } => {
                let idx_val = self.gen_expr(index)?;
                let base = self.gen_expr_base(array)?;
                self.array_step(base.as_str(), idx_val.as_str())
            },
            _ => Err(fail("not an lvalue")),
        }
    }
}

fn begins_with(s: &str, c: char) -> (r: bool)
    ensures
        r == text::starts_with(s@, c),
{
    s.unicode_len() > 0 && s.get_char(0) == c
}

fn ret_text(t: Type) -> (r: &'static str)
    ensures
        r@ == koopa_text::ret_text(t),
{
    match t {
        Type::Int => ": i32",
        Type::Void => {
            let none = "";
            proof {
                reveal_strlit("");
            }
            assert(none@ =~= Seq::empty());
            none
        },
    }
}

// ── Declarations and statements ──────────────────────────────────────────────

impl KoopaGen {
    #[verifier::loop_isolation(false)]
    fn gen_array_init(&mut self, base: &str, dims: &Vec<i32>, init: &Expr) -> (r: CompilerResult<()>)
        ensures
            match koopa_text::array_init(old(self)@, base@, dims@, init.view()) {
                Ok(g) => r is Ok && final(self)@ == g && final(self).kept(*old(self)),
                Err(e) => r matches Err(x) && x@ == e,
            },
    {
        let mut flat: Vec<Option<&Expr>> = Vec::new();
        assert(items_view(flat@) =~= Seq::empty());
        flatten_init(dims.as_slice(), init, &mut flat)?;
        let size = match total(dims.as_slice()) {
            Some(t) => t,
            None => return Err(bad_dims()),
        };
        fill(&mut flat, size);
        let ghost all = items_view(flat@);
        let zero = Expr::Int(0);
        let mut i: usize = 0;
        while i < size
            invariant
                i <= size,
                self.kept(*old(self)),
                koopa_text::init_stores(old(self)@, base@, dims@, all, 0, size as int)
                    == koopa_text::init_stores(
                    self@,
                    base@,
                    dims@,
                    all,
                    i as int,
                    size as int,
                ),
            decreases size - i,
        {
            assert(all[i as int] == item_view(flat@[i as int]));
            let val = match flat[i] {
                Some(e) => self.gen_expr(e)?,
                None => self.gen_expr(&zero)?,
            };
            self.gen_array_store(base, dims.as_slice(), i, val.as_str())?;
            i = i + 1;
        }
        Ok(())
    }

    /// A new array of the function, bound to a name.
    fn new_array(&mut self, name: &String, mangled: String, dims: &Vec<i32>)
        requires
            old(self).ready(),
        ensures
            final(self)@ == koopa_text::new_array(old(self)@, name@, mangled@, dims@),
    {
        self.pend(
            at_name(mangled.as_str()).as_str(),
            array_type_str(dims.as_slice()).as_str(),
        );
        self.scopes.bind(name.clone(), Symbol::Array(mangled, dims.len()));
    }

    fn gen_const_def(&mut self, def: &ConstDef) -> (r: CompilerResult<()>)
        requires
            old(self).ready(),
        ensures
            match koopa_text::const_def(old(self)@, def.view()) {
                Ok(g) => r is Ok && final(self)@ == g && final(self)@.loops == old(self)@.loops
                    && final(self)@.scopes.inner.len() == old(self)@.scopes.inner.len(),
                Err(e) => r matches Err(x) && x@ == e,
            },
    {
        if self.scopes.declared(def.name.as_str()) {
            return Err(quote("redeclaration of '", def.name.as_str(), "'"));
        }
        let is_list = matches!(def.init, Expr::InitList(_));
        if def.dims.len() == 0 && !is_list {
            let v = self.eval_const(&def.init)?;
            self.scopes.bind(def.name.clone(), Symbol::Const(v));
            return Ok(());
        }
        let mangled = self.local_name(def.name.as_str())?;
        let dims = self.eval_dims(&def.dims)?;
        let base = at_name(mangled.as_str());
        self.new_array(&def.name, mangled, &dims);
        self.gen_array_init(base.as_str(), &dims, &def.init)
    }

    fn gen_var_def(&mut self, def: &VarDef) -> (r: CompilerResult<()>)
        requires
            old(self).ready(),
        ensures
            match koopa_text::var_def(old(self)@, def.view()) {
                Ok(g) => r is Ok && final(self)@ == g && final(self)@.loops == old(self)@.loops
                    && final(self)@.scopes.inner.len() == old(self)@.scopes.inner.len(),
                Err(e) => r matches Err(x) && x@ == e,
            },
    {
        if self.scopes.declared(def.name.as_str()) {
            return Err(quote("redeclaration of '", def.name.as_str(), "'"));
        }
        let mangled = self.local_name(def.name.as_str())?;
        let base = at_name(mangled.as_str());
        if def.dims.len() == 0 {
            self.pend(base.as_str(), "i32");
            if let Some(init) = &def.init {
                let val = self.gen_expr(init)?;
                self.emit(two("store", val.as_str(), base.as_str()).as_str());
            }
            self.scopes.bind(def.name.clone(), Symbol::Var(mangled));
            Ok(())
        } else {
            let dims = self.eval_dims(&def.dims)?;
            self.new_array(&def.name, mangled, &dims);
            match &def.init {
                Some(init) => self.gen_array_init(base.as_str(), &dims, init),
                None => Ok(()),
            }
        }
    }

    #[verifier::loop_isolation(false)]
    fn gen_decl(&mut self, decl: &Decl) -> (r: CompilerResult<()>)
        requires
            old(self).ready(),
        ensures
            match koopa_text::decl(old(self)@, decl.view()) {
                Ok(g) => r is Ok && final(self)@ == g && final(self)@.loops == old(self)@.loops
                    && final(self)@.scopes.inner.len() == old(self)@.scopes.inner.len(),
                Err(e) => r matches Err(x) && x@ == e,
            },
    {
        match decl {
            Decl::Const(defs) => {
                let ghost all = defs@.map_values(|d: ConstDef| d.view());
                let mut k: usize = 0;
                while k < defs.len()
                    invariant
                        k <= defs.len(),
                        self@.loops == old(self)@.loops,
                        self@.scopes.inner.len() == old(self)@.scopes.inner.len(),
                        koopa_text::const_defs(old(self)@, all, 0) == koopa_text::const_defs(
                            self@,
                            all,
                            k as int,
                        ),
                    decreases defs.len() - k,
                {
                    self.gen_const_def(&defs[k])?;
                    k = k + 1;
                }
            },
            Decl::Var(defs) => {
                let ghost all = defs@.map_values(|d: VarDef| d.view());
                let mut k: usize = 0;
                while k < defs.len()
                    invariant
                        k <= defs.len(),
                        self@.loops == old(self)@.loops,
                        self@.scopes.inner.len() == old(self)@.scopes.inner.len(),
                        koopa_text::var_defs(old(self)@, all, 0) == koopa_text::var_defs(
                            self@,
                            all,
                            k as int,
                        ),
                    decreases defs.len() - k,
                {
                    self.gen_var_def(&defs[k])?;
                    k = k + 1;
                }
            },
        }
        Ok(())
    }

    /// The address of an indexed array parameter, from the second index on.
    #[verifier::loop_isolation(false)]
    fn gen_param_target(&mut self, first: String, indices: &Vec<Expr>) -> (r: CompilerResult<String>)
        requires
            indices@.len() > 0,
        ensures
            match koopa_text::param_target(old(self)@, first@, ast::exprs(indices@), 1) {
                Ok((g, v)) => r matches Ok(x) && x@ == v && final(self)@ == g && final(self).kept(
                    *old(self),
                ),
                Err(e) => r matches Err(x) && x@ == e,
            },
    {
        let ghost start = first@;
        let mut ptr = first;
        let mut k: usize = 1;
        while k < indices.len()
            invariant
                1 <= k <= indices.len(),
                self.kept(*old(self)),
                koopa_text::param_target(old(self)@, start, ast::exprs(indices@), 1)
                    == koopa_text::param_target(self@, ptr@, ast::exprs(indices@), k as int),
            decreases indices.len() - k,
        {
            assert(ast::exprs(indices@)[k as int] == indices@[k as int].view());
            let idx_val = self.gen_expr(&indices[k])?;
            ptr = self.def(two("getelemptr", ptr.as_str(), idx_val.as_str()).as_str())?;
            k = k + 1;
        }
        Ok(ptr)
    }

    /// The address of an indexed array or pointer.
    #[verifier::loop_isolation(false)]
    fn gen_array_target(&mut self, base: String, pointer: bool, indices: &Vec<Expr>) -> (r:
        CompilerResult<String>)
        ensures
            match koopa_text::array_target(old(self)@, base@, pointer, ast::exprs(indices@), 0) {
                Ok((g, v)) => r matches Ok(x) && x@ == v && final(self)@ == g && final(self).kept(
                    *old(self),
                ),
                Err(e) => r matches Err(x) && x@ == e,
            },
    {
        let ghost start = base@;
        let mut ptr = base;
        let mut k: usize = 0;
        while k < indices.len()
            invariant
                k <= indices.len(),
                self.kept(*old(self)),
                koopa_text::array_target(old(self)@, start, pointer, ast::exprs(indices@), 0)
                    == koopa_text::array_target(
                    self@,
                    ptr@,
                    pointer,
                    ast::exprs(indices@),
                    k as int,
                ),
            decreases indices.len() - k,
        {
            assert(ast::exprs(indices@)[k as int] == indices@[k as int].view());
            let idx_val = self.gen_expr(&indices[k])?;
            ptr = self.index_step(pointer, ptr.as_str(), idx_val.as_str())?;
            k = k + 1;
        }
        Ok(ptr)
    }

    fn gen_array_assign(&mut self, name: &String, indices: &Vec<Expr>, expr: &Expr) -> (r:
        CompilerResult<()>)
        requires
            indices@.len() > 0,
        ensures
            match koopa_text::array_assign(
                old(self)@,
                name@,
                ast::exprs(indices@),
                expr.view(),
            ) {
                Ok(g) => r is Ok && final(self)@ == g && final(self).kept(*old(self)),
                Err(e) => r matches Err(x) && x@ == e,
            },
    {
        let sym = match self.scopes.lookup(name.as_str()) {
            Some(s) => s.clone(),
            None => return Err(quote("'", name.as_str(), "' is not an array")),
        };
        match sym {
            Symbol::NdParam { name: n, .. } => {
                let val = self.gen_expr(expr)?;
                assert(ast::exprs(indices@)[0] == indices@[0].view());
                let first = self.gen_expr(&indices[0])?;
                let row = self.def(
                    two("getptr", at_name(n.as_str()).as_str(), first.as_str()).as_str(),
                )?;
                let ptr = self.gen_param_target(row, indices)?;
                self.emit(two("store", val.as_str(), ptr.as_str()).as_str());
                Ok(())
            },
            Symbol::Array(n, _) => {
                let val = self.gen_expr(expr)?;
                let ptr = self.gen_array_target(at_name(n.as_str()), false, indices)?;
                self.emit(two("store", val.as_str(), ptr.as_str()).as_str());
                Ok(())
            },
            Symbol::PtrArray(n) => {
                let val = self.gen_expr(expr)?;
                let ptr = self.gen_array_target(at_name(n.as_str()), true, indices)?;
                self.emit(two("store", val.as_str(), ptr.as_str()).as_str());
                Ok(())
            },
            _ => Err(quote("'", name.as_str(), "' is not an array")),
        }
    }

    fn gen_assign(&mut self, name: &String, index: &Vec<Expr>, expr: &Expr) -> (r: CompilerResult<
        (),
    >)
        ensures
            match koopa_text::assign(old(self)@, name@, ast::exprs(index@), expr.view()) {
                Ok(g) => r is Ok && final(self)@ == g && final(self).kept(*old(self)),
                Err(e) => r matches Err(x) && x@ == e,
            },
    {
        if index.len() > 0 {
            return self.gen_array_assign(name, index, expr);
        }
        let dest = match self.scopes.lookup(name.as_str()) {
            Some(Symbol::Var(n)) => at_name(n.as_str()),
            Some(Symbol::Const(_)) => return Err(
                quote("cannot assign to constant '", name.as_str(), "'"),
            ),
            None => return Err(quote("undefined variable '", name.as_str(), "'")),
            _ => return Err(
                quote("cannot assign to array '", name.as_str(), "' without index"),
            ),
        };
        let val = self.gen_expr(expr)?;
        self.emit(two("store", val.as_str(), dest.as_str()).as_str());
        Ok(())
    }

    /// Jumps, where the current block has not ended yet.
    fn jump_on(&mut self, label: &str)
        ensures
            final(self)@ == koopa_text::jump_on(old(self)@, label@),
            final(self).kept(*old(self)),
    {
        if !self.block_terminated {
            self.end_with(jump(label).as_str());
        }
    }

    fn gen_stmt(&mut self, stmt: &Stmt) -> (r: CompilerResult<()>)
        requires
            old(self).ready(),
        ensures
            match koopa_text::stmt(old(self)@, stmt.view()) {
                Ok(g) => r is Ok && final(self)@ == g && final(self)@.loops == old(self)@.loops
                    && final(self)@.scopes.inner.len() == old(self)@.scopes.inner.len(),
                Err(e) => r matches Err(x) && x@ == e,
            },
        decreases stmt, 1int,
    {
        match stmt {
            Stmt::Return(None) => {
                self.end_with("ret");
                Ok(())
            },
            Stmt::Return(Some(e)) => {
                let val = self.gen_expr(e)?;
                self.end_with(cat2("ret ", val.as_str()).as_str());
                Ok(())
            },
            Stmt::Assign { name, index, expr } => self.gen_assign(name, index, expr),
            Stmt::Expr(expr) => {
                self.gen_expr(expr)?;
                Ok(())
            },
            Stmt::Block(block) => {
                self.scopes.enter();
                self.gen_block(block)?;
                self.scopes.exit();
                Ok(())
            },
            Stmt::If { .. } => self.gen_if(stmt),
            Stmt::While { .. } => self.gen_while(stmt),
            Stmt::Break => {
                let n = self.loop_stack.len();
                if n == 0 {
                    return Err(fail("'break' outside of loop"));
                }
                let code = jump(self.loop_stack[n - 1].1.as_str());
                self.end_with(code.as_str());
                Ok(())
            },
            Stmt::Continue => {
                let n = self.loop_stack.len();
                if n == 0 {
                    return Err(fail("'continue' outside of loop"));
                }
                let code = jump(self.loop_stack[n - 1].0.as_str());
                self.end_with(code.as_str());
                Ok(())
            },
            Stmt::Empty => Ok(()),
            Stmt::Asm(code) => {
                self.emit(asm_text(code.as_str()).as_str());
                Ok(())
            },
        }
    }

    fn gen_if(&mut self, stmt: &Stmt) -> (r: CompilerResult<()>)
        requires
            old(self).ready(),
            *stmt is If,
        ensures
            match koopa_text::stmt(old(self)@, stmt.view()) {
                Ok(g) => r is Ok && final(self)@ == g && final(self)@.loops == old(self)@.loops
                    && final(self)@.scopes.inner.len() == old(self)@.scopes.inner.len(),
                Err(e) => r matches Err(x) && x@ == e,
            },
        decreases stmt, 0int,
    {
        if let Stmt::If { cond, then_branch, else_branch } = stmt {
            let cond_val = self.gen_expr(cond)?;
            let (then_label, else_label, end_label) = self.labels()?;
            let code = if else_branch.is_some() {
                br(cond_val.as_str(), then_label.as_str(), else_label.as_str())
            } else {
                br(cond_val.as_str(), then_label.as_str(), end_label.as_str())
            };
            self.end_with(code.as_str());
            self.emit_label(then_label.as_str());
            self.gen_stmt(then_branch)?;
            let then_term = self.block_terminated;
            self.jump_on(end_label.as_str());
            match else_branch {
                None => {
                    self.emit_label(end_label.as_str());
                },
                Some(els) => {
                    self.emit_label(else_label.as_str());
                    self.gen_stmt(els)?;
                    let else_term = self.block_terminated;
                    if !then_term || !else_term {
                        self.jump_on(end_label.as_str());
                        self.emit_label(end_label.as_str());
                    }
                },
            }
        }
        Ok(())
    }

    fn gen_while(&mut self, stmt: &Stmt) -> (r: CompilerResult<()>)
        requires
            old(self).ready(),
            *stmt is While,
        ensures
            match koopa_text::stmt(old(self)@, stmt.view()) {
                Ok(g) => r is Ok && final(self)@ == g && final(self)@.loops == old(self)@.loops
                    && final(self)@.scopes.inner.len() == old(self)@.scopes.inner.len(),
                Err(e) => r matches Err(x) && x@ == e,
            },
        decreases stmt, 0int,
    {
        if let Stmt::While { cond, body } = stmt {
            let (entry_label, body_label, end_label) = self.labels()?;
            self.end_with(jump(entry_label.as_str()).as_str());
            self.emit_label(entry_label.as_str());
            let cond_val = self.gen_expr(cond)?;
            self.end_with(
                br(cond_val.as_str(), body_label.as_str(), end_label.as_str()).as_str(),
            );
            let ghost outside = self@.loops;
            self.loop_stack.push((entry_label.clone(), end_label.clone()));
            assert(self@.loops =~= outside.push((entry_label@, end_label@)));
            self.emit_label(body_label.as_str());
            self.gen_stmt(body)?;
            self.jump_on(entry_label.as_str());
            let ghost inside = self@.loops;
            self.loop_stack.pop();
            assert(self@.loops =~= inside.drop_last());
            assert(self@.loops =~= outside);
            self.emit_label(end_label.as_str());
        }
        Ok(())
    }

    #[verifier::loop_isolation(false)]
    fn gen_block(&mut self, block: &Block) -> (r: CompilerResult<()>)
        requires
            old(self).ready(),
        ensures
            match koopa_text::block(old(self)@, block.view(), 0) {
                Ok(g) => r is Ok && final(self)@ == g && final(self)@.loops == old(self)@.loops
                    && final(self)@.scopes.inner.len() == old(self)@.scopes.inner.len(),
                Err(e) => r matches Err(x) && x@ == e,
            },
        decreases block, 0int,
    {
        let mut k: usize = 0;
        while k < block.items.len() && !self.block_terminated
            invariant
                k <= block.items.len(),
                self@.loops == old(self)@.loops,
                self@.scopes.inner.len() == old(self)@.scopes.inner.len(),
                koopa_text::block(old(self)@, block.view(), 0) == koopa_text::block(
                    self@,
                    block.view(),
                    k as int,
                ),
            decreases block.items.len() - k,
        {
            assert(block.view()[k as int] == block.items@[k as int].view());
            match &block.items[k] {
                BlockItem::Stmt(s) => self.gen_stmt(s)?,
                BlockItem::Decl(d) => self.gen_decl(d)?,
            }
            k = k + 1;
        }
        Ok(())
    }
}

// ── Library declarations ─────────────────────────────────────────────────────

impl KoopaGen {
    #[verifier::loop_isolation(false)]
    fn find_calls_in_expr(&mut self, expr: &Expr)
        ensures
            final(self)@ == koopa_text::lib_expr(old(self)@, expr.view()),
            final(self).kept(*old(self)),
        decreases expr, 1int,
    {
        match expr {
            Expr::Call { name, args } => {
                self.emit_lib_decl(name.as_str());
                self.find_calls_in_exprs(args);
            },
            Expr::Binary { lhs, rhs, .. } => {
                self.find_calls_in_expr(lhs);
                self.find_calls_in_expr(rhs);
            },
            Expr::Unary { expr: inner, .. } => self.find_calls_in_expr(inner),
            Expr::Index { array, index } => {
                self.find_calls_in_expr(array);
                self.find_calls_in_expr(index);
            },
            Expr::InitList(items) => self.find_calls_in_exprs(items),
            _ => {},
        }
    }

    #[verifier::loop_isolation(false)]
    fn find_calls_in_exprs(&mut self, es: &Vec<Expr>)
        ensures
            final(self)@ == koopa_text::lib_exprs(old(self)@, ast::exprs(es@), 0),
            final(self).kept(*old(self)),
        decreases es, 0int,
    {
        let mut k: usize = 0;
        while k < es.len()
            invariant
                k <= es.len(),
                self.kept(*old(self)),
                koopa_text::lib_exprs(old(self)@, ast::exprs(es@), 0) == koopa_text::lib_exprs(
                    self@,
                    ast::exprs(es@),
                    k as int,
                ),
            decreases es.len() - k,
        {
            assert(ast::exprs(es@)[k as int] == es@[k as int].view());
            self.find_calls_in_expr(&es[k]);
            k = k + 1;
        }
    }

    fn find_calls_in_stmt(&mut self, stmt: &Stmt)
        ensures
            final(self)@ == koopa_text::lib_stmt(old(self)@, stmt.view()),
            final(self).kept(*old(self)),
        decreases stmt,
    {
        match stmt {
            Stmt::Return(Some(e)) => self.find_calls_in_expr(e),
            Stmt::Assign { expr, .. } => self.find_calls_in_expr(expr),
            Stmt::Expr(e) => self.find_calls_in_expr(e),
            Stmt::Block(block) => self.gen_block_for_lib_decls(block),
            Stmt::If { cond, then_branch, else_branch } => {
                self.find_calls_in_expr(cond);
                self.find_calls_in_stmt(then_branch);
                if let Some(els) = else_branch {
                    self.find_calls_in_stmt(els);
                }
            },
            Stmt::While { cond, body } => {
                self.find_calls_in_expr(cond);
                self.find_calls_in_stmt(body);
            },
            _ => {},
        }
    }

    #[verifier::loop_isolation(false)]
    fn gen_block_for_lib_decls(&mut self, block: &Block)
        ensures
            final(self)@ == koopa_text::lib_block(old(self)@, block.view(), 0),
            final(self).kept(*old(self)),
        decreases block,
    {
        let mut k: usize = 0;
        while k < block.items.len()
            invariant
                k <= block.items.len(),
                self.kept(*old(self)),
                koopa_text::lib_block(old(self)@, block.view(), 0) == koopa_text::lib_block(
                    self@,
                    block.view(),
                    k as int,
                ),
            decreases block.items.len() - k,
        {
            assert(block.view()[k as int] == block.items@[k as int].view());
            match &block.items[k] {
                BlockItem::Stmt(s) => self.find_calls_in_stmt(s),
                BlockItem::Decl(_) => {},
            }
            k = k + 1;
        }
    }
}

// ── Functions and programs ───────────────────────────────────────────────────

impl KoopaGen {
    fn gen_param(&mut self, param: &FuncParam) -> (r: CompilerResult<()>)
        requires
            old(self).ready(),
        ensures
            match koopa_text::param(old(self)@, param.view()) {
                Ok(g) => r is Ok && final(self)@ == g && final(self)@.loops == old(self)@.loops
                    && final(self)@.scopes.inner.len() == old(self)@.scopes.inner.len(),
                Err(e) => r matches Err(x) && x@ == e,
            },
    {
        let sig = self.local_name(param.name.as_str())?;
        self.param_sig_names.insert(param.name.clone(), sig.clone());
        if param.is_array {
            if param.array_dims.len() == 0 {
                self.scopes.bind(param.name.clone(), Symbol::PtrArray(sig));
            } else {
                let dims = self.eval_param_dims(&param.array_dims);
                self.scopes.bind(param.name.clone(), Symbol::NdParam { name: sig, dims });
            }
        } else {
            let name = self.mangle(param.name.as_str())?;
            let to = at_name(name.as_str());
            self.pend(to.as_str(), "i32");
            self.emit(two("store", at_name(sig.as_str()).as_str(), to.as_str()).as_str());
            self.scopes.bind(param.name.clone(), Symbol::Var(name));
        }
        Ok(())
    }

    #[verifier::loop_isolation(false)]
    fn gen_params(&mut self, params: &Vec<FuncParam>) -> (r: CompilerResult<()>)
        requires
            old(self).ready(),
        ensures
            match koopa_text::params(old(self)@, ast::params(params@), 0) {
                Ok(g) => r is Ok && final(self)@ == g && final(self)@.loops == old(self)@.loops
                    && final(self)@.scopes.inner.len() == old(self)@.scopes.inner.len(),
                Err(e) => r matches Err(x) && x@ == e,
            },
    {
        let mut k: usize = 0;
        while k < params.len()
            invariant
                k <= params.len(),
                self@.loops == old(self)@.loops,
                self@.scopes.inner.len() == old(self)@.scopes.inner.len(),
                koopa_text::params(old(self)@, ast::params(params@), 0) == koopa_text::params(
                    self@,
                    ast::params(params@),
                    k as int,
                ),
            decreases params.len() - k,
        {
            self.gen_param(&params[k])?;
            k = k + 1;
        }
        Ok(())
    }

    /// A parameter in the signature.
    fn param_text(&self, param: &FuncParam) -> (r: String)
        ensures
            r@ == koopa_text::param_text(self@, param.view()),
    {
        let name = match self.param_sig_names.get(param.name.as_str()) {
            Some(s) => at_name(s.as_str()),
            None => at_name(param.name.as_str()),
        };
        let ty = if param.is_array {
            let dims = self.eval_param_dims(&param.array_dims);
            cat2(": *", array_type_str(dims.as_slice()).as_str())
        } else {
            ": i32".to_owned()
        };
        cat2(name.as_str(), ty.as_str())
    }

    #[verifier::loop_isolation(false)]
    fn params_text(&self, params: &Vec<FuncParam>) -> (r: String)
        ensures
            r@ == text::join(
                ast::params(params@).map_values(
                    |p: ast::FuncParamV| koopa_text::param_text(self@, p),
                ),
                ", "@,
            ),
    {
        let ghost all = ast::params(params@).map_values(
            |p: ast::FuncParamV| koopa_text::param_text(self@, p),
        );
        let mut out: Vec<String> = Vec::new();
        let mut i: usize = 0;
        assert(text::texts(out@) =~= all.take(0));
        while i < params.len()
            invariant
                i <= params.len(),
                text::texts(out@) == all.take(i as int),
            decreases params.len() - i,
        {
            out.push(self.param_text(&params[i]));
            i = i + 1;
            assert(all.take(i as int) =~= all.take(i - 1).push(all[i - 1]));
        }
        assert(all.take(i as int) =~= all);
        join_strings(&out, ", ")
    }

    fn enter_func(&mut self)
        ensures
            final(self)@ == koopa_text::enter(old(self)@),
            final(self).ready(),
    {
        self.name_count = NameMap::new();
        self.scopes.restart();
        self.body = String::new();
        self.tmp = 0;
        self.label = 0;
        self.sc_count = 0;
        self.loop_stack = Vec::new();
        self.block_terminated = false;
        assert(self@.loops =~= Seq::empty());
    }

    /// The text of a function whose body has been generated.
    fn func_text(&self, func: &FuncDef) -> (r: String)
        ensures
            r@ == koopa_text::func_text(self@, func.view()),
    {
        let head = cat7(
            "fun @",
            func.name.as_str(),
            "(",
            self.params_text(&func.params).as_str(),
            ")",
            ret_text(func.ret_type),
            " {\n%entry:\n",
        );
        cat5(
            self.global_decls.as_str(),
            self.decls.as_str(),
            head.as_str(),
            cat2(self.allocs.as_str(), self.body.as_str()).as_str(),
            "}\n",
        )
    }

    fn gen_func(&mut self, func: &FuncDef) -> (r: CompilerResult<String>)
        ensures
            match koopa_text::func(old(self)@, func.view()) {
                Ok((g, t)) => r matches Ok(x) && x@ == t && final(self)@ == g,
                Err(e) => r matches Err(x) && x@ == e,
            },
    {
        self.enter_func();
        self.gen_block_for_lib_decls(&func.body);
        self.gen_params(&func.params)?;
        self.gen_block(&func.body)?;
        if matches!(func.ret_type, Type::Void) && !self.block_terminated {
            self.end_with("ret");
        }
        let out = self.func_text(func);
        self.allocs = String::new();
        self.decls = String::new();
        self.global_decls = String::new();
        Ok(out)
    }

    /// A new global variable, bound to a name.
    fn new_global(&mut self, name: &String, ty: &str, init: &str, sym: Symbol)
        ensures
            final(self)@ == koopa_text::new_global(old(self)@, name@, ty@, init@, sym@),
    {
        self.global_decls.append(
            cat7("global @", name.as_str(), " = alloc ", ty, ", ", init, "\n").as_str(),
        );
        self.scopes.bind_global(name.clone(), sym);
    }

    fn gen_global_array(&mut self, name: &String, dims: &Vec<i32>, init: &str)
        ensures
            final(self)@ == koopa_text::global_array(old(self)@, name@, dims@, init@),
    {
        let ty = array_type_str(dims.as_slice());
        self.new_global(name, ty.as_str(), init, Symbol::Array(name.clone(), dims.len()));
    }

    fn gen_global_const(&mut self, def: &ConstDef) -> (r: CompilerResult<()>)
        ensures
            match koopa_text::global_const(old(self)@, def.view()) {
                Ok(g) => r is Ok && final(self)@ == g,
                Err(e) => r matches Err(x) && x@ == e,
            },
    {
        let is_list = matches!(def.init, Expr::InitList(_));
        if def.dims.len() == 0 && !is_list {
            let v = self.eval_const(&def.init)?;
            self.scopes.bind_global(def.name.clone(), Symbol::Const(v));
            return Ok(());
        }
        let dims = self.eval_dims(&def.dims)?;
        let init = self.global_init_string(&dims, &def.init)?;
        self.gen_global_array(&def.name, &dims, init.as_str());
        Ok(())
    }

    fn gen_global_var(&mut self, def: &VarDef) -> (r: CompilerResult<()>)
        ensures
            match koopa_text::global_var(old(self)@, def.view()) {
                Ok(g) => r is Ok && final(self)@ == g,
                Err(e) => r matches Err(x) && x@ == e,
            },
    {
        if def.dims.len() == 0 {
            let v = match &def.init {
                Some(init) => self.eval_const(init)?,
                None => 0,
            };
            self.new_global(
                &def.name,
                "i32",
                dec_i32(v).as_str(),
                Symbol::Var(def.name.clone()),
            );
            return Ok(());
        }
        let dims = self.eval_dims(&def.dims)?;
        let init = match &def.init {
            Some(init) => self.global_init_string(&dims, init)?,
            None => "zeroinit".to_owned(),
        };
        self.gen_global_array(&def.name, &dims, init.as_str());
        Ok(())
    }

    #[verifier::loop_isolation(false)]
    fn gen_global_decl(&mut self, decl: &Decl) -> (r: CompilerResult<()>)
        ensures
            match koopa_text::global_decl(old(self)@, decl.view(), 0) {
                Ok(g) => r is Ok && final(self)@ == g,
                Err(e) => r matches Err(x) && x@ == e,
            },
    {
        match decl {
            Decl::Const(defs) => {
                let mut k: usize = 0;
                while k < defs.len()
                    invariant
                        k <= defs.len(),
                        koopa_text::global_decl(old(self)@, decl.view(), 0)
                            == koopa_text::global_decl(self@, decl.view(), k as int),
                    decreases defs.len() - k,
                {
                    self.gen_global_const(&defs[k])?;
                    k = k + 1;
                }
            },
            Decl::Var(defs) => {
                let mut k: usize = 0;
                while k < defs.len()
                    invariant
                        k <= defs.len(),
                        koopa_text::global_decl(old(self)@, decl.view(), 0)
                            == koopa_text::global_decl(self@, decl.view(), k as int),
                    decreases defs.len() - k,
                {
                    self.gen_global_var(&defs[k])?;
                    k = k + 1;
                }
            },
        }
        Ok(())
    }

    /// Collects the global variables and the types of functions.
    #[verifier::loop_isolation(false)]
    fn gen_signatures(&mut self, program: &CompUnit) -> (r: CompilerResult<()>)
        ensures
            match koopa_text::signatures(old(self)@, program.view(), 0) {
                Ok(g) => r is Ok && final(self)@ == g,
                Err(e) => r matches Err(x) && x@ == e,
            },
    {
        let mut k: usize = 0;
        while k < program.items.len()
            invariant
                k <= program.items.len(),
                koopa_text::signatures(old(self)@, program.view(), 0) == koopa_text::signatures(
                    self@,
                    program.view(),
                    k as int,
                ),
            decreases program.items.len() - k,
        {
            match &program.items[k] {
                GlobalItem::FuncDef(f) => {
                    self.func_ret_types.insert(f.name.clone(), f.ret_type);
                },
                GlobalItem::FuncDecl(f) => {
                    self.func_ret_types.insert(f.name.clone(), f.ret_type);
                },
                GlobalItem::Decl(d) => self.gen_global_decl(d)?,
            }
            k = k + 1;
        }
        Ok(())
    }

    /// Writes a program as Koopa IR.
    #[verifier::loop_isolation(false)]
    pub fn gen_program(self, program: &CompUnit) -> (r: CompilerResult<String>)
        requires
            self@ == koopa_text::start(),
        ensures
            match koopa_text::program(program.view()) {
                Ok(s) => r matches Ok(x) && x@ == s,
                Err(e) => r matches Err(x) && x@ == e,
            },
    {
        let mut gen = self;
        gen.gen_signatures(program)?;
        let ghost start = gen@;
        let mut out = String::new();
        let mut k: usize = 0;
        while k < program.items.len()
            invariant
                k <= program.items.len(),
                koopa_text::functions(start, program.view(), 0, Seq::empty())
                    == koopa_text::functions(gen@, program.view(), k as int, out@),
            decreases program.items.len() - k,
        {
            if let GlobalItem::FuncDef(f) = &program.items[k] {
                let t = gen.gen_func(f)?;
                out.append(t.as_str());
            }
            k = k + 1;
        }
        out.append(gen.global_decls.as_str());
        Ok(out)
    }
}

} // verus!

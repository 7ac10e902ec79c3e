//! What compiling keeps of a source text: its tokens are read as its phrases, and its global
//! variables come to the output with what they start with.

use crate::ast::{ConstDefV, DeclV, ExprV, GlobalItemV, VarDefV};
use crate::codegen;
use crate::error::ErrorView;
use crate::global_values::{
    constant_arrays_start, elements, given, has_room, is_global, keeps_globals, known_before,
    start_value, starts_with_list, starts_with_zeros, variables_start,
};
use crate::grammar;
use crate::ir::{BlockV, FuncV, InstV, ProgV};
use crate::lexer::{self, TokenKind, TokenV};
use crate::opt;
use crate::opt::inline::{BodyV, StockV};
use crate::opt::IrProgramPass;
use crate::phrases;
use crate::spelling;
use crate::text;
use crate::translate;
use vstd::prelude::*;

verus! {

// ── The front end ────────────────────────────────────────────────────────────

/// A source text that compiles is its tokens, each as it is spelled, and the tokens are the program
/// that is compiled, each phrase as it is written.
pub proof fn compiled_source_is_read(source: Seq<u8>, mode: crate::OutputMode) -> (r: (
    Seq<TokenV>,
    Seq<int>,
    Seq<GlobalItemV>,
    int,
))
    requires
        source.len() <= usize::MAX,
    ensures
        crate::output_of(source, mode) is Ok ==> {
            let (ts, ends, items, end) = r;
            &&& spelling::consists_of(source, ts, ends)
            &&& phrases::writes_program(ts, 0, end, items)
            &&& phrases::here(ts, end, TokenKind::Eof)
            &&& codegen::generated(items, mode) == crate::output_of(source, mode)
        },
{
    let ends = spelling::source_is_its_tokens(source);
    match lexer::lex(source, 0) {
        Ok(ts) => {
            lexer::tokens_are_ordered(source, 0);
            let end = phrases::programs_are_written(ts);
            match grammar::program(Seq::empty(), ts, 0) {
                Ok(items) => (ts, ends, items, end),
                Err(_) => (ts, ends, Seq::empty(), end),
            }
        },
        Err(_) => (Seq::empty(), ends, Seq::empty(), 0),
    }
}

// ── Names ────────────────────────────────────────────────────────────────────

/// Names that only have been added to.
spec fn grown(a: Seq<Seq<char>>, b: Seq<Seq<char>>) -> bool {
    a.len() <= b.len() && forall|n: int| 0 <= n < a.len() ==> #[trigger] b[n] == a[n]
}

proof fn grown_more(a: Seq<Seq<char>>, b: Seq<Seq<char>>, c: Seq<Seq<char>>)
    requires
        grown(a, b),
        grown(b, c),
    ensures
        grown(a, c),
{
    assert forall|n: int| 0 <= n < a.len() implies #[trigger] c[n] == a[n] by {
        assert(b[n] == a[n]);
    }
}

proof fn body_grows(s: BodyV, instrs: Seq<InstV>, dest: Option<usize>)
    ensures
        grown(s.stock.names, opt::inline::inlined_body(s, instrs, dest).stock.names),
    decreases instrs.len(),
{
    if instrs.len() > 0 {
        body_grows(s, instrs.drop_last(), dest);
    }
}

proof fn insts_grow(p: ProgV, instrs: Seq<InstV>, limit: usize, z: StockV)
    ensures
        grown(z.names, opt::inline::expanded_insts(p, instrs, limit, z).1.names),
    decreases instrs.len(),
{
    if instrs.len() > 0 {
        insts_grow(p, instrs.drop_last(), limit, z);
        let before = opt::inline::expanded_insts(p, instrs.drop_last(), limit, z);
        let i = instrs.last();
        if let Some(f) = opt::inline::callee(p, i, limit, before.1) {
            if let InstV::Call { dest, args, .. } = i {
                let start = opt::inline::body_start(f.params, args, before.1);
                body_grows(start, f.blocks[0].instrs, dest);
            }
        }
        grown_more(
            z.names,
            before.1.names,
            opt::inline::expanded_inst(p, i, limit, before.1).1.names,
        );
    }
}

proof fn blocks_grow(p: ProgV, blocks: Seq<BlockV>, limit: usize, z: StockV)
    ensures
        grown(z.names, opt::inline::expanded_blocks(p, blocks, limit, z).1.names),
    decreases blocks.len(),
{
    if blocks.len() > 0 {
        blocks_grow(p, blocks.drop_last(), limit, z);
        let before = opt::inline::expanded_blocks(p, blocks.drop_last(), limit, z);
        insts_grow(p, blocks.last().instrs, limit, before.1);
        grown_more(
            z.names,
            before.1.names,
            opt::inline::expanded_insts(p, blocks.last().instrs, limit, before.1).1.names,
        );
    }
}

proof fn funcs_grow(p: ProgV, funcs: Seq<FuncV>, limit: usize, z: StockV)
    ensures
        grown(z.names, opt::inline::expanded_funcs(p, funcs, limit, z).1.names),
    decreases funcs.len(),
{
    if funcs.len() > 0 {
        funcs_grow(p, funcs.drop_last(), limit, z);
        let before = opt::inline::expanded_funcs(p, funcs.drop_last(), limit, z);
        let f = funcs.last();
        let base = crate::promotion::fresh_base(f.blocks);
        blocks_grow(p, f.blocks, limit, StockV { local: base, ..before.1 });
        grown_more(
            z.names,
            before.1.names,
            opt::inline::expanded_func(p, f, limit, before.1).1.names,
        );
    }
}

proof fn rounds_keep(p: ProgV, n: nat)
    ensures
        opt::rounds(
            codegen::func_passes(),
            Seq::<opt::inline::Inline>::empty(),
            p,
            n,
        ).globals == p.globals,
        opt::rounds(
            codegen::func_passes(),
            Seq::<opt::inline::Inline>::empty(),
            p,
            n,
        ).global_names == p.global_names,
    decreases n,
{
    if n > 0 {
        let r = opt::round(codegen::func_passes(), Seq::<opt::inline::Inline>::empty(), p);
        rounds_keep(r.0, (n - 1) as nat);
    }
}

/// Optimizing a program keeps its global variables, what they start with, and their names.
pub proof fn compiling_keeps_globals(items: Seq<GlobalItemV>)
    ensures
        codegen::compiled(items) matches Ok(q) ==> translate::program(items) is Ok && keeps_globals(
            translate::program(items)->Ok_0,
            q,
        ),
{
    if let Ok(q) = codegen::compiled(items) {
        let p = translate::program(items)->Ok_0;
        let e = codegen::inlining().applied(p);
        funcs_grow(p, p.funcs, codegen::inlining().max_instrs, opt::inline::stock(p));
        let r = ProgV { funcs: codegen::promoted_funcs(e.funcs), ..e };
        rounds_keep(r, opt::MAX_ROUNDS as nat);
        assert(q.globals == p.globals);
        assert(grown(p.global_names, q.global_names));
    }
}

// ── Global variables ─────────────────────────────────────────────────────────

proof fn list_is_kept(
    g: translate::GenV,
    p: ProgV,
    q: ProgV,
    n: int,
    name: Seq<char>,
    dims: Seq<i32>,
    list: Seq<ExprV>,
)
    requires
        keeps_globals(p, q),
        is_global(p, n, name, dims),
    ensures
        is_global(q, n, name, dims),
        starts_with_list(g, p, n, dims, list) ==> starts_with_list(g, q, n, dims, list),
        starts_with_zeros(p, n, dims) ==> starts_with_zeros(q, n, dims),
        forall|k: int| #[trigger] start_value(q, n, k) == start_value(p, n, k),
{
    assert(q.globals[n] == p.globals[n]);
    assert(q.global_names[p.globals[n].name as int] == p.global_names[p.globals[n].name as int]);
    assert forall|k: int| #[trigger] start_value(q, n, k) == start_value(p, n, k) by {}
    if starts_with_list(g, p, n, dims, list) {
        assert forall|k: int| 0 <= k < elements(dims) implies match given(
            dims,
            list,
            list.len() as int,
            k,
        ) {
            None => #[trigger] start_value(q, n, k) == 0,
            Some(e) => translate::const_value(g, e) matches Ok(v) ==> start_value(q, n, k) == v,
        } by {
            assert(start_value(q, n, k) == start_value(p, n, k));
        }
    }
    if starts_with_zeros(p, n, dims) {
        assert forall|k: int| 0 <= k < elements(dims) implies #[trigger] start_value(q, n, k)
            == 0 by {
            assert(start_value(p, n, k) == 0);
        }
    }
}

/// A constant array of a program has a global variable of its name and shape in what is written
/// out, and each of its elements starts with the constant written for it, or with zero where none
/// is.
pub proof fn constant_arrays_are_compiled(
    items: Seq<GlobalItemV>,
    i: int,
    defs: Seq<ConstDefV>,
    j: int,
    dims: Seq<i32>,
    list: Seq<ExprV>,
) -> (n: int)
    requires
        codegen::compiled(items) is Ok,
        0 <= i < items.len(),
        items[i] == GlobalItemV::Decl(DeclV::Const(defs)),
        0 <= j < defs.len(),
        !text::starts_with(defs[j].name, '@'),
        defs[j].init == ExprV::InitList(list),
        translate::const_values(known_before(items, i, j), defs[j].dims) == Ok::<
            Seq<i32>,
            ErrorView,
        >(dims),
        dims.len() > 0,
        has_room(dims, list),
        (translate::program(items)->Ok_0).global_names.len() < usize::MAX,
    ensures
        is_global(codegen::compiled(items)->Ok_0, n, defs[j].name, dims),
        starts_with_list(
            known_before(items, i, j),
            codegen::compiled(items)->Ok_0,
            n,
            dims,
            list,
        ),
{
    compiling_keeps_globals(items);
    let n = constant_arrays_start(items, i, defs, j, dims, list);
    list_is_kept(
        known_before(items, i, j),
        translate::program(items)->Ok_0,
        codegen::compiled(items)->Ok_0,
        n,
        defs[j].name,
        dims,
        list,
    );
    n
}

/// A variable of a program has a global variable of its name and shape in what is written out,
/// which starts with what is written for it, or with zeros.
pub proof fn variables_are_compiled(
    items: Seq<GlobalItemV>,
    i: int,
    defs: Seq<VarDefV>,
    j: int,
    dims: Seq<i32>,
) -> (n: int)
    requires
        codegen::compiled(items) is Ok,
        0 <= i < items.len(),
        items[i] == GlobalItemV::Decl(DeclV::Var(defs)),
        0 <= j < defs.len(),
        !text::starts_with(defs[j].name, '@'),
        translate::const_values(known_before(items, i, j), defs[j].dims) == Ok::<
            Seq<i32>,
            ErrorView,
        >(dims),
        (translate::program(items)->Ok_0).global_names.len() < usize::MAX,
    ensures
        ({
            let q = codegen::compiled(items)->Ok_0;
            let g = known_before(items, i, j);
            &&& is_global(q, n, defs[j].name, dims)
            &&& match defs[j].init {
                None => starts_with_zeros(q, n, dims),
                Some(ExprV::InitList(list)) => dims.len() > 0 && has_room(dims, list)
                    ==> starts_with_list(g, q, n, dims, list),
                Some(e) => dims.len() == 0 ==> (translate::const_value(g, e) matches Ok(v)
                    && start_value(q, n, 0) == v),
            }
        }),
{
    compiling_keeps_globals(items);
    let p = translate::program(items)->Ok_0;
    let q = codegen::compiled(items)->Ok_0;
    let g = known_before(items, i, j);
    let n = variables_start(items, i, defs, j, dims);
    match defs[j].init {
        Some(ExprV::InitList(list)) => list_is_kept(g, p, q, n, defs[j].name, dims, list),
        _ => {
            list_is_kept(g, p, q, n, defs[j].name, dims, Seq::empty());
            assert(start_value(q, n, 0) == start_value(p, n, 0));
        },
    }
    n
}

} // verus!

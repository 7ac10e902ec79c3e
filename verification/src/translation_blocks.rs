//! What a syntax tree is translated to is made of blocks that end in one branch or return each.

use crate::ast::{
    BinaryOp, BlockItemV, ConstDefV, DeclV, ExprV, FuncDefV, FuncParamV, GlobalItemV, StmtV, VarDefV,
};
use crate::error::ErrorView;
use crate::ir::{self, BlockV, FuncV, InstV, IrArithOp, IrCmpOp, IrOperand, IrType, ProgV};
use crate::ir_builder;
use crate::links;
use crate::translate::{self, GenV, SymV};
use vstd::prelude::*;

verus! {

/// A block ends in a branch or a return, and has no other.
pub open spec fn block_ends(b: BlockV) -> bool {
    &&& b.instrs.len() > 0
    &&& forall|i: int|
        0 <= i < b.instrs.len() ==> (ir::terminator(#[trigger] b.instrs[i]) <==> i
            == b.instrs.len() - 1)
}

/// All blocks of a function end in a branch or a return, no two have one label, and there is an
/// entry block.
pub open spec fn func_ends(f: FuncV) -> bool {
    &&& f.blocks.len() > 0
    &&& forall|b: int| 0 <= b < f.blocks.len() ==> block_ends(#[trigger] f.blocks[b])
    &&& forall|a: int, b: int|
        0 <= a < b < f.blocks.len() ==> (#[trigger] f.blocks[a]).label != (
        #[trigger] f.blocks[b]).label
}

/// No block has a phi.
pub open spec fn no_phis(blocks: Seq<BlockV>) -> bool {
    forall|b: int, i: int|
        0 <= b < blocks.len() && 0 <= i < blocks[b].instrs.len()
            ==> !(#[trigger] blocks[b].instrs[i] is Phi)
}

/// All functions are made of such blocks.
pub open spec fn funcs_end(funcs: Seq<FuncV>) -> bool {
    forall|i: int| 0 <= i < funcs.len() ==> func_ends(#[trigger] funcs[i])
}

// ── The state of a translation ───────────────────────────────────────────────

/// The current block is the last one; those before it have ended, and it has where the state says
/// so.
#[verifier::opaque]
pub open spec fn tidy(g: GenV) -> bool {
    let blocks = g.b.blocks;
    let n = blocks.len() - 1;
    &&& n >= 0
    &&& g.b.cur_block == blocks[n].label
    &&& forall|b: int| 0 <= b < n ==> block_ends(#[trigger] blocks[b])
    &&& if g.b.terminated {
        block_ends(blocks[n])
    } else {
        forall|i: int|
            0 <= i < blocks[n].instrs.len() ==> !ir::terminator(#[trigger] blocks[n].instrs[i])
    }
    &&& forall|a: int, b: int|
        0 <= a < b < blocks.len() ==> (#[trigger] blocks[a]).label != (#[trigger] blocks[b]).label
    &&& forall|b: int| 0 <= b < blocks.len() ==> (#[trigger] blocks[b]).label < g.b.block_counter
    &&& no_phis(blocks)
}

/// Whether a block has been started for a label.
#[verifier::opaque]
pub open spec fn started(g: GenV, t: usize) -> bool {
    links::has_label(g.b.blocks, t)
}

/// A state where instructions can go on.
pub open spec fn open_at(g: GenV) -> bool {
    tidy(g) && !g.b.terminated
}

/// A later state: only labels that are new there have been started since.
pub open spec fn later(g: GenV, h: GenV) -> bool {
    &&& g.b.block_counter <= h.b.block_counter
    &&& h.program.funcs == g.program.funcs
    &&& forall|t: usize| #[trigger] started(h, t) ==> started(g, t) || t >= g.b.block_counter
}

/// The global variables of the program and their names are the same.
pub open spec fn same_globals(g: GenV, h: GenV) -> bool {
    h.program.globals == g.program.globals && h.program.global_names == g.program.global_names
}

/// A step leads to a later state where instructions can go on.
pub open spec fn goes_on<T>(g: GenV, r: translate::Step<T>) -> bool {
    match r {
        Ok((h, _)) => open_at(h) && later(g, h) && same_globals(g, h),
        Err(_) => true,
    }
}

/// A step leads to a later state where instructions can go on.
pub open spec fn stays_open(g: GenV, r: Result<GenV, ErrorView>) -> bool {
    match r {
        Ok(h) => open_at(h) && later(g, h) && same_globals(g, h),
        Err(_) => true,
    }
}

/// A step leads to a later state.
pub open spec fn leads(g: GenV, r: Result<GenV, ErrorView>) -> bool {
    match r {
        Ok(h) => tidy(h) && later(g, h) && same_globals(g, h),
        Err(_) => true,
    }
}

// ── Single steps ─────────────────────────────────────────────────────────────

/// A state with the same blocks.
pub(crate) proof fn same_blocks(g: GenV, h: GenV)
    requires
        tidy(g),
        h.b.blocks == g.b.blocks,
        h.b.cur_block == g.b.cur_block,
        h.b.terminated == g.b.terminated,
        h.b.block_counter >= g.b.block_counter,
        h.program.funcs == g.program.funcs,
    ensures
        tidy(h),
        later(g, h),
        forall|t: usize| started(h, t) == started(g, t),
{
    reveal(tidy);
    reveal(started);
}

/// The current block is found at the end.
pub(crate) proof fn current_is_last(g: GenV)
    requires
        tidy(g),
    ensures
        ir_builder::block_position(g.b.blocks, g.b.cur_block) == Some(g.b.blocks.len() - 1),
{
    reveal(tidy);
    ir_builder::block_position_is_first(g.b.blocks, g.b.cur_block);
    let n = g.b.blocks.len() - 1;
    assert(g.b.blocks[n].label == g.b.cur_block);
}

pub(crate) proof fn emit_tidy(g: GenV, i: InstV)
    requires
        open_at(g),
        !(i is Phi),
    ensures
        tidy(g.emit(i)),
        later(g, g.emit(i)),
        g.emit(i).b.terminated == ir::terminator(i),
        g.emit(i).b.block_counter == g.b.block_counter,
{
    current_is_last(g);
    reveal(tidy);
    let h = g.emit(i);
    let n = g.b.blocks.len() - 1;
    assert(h.b.blocks =~= g.b.blocks.update(n, ir_builder::block_push(g.b.blocks[n], i)));
    assert forall|k: int| 0 <= k < h.b.blocks.len() implies (#[trigger] h.b.blocks[k]).label
        == g.b.blocks[k].label by {}
    assert forall|t: usize| #[trigger] started(h, t) implies started(g, t) by {
        reveal(started);
        let k = choose|k: int| 0 <= k < h.b.blocks.len() && (#[trigger] h.b.blocks[k]).label == t;
        assert(g.b.blocks[k].label == t);
    }
    assert forall|b: int| 0 <= b < n implies block_ends(#[trigger] h.b.blocks[b]) by {
        assert(h.b.blocks[b] == g.b.blocks[b]);
    }
    let instrs = h.b.blocks[n].instrs;
    assert(instrs == g.b.blocks[n].instrs.push(i));
    assert forall|k: int| 0 <= k < instrs.len() - 1 implies !ir::terminator(
        #[trigger] instrs[k],
    ) by {
        assert(instrs[k] == g.b.blocks[n].instrs[k]);
    }
    assert(no_phis(h.b.blocks)) by {
        assert forall|b: int, k: int|
            0 <= b < h.b.blocks.len() && 0 <= k < h.b.blocks[b].instrs.len() implies !(
        #[trigger] h.b.blocks[b].instrs[k] is Phi) by {
            if b < n || k < instrs.len() - 1 {
                assert(h.b.blocks[b].instrs[k] == g.b.blocks[b].instrs[k]);
            }
        }
    }
}

pub(crate) proof fn start_tidy(g: GenV, label: usize)
    requires
        tidy(g),
        g.b.terminated,
        label < g.b.block_counter,
        !started(g, label),
    ensures
        open_at(g.start(label)),
        g.start(label).b.block_counter == g.b.block_counter,
        g.start(label).program.funcs == g.program.funcs,
        g.start(label).program.globals == g.program.globals,
        g.start(label).program.global_names == g.program.global_names,
        forall|t: usize| #[trigger]
            started(g.start(label), t) ==> started(g, t) || t == label,
{
    reveal(tidy);
    let h = g.start(label);
    let n = g.b.blocks.len() as int;
    assert(h.b.blocks[n].label == label);
    assert forall|k: int| 0 <= k < n implies (#[trigger] h.b.blocks[k]) == g.b.blocks[k] by {}
    assert forall|t: usize| #[trigger] started(h, t) implies started(g, t) || t == label by {
        reveal(started);
        let k = choose|k: int| 0 <= k < h.b.blocks.len() && (#[trigger] h.b.blocks[k]).label == t;
        if k < n {
            assert(g.b.blocks[k].label == t);
        }
    }
    assert forall|a: int, b: int| 0 <= a < b < h.b.blocks.len() implies (
    #[trigger] h.b.blocks[a]).label != (#[trigger] h.b.blocks[b]).label by {
        if b == n {
            if g.b.blocks[a].label == label {
                reveal(started);
                assert(started(g, label));
            }
        }
    }
}

pub(crate) proof fn def_tidy(g: GenV, i: InstV)
    requires
        open_at(g),
        !ir::terminator(i),
        !(i is Phi),
    ensures
        goes_on(g, g.def(i)),
{
    if g.b.tmp_left() {
        let h = GenV { b: g.b.with_tmp(), ..g };
        same_blocks(g, h);
        emit_tidy(h, ir::with_dest(i, g.b.local_counter));
    }
}

proof fn label_tidy(g: GenV)
    requires
        open_at(g),
    ensures
        match g.label() {
            Ok((h, l)) => open_at(h) && later(g, h) && g.b.block_counter <= l
                < h.b.block_counter && h.b.blocks == g.b.blocks,
            Err(_) => true,
        },
{
    if g.b.block_counter < usize::MAX {
        same_blocks(g, GenV { b: g.b.with_label(), ..g });
    }
}

/// New labels have not been started.
pub(crate) proof fn labels_tidy(g: GenV)
    requires
        open_at(g),
    ensures
        match g.labels() {
            Ok((h, (a, b, c))) => open_at(h) && later(g, h) && a != b && b != c && a != c && a
                < h.b.block_counter && b < h.b.block_counter && c < h.b.block_counter && a
                >= g.b.block_counter && b >= g.b.block_counter && c >= g.b.block_counter
                && !started(h, a) && !started(h, b) && !started(h, c),
            Err(_) => true,
        },
{
    label_tidy(g);
    if let Ok((g1, a)) = g.label() {
        label_tidy(g1);
        if let Ok((g2, b)) = g1.label() {
            label_tidy(g2);
            reveal(tidy);
            assert forall|t: usize| t >= g.b.block_counter implies !#[trigger] started(g, t) by {
                reveal(started);
                if started(g, t) {
                    let k = choose|k: int|
                        0 <= k < g.b.blocks.len() && (#[trigger] g.b.blocks[k]).label == t;
                    assert(g.b.blocks[k].label < g.b.block_counter);
                }
            }
            if let Ok((g3, _)) = g2.label() {
                assert forall|t: usize| #[trigger] started(g3, t) implies started(g, t) by {
                    reveal(started);
                }
            }
        }
    }
}

pub(crate) proof fn short_circuit_tidy(g: GenV)
    requires
        open_at(g),
    ensures
        goes_on(g, g.short_circuit()),
{
    if g.b.sc_left() {
        let h = GenV { b: g.b.with_sc(), ..g }.pend(g.b.global_counter, IrType::I32);
        same_blocks(g, h);
    }
}

pub(crate) proof fn intern_tidy(g: GenV, name: Seq<char>)
    requires
        open_at(g),
    ensures
        goes_on(g, g.intern(name)),
{
    if g.b.global_counter < usize::MAX {
        same_blocks(g, GenV { b: g.b.with_global(name), ..g });
    }
}

pub(crate) proof fn local_name_tidy(g: GenV, name: Seq<char>)
    requires
        open_at(g),
    ensures
        goes_on(g, g.local_name(name)),
        goes_on(g, g.mangle(name)),
{
    if let Ok((g1, _)) = g.mangle(name) {
        same_blocks(g, g1);
        if let Ok((g2, _)) = g1.mangle(name) {
            same_blocks(g, g2);
        }
    }
}

// ── Expressions ──────────────────────────────────────────────────────────────

pub(crate) proof fn element_tidy(g: GenV, p: IrOperand, whole: bool, size: i32)
    requires
        open_at(g),
    ensures
        goes_on(g, translate::element(g, p, whole, size)),
{
    def_tidy(g, InstV::Load { dest: 0, src: p });
    def_tidy(
        g,
        InstV::GetElemPtr { dest: 0, ptr: p, index: IrOperand::Int(0), elem_size: size },
    );
}

pub(crate) proof fn array_step_tidy(g: GenV, base: IrOperand, index: IrOperand, size: i32)
    requires
        open_at(g),
    ensures
        goes_on(g, translate::array_step(g, base, index, size)),
{
    let i = InstV::GetElemPtr { dest: 0, ptr: base, index: IrOperand::Int(0), elem_size: size };
    def_tidy(g, i);
    if let Ok((g1, p)) = g.def(i) {
        def_tidy(g1, InstV::GetPtr { dest: 0, ptr: p, index, elem_size: size });
    }
}

pub(crate) proof fn index_step_tidy(g: GenV, pointer: bool, base: IrOperand, index: IrOperand, size: i32)
    requires
        open_at(g),
    ensures
        goes_on(g, translate::index_step(g, pointer, base, index, size)),
{
    def_tidy(g, InstV::GetPtr { dest: 0, ptr: base, index, elem_size: size });
    array_step_tidy(g, base, index, size);
}

/// The end of a branch that decides.
pub(crate) proof fn decided_tidy(g: GenV, value: i32, sc: usize, end: usize)
    requires
        open_at(g),
    ensures
        tidy(translate::decided(g, value, sc, end)),
        translate::decided(g, value, sc, end).b.terminated,
        later(g, translate::decided(g, value, sc, end)),
        translate::decided(g, value, sc, end).b.block_counter == g.b.block_counter,
{
    let i = InstV::Store { value: IrOperand::Int(value), ptr: IrOperand::Global(sc) };
    emit_tidy(g, i);
    emit_tidy(g.emit(i), InstV::Jump { target: end });
}

pub(crate) proof fn call_tidy(g: GenV, name: Seq<char>, args: Seq<IrOperand>)
    requires
        open_at(g),
    ensures
        goes_on(g, translate::call(g, name, args)),
{
    let func = g.program.func_names.len() as usize;
    let g1 = GenV {
        program: ProgV { func_names: g.program.func_names.push(name), ..g.program },
        ..g
    };
    same_blocks(g, g1);
    emit_tidy(g1, InstV::Call { dest: None, func, args });
    def_tidy(g1, InstV::Call { dest: Some(0), func, args });
}

pub(crate) proof fn expr_tidy(g: GenV, e: ExprV)
    requires
        open_at(g),
    ensures
        goes_on(g, translate::expr(g, e)),
    decreases e, 2int,
{
    match e {
        ExprV::Int(_) => {},
        ExprV::LVal(name) => match g.lookup(name) {
            Some(SymV::Var(n)) => def_tidy(g, InstV::Load { dest: 0, src: IrOperand::Global(n) }),
            Some(SymV::Array(n, dims)) => def_tidy(
                g,
                InstV::GetElemPtr {
                    dest: 0,
                    ptr: IrOperand::Global(n),
                    index: IrOperand::Int(0),
                    elem_size: translate::size_from(dims, 1),
                },
            ),
            _ => {},
        },
        ExprV::Unary { op, expr: x } => {
            expr_tidy(g, *x);
            if let Ok((g1, v)) = translate::expr(g, *x) {
                def_tidy(
                    g1,
                    InstV::Arith { dest: 0, op: IrArithOp::Sub, lhs: IrOperand::Int(0), rhs: v },
                );
                def_tidy(
                    g1,
                    InstV::Icmp { dest: 0, op: IrCmpOp::Eq, lhs: v, rhs: IrOperand::Int(0) },
                );
            }
        },
        ExprV::Binary { op, lhs, rhs } => {
            if op == BinaryOp::And || op == BinaryOp::Or {
                short_circuit_expr_tidy(g, e);
            } else {
                expr_tidy(g, *lhs);
                if let Ok((g1, l)) = translate::expr(g, *lhs) {
                    expr_tidy(g1, *rhs);
                    if let Ok((g2, r)) = translate::expr(g1, *rhs) {
                        def_tidy(g2, translate::binary_inst(op, l, r));
                    }
                }
            }
        },
        ExprV::Call { name, args } => {
            call_args_tidy(g, args, 0, Seq::empty());
            if let Ok((g1, vals)) = translate::call_args(g, args, 0, Seq::empty()) {
                call_tidy(g1, name, vals);
            }
        },
        ExprV::Index { .. } => index_value_tidy(g, e),
        ExprV::InitList(_) => {},
        ExprV::Asm(code) => def_tidy(g, InstV::Asm { dest: Some(0), code }),
    }
}

pub(crate) proof fn test_tidy(g: GenV, v: IrOperand)
    requires
        open_at(g),
    ensures
        goes_on(g, translate::test(g, v)),
        goes_on(g, translate::branch_cond(g, v)),
{
    def_tidy(g, InstV::Icmp { dest: 0, op: IrCmpOp::Ne, lhs: v, rhs: IrOperand::Int(0) });
}

proof fn short_circuit_expr_tidy(g: GenV, e: ExprV)
    requires
        open_at(g),
        e matches ExprV::Binary { op, .. } && (op == BinaryOp::And || op == BinaryOp::Or),
    ensures
        goes_on(g, translate::expr(g, e)),
    decreases e, 0int,
{
    if let ExprV::Binary { op, lhs, rhs } = e {
        short_circuit_tidy(g);
        if let Ok((g1, sc)) = g.short_circuit() {
            expr_tidy(g1, *lhs);
            if let Ok((g2, l)) = translate::expr(g1, *lhs) {
                test_tidy(g2, l);
                if let Ok((g3, cond)) = translate::branch_cond(g2, l) {
                    labels_tidy(g3);
                    if let Ok((g4, (a, b, end))) = g3.labels() {
                        let br = InstV::Br { cond, then_bb: a, else_bb: b };
                        emit_tidy(g4, br);
                        let h = g4.emit(br);
                        start_tidy(h, a);
                        let h1 = h.start(a);
                        let g5 = if op == BinaryOp::And {
                            h1
                        } else {
                            translate::decided(h1, 1, sc, end).start(b)
                        };
                        if op == BinaryOp::Or {
                            decided_tidy(h1, 1, sc, end);
                            assert(!started(translate::decided(h1, 1, sc, end), b));
                            start_tidy(translate::decided(h1, 1, sc, end), b);
                        }
                        assert(!started(g5, end));
                        expr_tidy(g5, *rhs);
                        if let Ok((g6, r)) = translate::expr(g5, *rhs) {
                            test_tidy(g6, r);
                            if let Ok((g7, t)) = translate::test(g6, r) {
                                let st = InstV::Store { value: t, ptr: IrOperand::Global(sc) };
                                emit_tidy(g7, st);
                                let h2 = g7.emit(st);
                                emit_tidy(h2, InstV::Jump { target: end });
                                let g8 = h2.emit(InstV::Jump { target: end });
                                assert(!started(g8, end));
                                let g9 = if op == BinaryOp::And {
                                    translate::decided(g8.start(b), 0, sc, end)
                                } else {
                                    g8
                                };
                                if op == BinaryOp::And {
                                    assert(!started(g8, b));
                                    start_tidy(g8, b);
                                    decided_tidy(g8.start(b), 0, sc, end);
                                }
                                assert(!started(g9, end));
                                start_tidy(g9, end);
                                let g10 = g9.start(end);
                                assert(later(g, g10));
                                def_tidy(
                                    g10,
                                    InstV::Load { dest: 0, src: IrOperand::Global(sc) },
                                );
                            }
                        }
                    }
                }
            }
        }
    }
}

pub(crate) proof fn call_args_tidy(g: GenV, args: Seq<ExprV>, k: int, done: Seq<IrOperand>)
    requires
        open_at(g),
    ensures
        goes_on(g, translate::call_args(g, args, k, done)),
    decreases args, args.len() - k,
{
    if 0 <= k < args.len() {
        expr_tidy(g, args[k]);
        if let Ok((g1, v)) = translate::expr(g, args[k]) {
            call_args_tidy(g1, args, k + 1, done.push(v));
        }
    }
}

proof fn index_value_tidy(g: GenV, e: ExprV)
    requires
        open_at(g),
    ensures
        goes_on(g, translate::index_value(g, e)),
    decreases e, 1int,
{
    if let ExprV::Index { array, index } = e {
        if translate::is_param(translate::base_symbol(g, e)) {
            param_ptr_tidy(g, e);
            if let Ok((g1, p)) = translate::param_ptr(g, e) {
                element_tidy(
                    g1,
                    p,
                    translate::index_count(e) >= translate::total_dims(g, e),
                    translate::size_from(
                        translate::base_dims(g, e),
                        translate::index_count(e),
                    ),
                );
            }
        } else {
            let dims = translate::base_dims(g, *array);
            let depth = translate::index_count(*array);
            expr_tidy(g, *index);
            if let Ok((g1, i)) = translate::expr(g, *index) {
                base_tidy(g1, *array);
                if let Ok((g2, b)) = translate::base(g1, *array) {
                    let pointer = *array is LVal && translate::is_ptr(
                        translate::base_symbol(g, *array),
                    );
                    let size = translate::size_from(dims, depth + 1);
                    index_step_tidy(g2, pointer, b, i, size);
                    if let Ok((g3, p)) = translate::index_step(g2, pointer, b, i, size) {
                        element_tidy(
                            g3,
                            p,
                            1 + depth >= translate::total_dims(g, *array),
                            translate::size_from(dims, depth + 2),
                        );
                    }
                }
            }
        }
    }
}

pub(crate) proof fn param_ptr_tidy(g: GenV, e: ExprV)
    requires
        open_at(g),
    ensures
        goes_on(g, translate::param_ptr(g, e)),
    decreases e, 0int,
{
    if let ExprV::Index { array, index } = e {
        match *array {
            ExprV::LVal(name) => {
                if let Some(SymV::NdParam { name: n, dims }) = g.lookup(name) {
                    expr_tidy(g, *index);
                    if let Ok((g1, i)) = translate::expr(g, *index) {
                        def_tidy(
                            g1,
                            InstV::GetPtr {
                                dest: 0,
                                ptr: IrOperand::Global(n),
                                index: i,
                                elem_size: translate::size_from(dims, 0),
                            },
                        );
                    }
                }
            },
            _ => {
                param_ptr_tidy(g, *array);
                if let Ok((g1, p)) = translate::param_ptr(g, *array) {
                    expr_tidy(g1, *index);
                    if let Ok((g2, i)) = translate::expr(g1, *index) {
                        def_tidy(
                            g2,
                            InstV::GetElemPtr {
                                dest: 0,
                                ptr: p,
                                index: i,
                                elem_size: translate::size_from(
                                    translate::base_dims(g, *array),
                                    translate::index_count(*array),
                                ),
                            },
                        );
                    }
                }
            },
        }
    }
}

pub(crate) proof fn base_tidy(g: GenV, e: ExprV)
    requires
        open_at(g),
    ensures
        goes_on(g, translate::base(g, e)),
    decreases e, 0int,
{
    if let ExprV::Index { array, index } = e {
        expr_tidy(g, *index);
        if let Ok((g1, i)) = translate::expr(g, *index) {
            base_tidy(g1, *array);
            if let Ok((g2, b)) = translate::base(g1, *array) {
                array_step_tidy(
                    g2,
                    b,
                    i,
                    translate::size_from(
                        translate::base_dims(g, *array),
                        translate::index_count(*array) + 1,
                    ),
                );
            }
        }
    }
}

// ── Declarations ─────────────────────────────────────────────────────────────

pub(crate) proof fn inner_ptr_tidy(g: GenV, p: IrOperand, dims: Seq<i32>, k: int)
    requires
        open_at(g),
    ensures
        goes_on(g, translate::inner_ptr(g, p, dims, k)),
    decreases dims.len() - k,
{
    if k < dims.len() {
        let i = InstV::GetElemPtr {
            dest: 0,
            ptr: p,
            index: IrOperand::Int(0),
            elem_size: translate::size_from(dims, k + 1),
        };
        def_tidy(g, i);
        if let Ok((g1, q)) = g.def(i) {
            inner_ptr_tidy(g1, q, dims, k + 1);
        }
    }
}

pub(crate) proof fn elem_ptr_tidy(g: GenV, base: usize, dims: Seq<i32>, flat: i32)
    requires
        open_at(g),
    ensures
        goes_on(g, translate::elem_ptr(g, base, dims, flat)),
{
    inner_ptr_tidy(g, IrOperand::Global(base), dims, 0);
    if let Ok((g1, p)) = translate::inner_ptr(g, IrOperand::Global(base), dims, 0) {
        def_tidy(
            g1,
            InstV::GetPtr { dest: 0, ptr: p, index: IrOperand::Int(flat), elem_size: 4 },
        );
    }
}

pub(crate) proof fn init_stores_tidy(g: GenV, base: usize, dims: Seq<i32>, flat: Seq<ExprV>, i: int, n: int)
    requires
        open_at(g),
    ensures
        stays_open(g, translate::init_stores(g, base, dims, flat, i, n)),
    decreases n - i,
{
    if i < n {
        expr_tidy(g, flat[i]);
        if let Ok((g1, value)) = translate::expr(g, flat[i]) {
            elem_ptr_tidy(g1, base, dims, (i as usize) as i32);
            if let Ok((g2, p)) = translate::elem_ptr(g1, base, dims, (i as usize) as i32) {
                let st = InstV::Store { value, ptr: p };
                emit_tidy(g2, st);
                init_stores_tidy(g2.emit(st), base, dims, flat, i + 1, n);
            }
        }
    }
}

pub(crate) proof fn array_init_tidy(g: GenV, base: usize, dims: Seq<i32>, init: ExprV)
    requires
        open_at(g),
    ensures
        stays_open(g, translate::array_init(g, base, dims, init)),
{
    if let Ok(flat) = translate::local_flat(dims, init, Seq::empty()) {
        if let Some(t) = translate::total(dims) {
            init_stores_tidy(g, base, dims, translate::fill(flat, t as int), 0, t as int);
        }
    }
}

pub(crate) proof fn new_array_tidy(g: GenV, name: Seq<char>, mangled: Seq<char>, dims: Seq<i32>)
    requires
        open_at(g),
    ensures
        goes_on(g, translate::new_array(g, name, mangled, dims)),
{
    intern_tidy(g, mangled);
    if let Ok((g1, n)) = g.intern(mangled) {
        same_blocks(
            g1,
            g1.pend(n, translate::array_type(dims)).bind(name, SymV::Array(n, dims)),
        );
    }
}

proof fn const_def_tidy(g: GenV, d: ConstDefV)
    requires
        open_at(g),
    ensures
        stays_open(g, translate::const_def(g, d)),
{
    if d.dims.len() == 0 && !(d.init is InitList) {
        if let Ok(v) = translate::const_value(g, d.init) {
            same_blocks(g, g.bind(d.name, SymV::Const(v)));
        }
    } else {
        local_name_tidy(g, d.name);
        if let Ok((g1, mangled)) = g.local_name(d.name) {
            if let Ok(dims) = translate::const_values(g1, d.dims) {
                new_array_tidy(g1, d.name, mangled, dims);
                if let Ok((g2, n)) = translate::new_array(g1, d.name, mangled, dims) {
                    array_init_tidy(g2, n, dims, d.init);
                }
            }
        }
    }
}

proof fn var_def_tidy(g: GenV, d: VarDefV)
    requires
        open_at(g),
    ensures
        stays_open(g, translate::var_def(g, d)),
{
    local_name_tidy(g, d.name);
    if let Ok((g1, mangled)) = g.local_name(d.name) {
        if d.dims.len() == 0 {
            intern_tidy(g1, mangled);
            if let Ok((g2, n)) = g1.intern(mangled) {
                let g3 = g2.pend(n, IrType::I32);
                same_blocks(g2, g3);
                match d.init {
                    None => same_blocks(g3, g3.bind(d.name, SymV::Var(n))),
                    Some(init) => {
                        expr_tidy(g3, init);
                        if let Ok((g4, v)) = translate::expr(g3, init) {
                            let st = InstV::Store { value: v, ptr: IrOperand::Global(n) };
                            emit_tidy(g4, st);
                            same_blocks(g4.emit(st), g4.emit(st).bind(d.name, SymV::Var(n)));
                        }
                    },
                }
            }
        } else if let Ok(dims) = translate::const_values(g1, d.dims) {
            new_array_tidy(g1, d.name, mangled, dims);
            if let Ok((g2, n)) = translate::new_array(g1, d.name, mangled, dims) {
                if let Some(init) = d.init {
                    array_init_tidy(g2, n, dims, init);
                }
            }
        }
    }
}

pub(crate) proof fn const_defs_tidy(g: GenV, defs: Seq<ConstDefV>, k: int)
    requires
        open_at(g),
    ensures
        stays_open(g, translate::const_defs(g, defs, k)),
    decreases defs.len() - k,
{
    if 0 <= k < defs.len() {
        const_def_tidy(g, defs[k]);
        if let Ok(g1) = translate::const_def(g, defs[k]) {
            const_defs_tidy(g1, defs, k + 1);
        }
    }
}

pub(crate) proof fn var_defs_tidy(g: GenV, defs: Seq<VarDefV>, k: int)
    requires
        open_at(g),
    ensures
        stays_open(g, translate::var_defs(g, defs, k)),
    decreases defs.len() - k,
{
    if 0 <= k < defs.len() {
        var_def_tidy(g, defs[k]);
        if let Ok(g1) = translate::var_def(g, defs[k]) {
            var_defs_tidy(g1, defs, k + 1);
        }
    }
}

// ── Statements ───────────────────────────────────────────────────────────────

pub(crate) proof fn param_target_tidy(g: GenV, p: IrOperand, dims: Seq<i32>, index: Seq<ExprV>, k: int)
    requires
        open_at(g),
    ensures
        goes_on(g, translate::param_target(g, p, dims, index, k)),
    decreases index.len() - k,
{
    if 0 <= k < index.len() {
        expr_tidy(g, index[k]);
        if let Ok((g1, i)) = translate::expr(g, index[k]) {
            let step = InstV::GetElemPtr {
                dest: 0,
                ptr: p,
                index: i,
                elem_size: translate::size_from(dims, k),
            };
            def_tidy(g1, step);
            if let Ok((g2, q)) = g1.def(step) {
                param_target_tidy(g2, q, dims, index, k + 1);
            }
        }
    }
}

pub(crate) proof fn array_target_tidy(
    g: GenV,
    p: IrOperand,
    pointer: bool,
    dims: Seq<i32>,
    index: Seq<ExprV>,
    k: int,
)
    requires
        open_at(g),
    ensures
        goes_on(g, translate::array_target(g, p, pointer, dims, index, k)),
    decreases index.len() - k,
{
    if 0 <= k < index.len() {
        expr_tidy(g, index[k]);
        if let Ok((g1, i)) = translate::expr(g, index[k]) {
            let size = translate::size_from(dims, k + 1);
            index_step_tidy(g1, pointer, p, i, size);
            if let Ok((g2, q)) = translate::index_step(g1, pointer, p, i, size) {
                array_target_tidy(g2, q, pointer, dims, index, k + 1);
            }
        }
    }
}

proof fn store_to_tidy(g: GenV, r: translate::Step<IrOperand>, value: IrOperand)
    requires
        goes_on(g, r),
    ensures
        stays_open(g, translate::store_to(r, value)),
{
    if let Ok((g1, p)) = r {
        emit_tidy(g1, InstV::Store { value, ptr: p });
    }
}

proof fn array_assign_tidy(g: GenV, name: Seq<char>, index: Seq<ExprV>, e: ExprV)
    requires
        open_at(g),
    ensures
        stays_open(g, translate::array_assign(g, name, index, e)),
{
    expr_tidy(g, e);
    if let Ok((g1, v)) = translate::expr(g, e) {
        match g.lookup(name) {
            Some(SymV::NdParam { name: n, dims }) => {
                expr_tidy(g1, index[0]);
                if let Ok((g2, i)) = translate::expr(g1, index[0]) {
                    let step = InstV::GetPtr {
                        dest: 0,
                        ptr: IrOperand::Global(n),
                        index: i,
                        elem_size: translate::size_from(dims, 0),
                    };
                    def_tidy(g2, step);
                    if let Ok((g3, p)) = g2.def(step) {
                        param_target_tidy(g3, p, dims, index, 1);
                        store_to_tidy(g, translate::param_target(g3, p, dims, index, 1), v);
                    }
                }
            },
            Some(SymV::Array(n, dims)) => {
                let base = IrOperand::Global(n);
                array_target_tidy(g1, base, false, dims, index, 0);
                store_to_tidy(g, translate::array_target(g1, base, false, dims, index, 0), v);
            },
            Some(SymV::PtrArray(n)) => {
                let base = IrOperand::Global(n);
                array_target_tidy(g1, base, true, Seq::empty(), index, 0);
                store_to_tidy(
                    g,
                    translate::array_target(g1, base, true, Seq::empty(), index, 0),
                    v,
                );
            },
            _ => {},
        }
    }
}

proof fn assign_tidy(g: GenV, name: Seq<char>, index: Seq<ExprV>, e: ExprV)
    requires
        open_at(g),
    ensures
        stays_open(g, translate::assign(g, name, index, e)),
{
    if index.len() > 0 {
        array_assign_tidy(g, name, index, e);
    } else if let Some(SymV::Var(n)) = g.lookup(name) {
        expr_tidy(g, e);
        if let Ok((g1, v)) = translate::expr(g, e) {
            emit_tidy(g1, InstV::Store { value: v, ptr: IrOperand::Global(n) });
        }
    }
}

/// After a jump where it is needed, the current block has ended.
pub(crate) proof fn jump_on_tidy(g: GenV, target: usize)
    requires
        tidy(g),
    ensures
        tidy(translate::jump_on(g, target)),
        translate::jump_on(g, target).b.terminated,
        later(g, translate::jump_on(g, target)),
        translate::jump_on(g, target).b.block_counter == g.b.block_counter,
{
    if !g.b.terminated {
        emit_tidy(g, InstV::Jump { target });
    }
}

pub(crate) proof fn stmt_tidy(g: GenV, s: StmtV)
    requires
        open_at(g),
    ensures
        leads(g, translate::stmt(g, s)),
    decreases s, 1int,
{
    match s {
        StmtV::Return(None) => emit_tidy(g, InstV::Ret { value: None }),
        StmtV::Return(Some(e)) => {
            expr_tidy(g, e);
            if let Ok((g1, v)) = translate::expr(g, e) {
                emit_tidy(g1, InstV::Ret { value: Some(v) });
            }
        },
        StmtV::Assign { name, index, expr } => assign_tidy(g, name, index, expr),
        StmtV::Expr(e) => expr_tidy(g, e),
        StmtV::Block(items) => {
            let inner = GenV { scopes: g.scopes.push(Map::empty()), ..g };
            same_blocks(g, inner);
            block_tidy(inner, items, 0);
            if let Ok(g1) = translate::block(inner, items, 0) {
                same_blocks(g1, GenV { scopes: g1.scopes.drop_last(), ..g1 });
            }
        },
        StmtV::If { .. } => if_tidy(g, s),
        StmtV::While { .. } => while_tidy(g, s),
        StmtV::Break => {
            if g.loops.len() > 0 {
                emit_tidy(g, InstV::Jump { target: g.loops.last().1 });
            }
        },
        StmtV::Continue => {
            if g.loops.len() > 0 {
                emit_tidy(g, InstV::Jump { target: g.loops.last().0 });
            }
        },
        StmtV::Empty => {},
        StmtV::Asm(code) => emit_tidy(g, InstV::Asm { dest: None, code }),
    }
}

proof fn if_tidy(g: GenV, s: StmtV)
    requires
        open_at(g),
        s is If,
    ensures
        leads(g, translate::stmt(g, s)),
    decreases s, 0int,
{
    if let StmtV::If { cond, then_branch, else_branch } = s {
        expr_tidy(g, cond);
        if let Ok((g1, c)) = translate::expr(g, cond) {
            labels_tidy(g1);
            if let Ok((g2, (yes, no, end))) = g1.labels() {
                let target = if else_branch is Some {
                    no
                } else {
                    end
                };
                let br = InstV::Br { cond: c, then_bb: yes, else_bb: target };
                emit_tidy(g2, br);
                let h = g2.emit(br);
                start_tidy(h, yes);
                let g3 = h.start(yes);
                stmt_tidy(g3, *then_branch);
                if let Ok(g4) = translate::stmt(g3, *then_branch) {
                    jump_on_tidy(g4, end);
                    let g5 = translate::jump_on(g4, end);
                    assert(!started(g5, no) && !started(g5, end));
                    match else_branch {
                        None => {
                            start_tidy(g5, end);
                            assert(later(g, g5.start(end)));
                        },
                        Some(els) => {
                            start_tidy(g5, no);
                            assert(!started(g5.start(no), end));
                            stmt_tidy(g5.start(no), *els);
                            if let Ok(g6) = translate::stmt(g5.start(no), *els) {
                                assert(later(g, g6));
                                jump_on_tidy(g6, end);
                                let g7 = translate::jump_on(g6, end);
                                assert(!started(g7, end));
                                start_tidy(g7, end);
                                assert(later(g, g7.start(end)));
                            }
                        },
                    }
                }
            }
        }
    }
}

proof fn while_tidy(g: GenV, s: StmtV)
    requires
        open_at(g),
        s is While,
    ensures
        leads(g, translate::stmt(g, s)),
    decreases s, 0int,
{
    if let StmtV::While { cond, body } = s {
        labels_tidy(g);
        if let Ok((g1, (top, inside, end))) = g.labels() {
            let go = InstV::Jump { target: top };
            emit_tidy(g1, go);
            let h = g1.emit(go);
            start_tidy(h, top);
            assert(!started(h.start(top), inside) && !started(h.start(top), end));
            expr_tidy(h.start(top), cond);
            if let Ok((g2, c)) = translate::expr(h.start(top), cond) {
                let br = InstV::Br { cond: c, then_bb: inside, else_bb: end };
                emit_tidy(g2, br);
                let g3 = g2.emit(br);
                let inner = GenV { loops: g3.loops.push((top, end)), ..g3 };
                same_blocks(g3, inner);
                assert(!started(inner, inside) && !started(inner, end));
                start_tidy(inner, inside);
                let g4 = inner.start(inside);
                assert(!started(g4, end));
                stmt_tidy(g4, *body);
                if let Ok(g5) = translate::stmt(g4, *body) {
                    jump_on_tidy(g5, top);
                    let g6 = translate::jump_on(g5, top);
                    let g7 = GenV { loops: g5.loops.drop_last(), ..g6 };
                    same_blocks(g6, g7);
                    assert(!started(g7, end));
                    start_tidy(g7, end);
                    assert(later(g, g7.start(end)));
                }
            }
        }
    }
}

pub(crate) proof fn block_tidy(g: GenV, items: Seq<BlockItemV>, k: int)
    requires
        tidy(g),
    ensures
        leads(g, translate::block(g, items, k)),
    decreases items, items.len() - k,
{
    if 0 <= k < items.len() && !g.b.terminated {
        match items[k] {
            BlockItemV::Stmt(s) => {
                stmt_tidy(g, s);
                if let Ok(g1) = translate::stmt(g, s) {
                    block_tidy(g1, items, k + 1);
                }
            },
            BlockItemV::Decl(d) => {
                match d {
                    DeclV::Const(defs) => const_defs_tidy(g, defs, 0),
                    DeclV::Var(defs) => var_defs_tidy(g, defs, 0),
                }
                if let Ok(g1) = translate::decl(g, d) {
                    block_tidy(g1, items, k + 1);
                }
            },
        }
    }
}

// ── Functions and programs ───────────────────────────────────────────────────

/// Library declarations are made elsewhere.
proof fn lib_expr_apart(g: GenV, e: ExprV)
    ensures
        translate::lib_expr(g, e).b == g.b,
        translate::lib_expr(g, e).program.funcs == g.program.funcs,
        translate::lib_expr(g, e).program.globals == g.program.globals,
        translate::lib_expr(g, e).program.global_names == g.program.global_names,
        translate::lib_expr(g, e).scopes == g.scopes,
        translate::lib_expr(g, e).globals == g.globals,
        translate::lib_expr(g, e).func_rets == g.func_rets,
        translate::lib_expr(g, e).loops == g.loops,
        translate::lib_expr(g, e).ret_type == g.ret_type,
    decreases e, 0int,
{
    match e {
        ExprV::Binary { lhs, rhs, .. } => {
            lib_expr_apart(g, *lhs);
            lib_expr_apart(translate::lib_expr(g, *lhs), *rhs);
        },
        ExprV::Unary { expr, .. } => lib_expr_apart(g, *expr),
        ExprV::Index { array, index } => {
            lib_expr_apart(g, *array);
            lib_expr_apart(translate::lib_expr(g, *array), *index);
        },
        ExprV::InitList(items) => lib_exprs_apart(g, items, 0),
        _ => {},
    }
}

proof fn lib_exprs_apart(g: GenV, es: Seq<ExprV>, k: int)
    ensures
        translate::lib_exprs(g, es, k).b == g.b,
        translate::lib_exprs(g, es, k).program.funcs == g.program.funcs,
        translate::lib_exprs(g, es, k).program.globals == g.program.globals,
        translate::lib_exprs(g, es, k).program.global_names == g.program.global_names,
        translate::lib_exprs(g, es, k).scopes == g.scopes,
        translate::lib_exprs(g, es, k).globals == g.globals,
        translate::lib_exprs(g, es, k).func_rets == g.func_rets,
        translate::lib_exprs(g, es, k).loops == g.loops,
        translate::lib_exprs(g, es, k).ret_type == g.ret_type,
    decreases es, es.len() - k,
{
    if 0 <= k < es.len() {
        lib_expr_apart(g, es[k]);
        lib_exprs_apart(translate::lib_expr(g, es[k]), es, k + 1);
    }
}

proof fn lib_decl_apart(g: GenV, d: DeclV, k: int)
    ensures
        translate::lib_decl(g, d, k).b == g.b,
        translate::lib_decl(g, d, k).program.funcs == g.program.funcs,
        translate::lib_decl(g, d, k).program.globals == g.program.globals,
        translate::lib_decl(g, d, k).program.global_names == g.program.global_names,
        translate::lib_decl(g, d, k).scopes == g.scopes,
        translate::lib_decl(g, d, k).globals == g.globals,
        translate::lib_decl(g, d, k).func_rets == g.func_rets,
        translate::lib_decl(g, d, k).loops == g.loops,
        translate::lib_decl(g, d, k).ret_type == g.ret_type,
    decreases
            (match d {
                DeclV::Const(defs) => defs.len(),
                DeclV::Var(defs) => defs.len(),
            }) - k,
{
    match d {
        DeclV::Const(defs) => if 0 <= k < defs.len() {
            lib_expr_apart(g, defs[k].init);
            lib_decl_apart(translate::lib_expr(g, defs[k].init), d, k + 1);
        },
        DeclV::Var(defs) => if 0 <= k < defs.len() {
            match defs[k].init {
                Some(init) => {
                    lib_expr_apart(g, init);
                    lib_decl_apart(translate::lib_expr(g, init), d, k + 1);
                },
                None => lib_decl_apart(g, d, k + 1),
            }
        },
    }
}

proof fn lib_stmt_apart(g: GenV, s: StmtV)
    ensures
        translate::lib_stmt(g, s).b == g.b,
        translate::lib_stmt(g, s).program.funcs == g.program.funcs,
        translate::lib_stmt(g, s).program.globals == g.program.globals,
        translate::lib_stmt(g, s).program.global_names == g.program.global_names,
        translate::lib_stmt(g, s).scopes == g.scopes,
        translate::lib_stmt(g, s).globals == g.globals,
        translate::lib_stmt(g, s).func_rets == g.func_rets,
        translate::lib_stmt(g, s).loops == g.loops,
        translate::lib_stmt(g, s).ret_type == g.ret_type,
    decreases s, 0int,
{
    match s {
        StmtV::Return(Some(e)) => lib_expr_apart(g, e),
        StmtV::Assign { expr, .. } => lib_expr_apart(g, expr),
        StmtV::Expr(e) => lib_expr_apart(g, e),
        StmtV::Block(items) => lib_block_apart(g, items, 0),
        StmtV::If { cond, then_branch, else_branch } => {
            lib_expr_apart(g, cond);
            lib_stmt_apart(translate::lib_expr(g, cond), *then_branch);
            let g1 = translate::lib_stmt(translate::lib_expr(g, cond), *then_branch);
            if let Some(els) = else_branch {
                lib_stmt_apart(g1, *els);
            }
        },
        StmtV::While { cond, body } => {
            lib_expr_apart(g, cond);
            lib_stmt_apart(translate::lib_expr(g, cond), *body);
        },
        _ => {},
    }
}

pub(crate) proof fn lib_block_apart(g: GenV, items: Seq<BlockItemV>, k: int)
    ensures
        translate::lib_block(g, items, k).b == g.b,
        translate::lib_block(g, items, k).program.funcs == g.program.funcs,
        translate::lib_block(g, items, k).program.globals == g.program.globals,
        translate::lib_block(g, items, k).program.global_names == g.program.global_names,
        translate::lib_block(g, items, k).scopes == g.scopes,
        translate::lib_block(g, items, k).globals == g.globals,
        translate::lib_block(g, items, k).func_rets == g.func_rets,
        translate::lib_block(g, items, k).loops == g.loops,
        translate::lib_block(g, items, k).ret_type == g.ret_type,
    decreases items, items.len() - k,
{
    if 0 <= k < items.len() {
        match items[k] {
            BlockItemV::Stmt(s) => {
                lib_stmt_apart(g, s);
                lib_block_apart(translate::lib_stmt(g, s), items, k + 1);
            },
            BlockItemV::Decl(d) => {
                lib_decl_apart(g, d, 0);
                lib_block_apart(translate::lib_decl(g, d, 0), items, k + 1);
            },
        }
    }
}

pub(crate) proof fn param_tidy(g: GenV, p: FuncParamV)
    requires
        open_at(g),
    ensures
        goes_on(g, translate::param(g, p)),
{
    local_name_tidy(g, p.name);
    if let Ok((g1, first)) = g.local_name(p.name) {
        if p.is_array {
            intern_tidy(g1, first);
            if let Ok((g2, n)) = g1.intern(first) {
                if p.array_dims.len() == 0 {
                    same_blocks(g2, g2.bind(p.name, SymV::PtrArray(n)));
                } else {
                    let dims = translate::param_dims(g2, p.array_dims);
                    same_blocks(g2, g2.bind(p.name, SymV::NdParam { name: n, dims }));
                }
            }
        } else {
            local_name_tidy(g1, p.name);
            if let Ok((g2, second)) = g1.mangle(p.name) {
                intern_tidy(g2, first);
                if let Ok((g3, sig)) = g2.intern(first) {
                    intern_tidy(g3, second);
                    if let Ok((g4, n)) = g3.intern(second) {
                        let g5 = g4.pend(n, IrType::I32);
                        same_blocks(g4, g5);
                        let st = InstV::Store {
                            value: IrOperand::Global(sig),
                            ptr: IrOperand::Global(n),
                        };
                        emit_tidy(g5, st);
                        same_blocks(g5.emit(st), g5.emit(st).bind(p.name, SymV::Var(n)));
                    }
                }
            }
        }
    }
}

pub(crate) proof fn params_tidy(g: GenV, ps: Seq<FuncParamV>, k: int, done: Seq<(usize, IrType)>)
    requires
        open_at(g),
    ensures
        goes_on(g, translate::params(g, ps, k, done)),
    decreases ps.len() - k,
{
    if 0 <= k < ps.len() {
        param_tidy(g, ps[k]);
        if let Ok((g1, q)) = translate::param(g, ps[k]) {
            params_tidy(g1, ps, k + 1, done.push(q));
        }
    }
}

proof fn leave_ends(g: GenV, ps: Seq<(usize, IrType)>)
    requires
        tidy(g),
        funcs_end(g.program.funcs),
    ensures
        funcs_end(translate::leave(g, ps).program.funcs),
{
    let none = InstV::Ret { value: None };
    let zero = InstV::Ret { value: Some(IrOperand::Int(0)) };
    if !g.b.terminated {
        emit_tidy(g, none);
        emit_tidy(g, zero);
    }
    let done = if g.b.terminated {
        g
    } else if g.ret_type is Void {
        g.emit(none)
    } else {
        g.emit(zero)
    };
    reveal(tidy);
    let h = translate::leave(g, ps);
    let f = FuncV { params: ps, ..done.b.built() };
    assert(h.program.funcs == g.program.funcs.push(f));
    let blocks = done.b.blocks;
    let vars = ir_builder::allocs(done.b.pending);
    assert forall|b: int| 0 <= b < f.blocks.len() implies (#[trigger] f.blocks[b]).label
        == blocks[b].label by {}
    assert forall|b: int| 0 <= b < f.blocks.len() implies block_ends(#[trigger] f.blocks[b]) by {
        assert(block_ends(blocks[b]));
        if b == 0 {
            let instrs = f.blocks[0].instrs;
            assert(instrs == vars + blocks[0].instrs);
            assert forall|i: int| 0 <= i < instrs.len() implies (ir::terminator(
                #[trigger] instrs[i],
            ) <==> i == instrs.len() - 1) by {
                if i < vars.len() {
                    assert(instrs[i] == vars[i]);
                } else {
                    assert(instrs[i] == blocks[0].instrs[i - vars.len()]);
                }
            }
        } else {
            assert(f.blocks[b] == blocks[b]);
        }
    }
    assert forall|i: int| 0 <= i < h.program.funcs.len() implies func_ends(
        #[trigger] h.program.funcs[i],
    ) by {
        if i < g.program.funcs.len() {
            assert(h.program.funcs[i] == g.program.funcs[i]);
        }
    }
}

proof fn func_ends_well(g: GenV, f: FuncDefV)
    requires
        funcs_end(g.program.funcs),
    ensures
        translate::func(g, f) matches Ok(h) ==> funcs_end(h.program.funcs),
{
    if g.program.block_names.len() < usize::MAX && g.program.global_names.len() <= usize::MAX {
        let g0 = translate::enter(g, f);
        assert(open_at(g0)) by {
            reveal(tidy);
        }
        params_tidy(g0, f.params, 0, Seq::empty());
        if let Ok((g1, ps)) = translate::params(g0, f.params, 0, Seq::empty()) {
            lib_block_apart(g1, f.body, 0);
            let g2 = translate::lib_block(g1, f.body, 0);
            same_blocks(g1, g2);
            block_tidy(g2, f.body, 0);
            if let Ok(g3) = translate::block(g2, f.body, 0) {
                leave_ends(g3, ps);
            }
        }
    }
}

proof fn functions_end_well(g: GenV, items: Seq<GlobalItemV>, k: int)
    requires
        funcs_end(g.program.funcs),
    ensures
        translate::functions(g, items, k) matches Ok(h) ==> funcs_end(h.program.funcs),
    decreases items.len() - k,
{
    if 0 <= k < items.len() {
        match items[k] {
            GlobalItemV::FuncDef(f) => {
                func_ends_well(g, f);
                if let Ok(g1) = translate::func(g, f) {
                    functions_end_well(g1, items, k + 1);
                }
            },
            _ => functions_end_well(g, items, k + 1),
        }
    }
}

proof fn global_decl_apart(g: GenV, d: DeclV, k: int)
    ensures
        translate::global_decl(g, d, k) matches Ok(h) ==> h.program.funcs == g.program.funcs,
    decreases
            (match d {
                DeclV::Const(defs) => defs.len(),
                DeclV::Var(defs) => defs.len(),
            }) - k,
{
    match d {
        DeclV::Const(defs) => if 0 <= k < defs.len() {
            if let Ok(g1) = translate::global_const(g, defs[k]) {
                global_decl_apart(g1, d, k + 1);
            }
        },
        DeclV::Var(defs) => if 0 <= k < defs.len() {
            if let Ok(g1) = translate::global_var(g, defs[k]) {
                global_decl_apart(g1, d, k + 1);
            }
        },
    }
}

/// Translating functions leaves the global variables as they are, and only adds names.
pub(crate) proof fn functions_keep_globals(g: GenV, items: Seq<GlobalItemV>, k: int)
    ensures
        translate::functions(g, items, k) matches Ok(h) ==> {
            &&& h.program.globals == g.program.globals
            &&& g.program.global_names.len() <= h.program.global_names.len()
            &&& forall|n: int|
                0 <= n < g.program.global_names.len() ==> #[trigger] h.program.global_names[n]
                    == g.program.global_names[n]
        },
    decreases items.len() - k,
{
    if 0 <= k < items.len() {
        match items[k] {
            GlobalItemV::FuncDef(f) => {
                func_keeps_globals(g, f);
                if let Ok(g1) = translate::func(g, f) {
                    functions_keep_globals(g1, items, k + 1);
                    if let Ok(h) = translate::functions(g, items, k) {
                        assert forall|n: int|
                            0 <= n
                                < g.program.global_names.len() implies #[trigger] h.program.global_names[n]
                            == g.program.global_names[n] by {
                            assert(g1.program.global_names[n] == g.program.global_names[n]);
                        }
                    }
                }
            },
            _ => functions_keep_globals(g, items, k + 1),
        }
    }
}

proof fn func_keeps_globals(g: GenV, f: FuncDefV)
    ensures
        translate::func(g, f) matches Ok(h) ==> {
            &&& h.program.globals == g.program.globals
            &&& g.program.global_names.len() <= h.program.global_names.len()
            &&& forall|n: int|
                0 <= n < g.program.global_names.len() ==> #[trigger] h.program.global_names[n]
                    == g.program.global_names[n]
        },
{
    if g.program.block_names.len() < usize::MAX && g.program.global_names.len() <= usize::MAX {
        let g0 = translate::enter(g, f);
        assert(open_at(g0)) by {
            reveal(tidy);
        }
        params_tidy(g0, f.params, 0, Seq::empty());
        if let Ok((g1, ps)) = translate::params(g0, f.params, 0, Seq::empty()) {
            lib_block_apart(g1, f.body, 0);
            let g2 = translate::lib_block(g1, f.body, 0);
            same_blocks(g1, g2);
            block_tidy(g2, f.body, 0);
        }
    }
}

pub(crate) proof fn signatures_apart(g: GenV, items: Seq<GlobalItemV>, k: int)
    ensures
        translate::signatures(g, items, k) matches Ok(h) ==> h.program.funcs == g.program.funcs,
    decreases items.len() - k,
{
    if 0 <= k < items.len() {
        match items[k] {
            GlobalItemV::FuncDef(f) => signatures_apart(
                GenV { func_rets: g.func_rets.insert(f.name, f.ret_type), ..g },
                items,
                k + 1,
            ),
            GlobalItemV::FuncDecl(f) => signatures_apart(
                GenV { func_rets: g.func_rets.insert(f.name, f.ret_type), ..g },
                items,
                k + 1,
            ),
            GlobalItemV::Decl(d) => {
                global_decl_apart(g, d, 0);
                if let Ok(g1) = translate::global_decl(g, d, 0) {
                    signatures_apart(g1, items, k + 1);
                }
            },
        }
    }
}

/// Every function of a translated program has an entry block, its blocks have different labels,
/// and each of them ends in a branch or a return and has no other.
pub proof fn translated_blocks_end(items: Seq<GlobalItemV>)
    ensures
        translate::program(items) matches Ok(p) ==> funcs_end(p.funcs),
{
    let g = translate::start();
    signatures_apart(g, items, 0);
    if let Ok(g1) = translate::signatures(g, items, 0) {
        assert(g1.program.funcs.len() == 0);
        functions_end_well(g1, items, 0);
    }
}

} // verus!

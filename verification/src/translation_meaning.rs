//! What the instructions of an expression do: they compute its value, the elements of arrays are
//! where their indices say, and the second operand of a short-circuit operator is computed only where
//! the first does not decide.

use crate::ast::{BinaryOp, ExprV, Type, UnaryOp};
use crate::cfg;
use crate::eval;
use crate::ir::{self, BlockV, InstV, IrArithOp, IrCmpOp, IrOperand};
use crate::meaning::{self, MachineV, StateV};
use crate::translate::{self, GenV, SymV};
use crate::translation_blocks;
use vstd::prelude::*;

verus! {

// ── Values of expressions ────────────────────────────────────────────────────

/// What the functions of a program do: the world after a call, and its result.
pub type Calls<W> = spec_fn(W, Seq<char>, Seq<i32>) -> (W, i32);

/// The value of a variable; `own` are those that nothing outside the function reaches.
pub open spec fn variable<W>(
    m: MachineV<W>,
    own: Set<usize>,
    vars: Map<usize, i32>,
    w: W,
    n: usize,
) -> i32 {
    if own.contains(n) {
        vars[n]
    } else {
        (m.load)(w, (m.address)(n))
    }
}

/// The index of the name that an array or a variable has.
pub open spec fn array_index(sym: SymV) -> usize {
    match sym {
        SymV::Const(_) => 0,
        SymV::Var(n) => n,
        SymV::Array(n, _) => n,
        SymV::PtrArray(n) => n,
        SymV::NdParam { name, .. } => name,
    }
}

/// Whether a name stands for an array.
pub open spec fn is_array(sym: Option<SymV>) -> bool {
    sym matches Some(s) && !(s is Const) && !(s is Var)
}

/// The size of what the `k`th index of an array selects.
pub open spec fn step_size(sym: Option<SymV>, k: int) -> i32 {
    match sym {
        Some(SymV::Array(_, dims)) => translate::size_from(dims, k + 1),
        Some(SymV::NdParam { dims, .. }) => translate::size_from(dims, k),
        _ => 4,
    }
}

/// Whether the element at index zero is where the array is.
pub open spec fn starts_at_zero<W>(m: MachineV<W>) -> bool {
    forall|p: i32, size: i32| #[trigger] (m.element)(p, 0, size) == p
}

/// The value of a binary operator; a quotient or remainder that does not exist counts as zero.
pub open spec fn operated(op: BinaryOp, l: i32, r: i32) -> i32 {
    match eval::binary_value(op, l, r) {
        Some(v) => v,
        None => 0,
    }
}

/// The world after an expression, and its value. Names stand for what they do in `g`.
pub open spec fn evaluated<W>(
    m: MachineV<W>,
    own: Set<usize>,
    calls: Calls<W>,
    g: GenV,
    vars: Map<usize, i32>,
    w: W,
    e: ExprV,
) -> (W, i32)
    decreases e, 1int,
{
    match e {
        ExprV::Int(n) => (w, n),
        ExprV::LVal(name) => match g.lookup(name) {
            Some(SymV::Const(v)) => (w, v),
            Some(SymV::Var(n)) => (w, variable(m, own, vars, w, n)),
            Some(sym) => (w, (m.address)(array_index(sym))),
            None => (w, 0),
        },
        ExprV::Unary { op, expr } => {
            let (w1, v) = evaluated(m, own, calls, g, vars, w, *expr);
            (w1, eval::unary_value(op, v))
        },
        ExprV::Binary { op, lhs, rhs } => {
            let (w1, l) = evaluated(m, own, calls, g, vars, w, *lhs);
            if op == BinaryOp::And && l == 0 {
                (w1, 0)
            } else if op == BinaryOp::Or && l != 0 {
                (w1, 1)
            } else {
                let (w2, r) = evaluated(m, own, calls, g, vars, w1, *rhs);
                (w2, operated(op, l, r))
            }
        },
        ExprV::Call { name, args } => {
            let (w1, vals) = evaluated_all(m, own, calls, g, vars, w, args, 0);
            let (w2, v) = calls(w1, name, vals);
            (
                w2,
                if translate::call_ret(g, name) == Type::Void {
                    0
                } else {
                    v
                },
            )
        },
        ExprV::Index { .. } => {
            let (w1, p) = located(m, own, calls, g, vars, w, e);
            (
                w1,
                if translate::index_count(e) >= translate::total_dims(g, e) {
                    (m.load)(w1, p)
                } else {
                    p
                },
            )
        },
        ExprV::InitList(_) => (w, 0),
        ExprV::Asm(code) => (m.code)(w, code),
    }
}

/// The world after the indices of an element or of a row have been evaluated, and its address: that
/// of the array, moved on by each index times the size of what the index selects. The indices of a
/// parameter with several dimensions are evaluated from the first on, others from the last on.
pub open spec fn located<W>(
    m: MachineV<W>,
    own: Set<usize>,
    calls: Calls<W>,
    g: GenV,
    vars: Map<usize, i32>,
    w: W,
    e: ExprV,
) -> (W, i32)
    decreases e, 0int,
{
    match e {
        ExprV::LVal(name) => match g.lookup(name) {
            Some(sym) => (w, (m.address)(array_index(sym))),
            None => (w, 0),
        },
        ExprV::Index { array, index } => {
            let size = step_size(translate::base_symbol(g, e), translate::index_count(*array));
            if translate::is_param(translate::base_symbol(g, e)) {
                let (w1, p) = located(m, own, calls, g, vars, w, *array);
                let (w2, i) = evaluated(m, own, calls, g, vars, w1, *index);
                (w2, (m.element)(p, i, size))
            } else {
                let (w1, i) = evaluated(m, own, calls, g, vars, w, *index);
                let (w2, p) = located(m, own, calls, g, vars, w1, *array);
                (w2, (m.element)(p, i, size))
            }
        },
        _ => (w, 0),
    }
}

/// The world after the expressions of a list from the `k`th on, and their values.
pub open spec fn evaluated_all<W>(
    m: MachineV<W>,
    own: Set<usize>,
    calls: Calls<W>,
    g: GenV,
    vars: Map<usize, i32>,
    w: W,
    es: Seq<ExprV>,
    k: int,
) -> (W, Seq<i32>)
    decreases es, es.len() - k,
{
    if k < 0 || k >= es.len() {
        (w, Seq::empty())
    } else {
        let (w1, v) = evaluated(m, own, calls, g, vars, w, es[k]);
        let (w2, rest) = evaluated_all(m, own, calls, g, vars, w1, es, k + 1);
        (w2, seq![v] + rest)
    }
}

/// The world after the indices of a list from the `k`th on have been evaluated in turn, and the
/// address that they lead to from an address.
pub open spec fn target<W>(
    m: MachineV<W>,
    own: Set<usize>,
    calls: Calls<W>,
    g: GenV,
    vars: Map<usize, i32>,
    w: W,
    sym: SymV,
    p: i32,
    index: Seq<ExprV>,
    k: int,
) -> (W, i32)
    decreases index.len() - k,
{
    if k < 0 || k >= index.len() {
        (w, p)
    } else {
        let (w1, i) = evaluated(m, own, calls, g, vars, w, index[k]);
        target(
            m,
            own,
            calls,
            g,
            vars,
            w1,
            sym,
            (m.element)(p, i, step_size(Some(sym), k)),
            index,
            k + 1,
        )
    }
}

/// Whether the names in an expression stand for what its places ask: constants, variables with
/// indices below `n` and arrays, and arrays only under indices.
pub open spec fn well_named(g: GenV, n: usize, e: ExprV) -> bool
    decreases e, 0int,
{
    match e {
        ExprV::Int(_) => true,
        ExprV::LVal(name) => match g.lookup(name) {
            Some(SymV::Const(_)) => true,
            Some(SymV::Var(v)) => v < n,
            Some(_) => true,
            None => false,
        },
        ExprV::Unary { expr, .. } => well_named(g, n, *expr),
        ExprV::Binary { lhs, rhs, .. } => well_named(g, n, *lhs) && well_named(g, n, *rhs),
        ExprV::Call { args, .. } => all_well_named(g, n, args, 0),
        ExprV::Index { array, index } => {
            &&& is_array(translate::base_symbol(g, e))
            &&& *array is Index || *array is LVal
            &&& well_named(g, n, *array)
            &&& well_named(g, n, *index)
        },
        ExprV::InitList(_) => false,
        ExprV::Asm(_) => true,
    }
}

/// Whether the names in the expressions of a list from the `k`th on do.
pub open spec fn all_well_named(g: GenV, n: usize, es: Seq<ExprV>, k: int) -> bool
    decreases es, es.len() - k,
{
    if k < 0 || k >= es.len() {
        true
    } else {
        well_named(g, n, es[k]) && all_well_named(g, n, es, k + 1)
    }
}

// ── Walking through blocks ───────────────────────────────────────────────────

/// A point in the blocks of a function, and the state there.
#[verifier::ext_equal]
pub struct SpotV<W> {
    pub block: int,
    pub at: int,
    pub state: StateV<W>,
}

/// The start of the block with a label; a point outside all blocks where there is none.
pub open spec fn at_label<W>(blocks: Seq<BlockV>, label: usize, s: StateV<W>) -> SpotV<W> {
    match cfg::label_position(blocks, label) {
        Some(b) => SpotV { block: b as int, at: 0, state: s },
        None => SpotV { block: -1, at: 0, state: s },
    }
}

/// The point after the instruction at a point; a return, and a point outside all blocks, stay.
pub open spec fn moved<W>(
    m: MachineV<W>,
    own: Set<usize>,
    blocks: Seq<BlockV>,
    c: SpotV<W>,
) -> SpotV<W> {
    if 0 <= c.block < blocks.len() && 0 <= c.at < blocks[c.block].instrs.len() {
        match blocks[c.block].instrs[c.at] {
            InstV::Ret { .. } => c,
            InstV::Jump { target } => at_label(blocks, target, c.state),
            InstV::Br { cond, then_bb, else_bb } => at_label(
                blocks,
                if meaning::value(m, c.state, cond) != 0 {
                    then_bb
                } else {
                    else_bb
                },
                c.state,
            ),
            i => SpotV { at: c.at + 1, state: meaning::step(m, own, c.state, i), ..c },
        }
    } else {
        c
    }
}

/// The point after a number of instructions.
pub open spec fn walked<W>(
    m: MachineV<W>,
    own: Set<usize>,
    blocks: Seq<BlockV>,
    c: SpotV<W>,
    n: nat,
) -> SpotV<W>
    decreases n,
{
    if n == 0 {
        c
    } else {
        moved(m, own, blocks, walked(m, own, blocks, c, (n - 1) as nat))
    }
}

/// A walk goes on from where a walk has ended.
pub(crate) proof fn walked_on<W>(
    m: MachineV<W>,
    own: Set<usize>,
    blocks: Seq<BlockV>,
    c: SpotV<W>,
    a: nat,
    b: nat,
)
    ensures
        walked(m, own, blocks, c, a + b) == walked(
            m,
            own,
            blocks,
            walked(m, own, blocks, c, a),
            b,
        ),
    decreases b,
{
    if b > 0 {
        walked_on(m, own, blocks, c, a, (b - 1) as nat);
    }
}

// ── Blocks that go on ────────────────────────────────────────────────────────

/// A list starts with another.
pub open spec fn starts<T>(all: Seq<T>, first: Seq<T>) -> bool {
    &&& first.len() <= all.len()
    &&& forall|i: int| 0 <= i < first.len() ==> #[trigger] all[i] == first[i]
}

/// Blocks go on from others: those but the last are the same, and the last goes on.
pub open spec fn go_on(all: Seq<BlockV>, first: Seq<BlockV>) -> bool {
    let n = first.len() - 1;
    &&& 0 <= n < all.len()
    &&& forall|b: int| 0 <= b < n ==> #[trigger] all[b] == first[b]
    &&& all[n].label == first[n].label
    &&& starts(all[n].instrs, first[n].instrs)
}

/// The blocks and the function names of a program go on from a state of its translation.
pub open spec fn continues(blocks: Seq<BlockV>, names: Seq<Seq<char>>, g: GenV) -> bool {
    &&& go_on(blocks, g.b.blocks)
    &&& starts(names, g.program.func_names)
}

/// A state of a translation goes on from another.
#[verifier::opaque]
pub open spec fn longer(g: GenV, h: GenV) -> bool {
    &&& continues(h.b.blocks, h.program.func_names, g)
    &&& g.b.local_counter <= h.b.local_counter
    &&& g.b.global_counter <= h.b.global_counter
    &&& h.ret_type == g.ret_type
}

/// A state of a translation goes on from another, with the same names in scope and in the same
/// loops.
#[verifier::opaque]
pub open spec fn grown(g: GenV, h: GenV) -> bool {
    &&& longer(g, h)
    &&& h.scopes == g.scopes
    &&& h.globals == g.globals
    &&& h.func_rets == g.func_rets
    &&& h.loops == g.loops
}

pub(crate) proof fn longer_on(a: GenV, b: GenV, c: GenV)
    requires
        longer(a, b),
        longer(b, c),
    ensures
        longer(a, c),
{
    reveal(longer);
    let n = a.b.blocks.len() - 1;
    let k = b.b.blocks.len() - 1;
    assert forall|i: int| 0 <= i < n implies #[trigger] c.b.blocks[i] == a.b.blocks[i] by {
        assert(b.b.blocks[i] == a.b.blocks[i]);
    }
    if n < k {
        assert(c.b.blocks[n] == b.b.blocks[n]);
    }
    assert forall|i: int| 0 <= i < a.b.blocks[n].instrs.len() implies #[trigger] c.b.blocks[n].instrs[i]
        == a.b.blocks[n].instrs[i] by {
        assert(b.b.blocks[n].instrs[i] == a.b.blocks[n].instrs[i]);
    }
    assert forall|i: int| 0 <= i < a.program.func_names.len() implies #[trigger] c.program.func_names[i]
        == a.program.func_names[i] by {
        assert(b.program.func_names[i] == a.program.func_names[i]);
    }
}

pub(crate) proof fn grown_on(a: GenV, b: GenV, c: GenV)
    requires
        grown(a, b),
        grown(b, c),
    ensures
        grown(a, c),
{
    reveal(grown);
    longer_on(a, b, c);
}

/// What goes on from a state goes on from those before it.
pub(crate) proof fn continues_from(blocks: Seq<BlockV>, names: Seq<Seq<char>>, g: GenV, h: GenV)
    requires
        longer(g, h),
        continues(blocks, names, h),
    ensures
        continues(blocks, names, g),
{
    reveal(longer);
    let n = g.b.blocks.len() - 1;
    let k = h.b.blocks.len() - 1;
    assert forall|i: int| 0 <= i < n implies #[trigger] blocks[i] == g.b.blocks[i] by {
        assert(h.b.blocks[i] == g.b.blocks[i]);
    }
    if n < k {
        assert(blocks[n] == h.b.blocks[n]);
    }
    assert forall|i: int| 0 <= i < g.b.blocks[n].instrs.len() implies #[trigger] blocks[n].instrs[i]
        == g.b.blocks[n].instrs[i] by {
        assert(h.b.blocks[n].instrs[i] == g.b.blocks[n].instrs[i]);
    }
    assert forall|i: int| 0 <= i < g.program.func_names.len() implies #[trigger] names[i]
        == g.program.func_names[i] by {
        assert(h.program.func_names[i] == g.program.func_names[i]);
    }
}

/// What goes on from a state goes on from those before it with the same names in scope.
pub(crate) proof fn continues_before(blocks: Seq<BlockV>, names: Seq<Seq<char>>, g: GenV, h: GenV)
    requires
        grown(g, h),
        continues(blocks, names, h),
    ensures
        continues(blocks, names, g),
{
    reveal(grown);
    continues_from(blocks, names, g, h);
}

pub(crate) proof fn emit_grows(g: GenV, i: InstV)
    requires
        translation_blocks::tidy(g),
    ensures
        grown(g, g.emit(i)),
        g.emit(i).b.blocks.len() == g.b.blocks.len(),
        g.emit(i).b.blocks.last().instrs == g.b.blocks.last().instrs.push(i),
{
    reveal(grown);
    reveal(longer);
    reveal(translation_blocks::tidy);
    translation_blocks::current_is_last(g);
    let n = g.b.blocks.len() - 1;
    let h = g.emit(i);
    assert(h.b.blocks[n].instrs == g.b.blocks[n].instrs.push(i));
    assert forall|k: int| 0 <= k < g.b.blocks[n].instrs.len() implies #[trigger] h.b.blocks[n].instrs[k]
        == g.b.blocks[n].instrs[k] by {}
}

pub(crate) proof fn start_grows(g: GenV, label: usize)
    requires
        translation_blocks::tidy(g),
    ensures
        grown(g, g.start(label)),
        g.start(label).b.blocks.len() == g.b.blocks.len() + 1,
        g.start(label).b.blocks.last().instrs.len() == 0,
        g.start(label).b.blocks.last().label == label,
{
    reveal(grown);
    reveal(longer);
    reveal(translation_blocks::tidy);
}

/// A state that differs in counters and pending variables only.
pub(crate) proof fn counted_grows(g: GenV, h: GenV)
    requires
        translation_blocks::tidy(g),
        h.b.blocks == g.b.blocks,
        h.program.func_names == g.program.func_names,
        g.b.local_counter <= h.b.local_counter,
        g.b.global_counter <= h.b.global_counter,
        h.scopes == g.scopes,
        h.globals == g.globals,
        h.func_rets == g.func_rets,
        h.loops == g.loops,
        h.ret_type == g.ret_type,
    ensures
        grown(g, h),
{
    reveal(grown);
    reveal(longer);
    reveal(translation_blocks::tidy);
}

proof fn def_grows(g: GenV, i: InstV)
    requires
        translation_blocks::open_at(g),
    ensures
        g.def(i) matches Ok((h, v)) ==> grown(g, h) && v == IrOperand::Local(g.b.local_counter)
            && h.b.local_counter == g.b.local_counter + 1 && h.b.global_counter
            == g.b.global_counter && h.b.blocks.len() == g.b.blocks.len()
            && h.b.blocks.last().instrs == g.b.blocks.last().instrs.push(
            ir::with_dest(i, g.b.local_counter),
        ),
{
    if g.b.tmp_left() {
        let h = GenV { b: g.b.with_tmp(), ..g };
        translation_blocks::same_blocks(g, h);
        counted_grows(g, h);
        emit_grows(h, ir::with_dest(i, g.b.local_counter));
        grown_on(g, h, h.emit(ir::with_dest(i, g.b.local_counter)));
    }
}

pub(crate) proof fn labels_grow(g: GenV)
    requires
        translation_blocks::open_at(g),
    ensures
        g.labels() matches Ok((h, _)) ==> grown(g, h) && h.b.blocks == g.b.blocks
            && h.b.local_counter == g.b.local_counter && h.b.global_counter == g.b.global_counter,
{
    if let Ok((h, _)) = g.labels() {
        counted_grows(g, h);
    }
}

// ── Short-circuit operators ──────────────────────────────────────────────────

/// The states that the translation of a short-circuit operator goes through.
struct StagesV {
    /// After the variable `sc` for the value has been made up.
    g1: GenV,
    sc: usize,
    /// After the first operand, with its value and then the condition of the branch.
    g2: GenV,
    l: IrOperand,
    g3: GenV,
    cond: IrOperand,
    /// Before the branch.
    g4: GenV,
    yes: usize,
    no: usize,
    end: usize,
    /// At the start of the block of the second operand, after it, and after its truth value.
    g5: GenV,
    g6: GenV,
    r: IrOperand,
    g7: GenV,
    t: IrOperand,
    /// At the start of the block that needs no second operand.
    short: GenV,
    /// Before the block that goes on.
    g9: GenV,
}

/// The instruction that stores a truth value.
spec fn stored(v: IrOperand, sc: usize) -> InstV {
    InstV::Store { value: v, ptr: IrOperand::Global(sc) }
}

/// The states that the translation of a short-circuit operator goes through, where it does not
/// fail before its end.
spec fn stages(g: GenV, op: BinaryOp, lhs: ExprV, rhs: ExprV) -> Option<StagesV> {
    match g.short_circuit() {
        Err(_) => None,
        Ok((g1, sc)) => match translate::expr(g1, lhs) {
            Err(_) => None,
            Ok((g2, l)) => match translate::branch_cond(g2, l) {
                Err(_) => None,
                Ok((g3, cond)) => match g3.labels() {
                    Err(_) => None,
                    Ok((g4, (yes, no, end))) => {
                        let h = g4.emit(InstV::Br { cond, then_bb: yes, else_bb: no }).start(yes);
                        let g5 = if op == BinaryOp::And {
                            h
                        } else {
                            translate::decided(h, 1, sc, end).start(no)
                        };
                        match translate::expr(g5, rhs) {
                            Err(_) => None,
                            Ok((g6, r)) => match translate::test(g6, r) {
                                Err(_) => None,
                                Ok((g7, t)) => {
                                    let g8 = g7.emit(stored(t, sc)).emit(
                                        InstV::Jump { target: end },
                                    );
                                    let short = if op == BinaryOp::And {
                                        g8.start(no)
                                    } else {
                                        h
                                    };
                                    let g9 = if op == BinaryOp::And {
                                        translate::decided(short, 0, sc, end)
                                    } else {
                                        g8
                                    };
                                    Some(
                                        StagesV {
                                            g1,
                                            sc,
                                            g2,
                                            l,
                                            g3,
                                            cond,
                                            g4,
                                            yes,
                                            no,
                                            end,
                                            g5,
                                            g6,
                                            r,
                                            g7,
                                            t,
                                            short,
                                            g9,
                                        },
                                    )
                                },
                            },
                        }
                    },
                },
            },
        },
    }
}

/// A short-circuit operator is translated through its stages.
proof fn translated_in_stages(g: GenV, op: BinaryOp, lhs: ExprV, rhs: ExprV)
    requires
        op == BinaryOp::And || op == BinaryOp::Or,
    ensures
        ({
            let e = ExprV::Binary { op, lhs: Box::new(lhs), rhs: Box::new(rhs) };
            match stages(g, op, lhs, rhs) {
                Some(s) => translate::expr(g, e) == s.g9.start(s.end).def(
                    InstV::Load { dest: 0, src: IrOperand::Global(s.sc) },
                ),
                None => translate::expr(g, e) is Err,
            }
        }),
{
}

/// The stages are states where instructions can go on.
proof fn stages_are_tidy(g: GenV, op: BinaryOp, lhs: ExprV, rhs: ExprV)
    requires
        translation_blocks::open_at(g),
        op == BinaryOp::And || op == BinaryOp::Or,
    ensures
        stages(g, op, lhs, rhs) matches Some(s) ==> {
            &&& translation_blocks::open_at(s.g1)
            &&& translation_blocks::open_at(s.g2)
            &&& translation_blocks::open_at(s.g3)
            &&& translation_blocks::open_at(s.g4)
            &&& translation_blocks::open_at(s.g5)
            &&& translation_blocks::open_at(s.g6)
            &&& translation_blocks::open_at(s.g7)
            &&& translation_blocks::open_at(s.short)
            &&& translation_blocks::tidy(s.g9)
            &&& translation_blocks::open_at(s.g9.start(s.end))
        },
{
    translation_blocks::short_circuit_tidy(g);
    if let Ok((g1, sc)) = g.short_circuit() {
        translation_blocks::expr_tidy(g1, lhs);
        if let Ok((g2, l)) = translate::expr(g1, lhs) {
            translation_blocks::test_tidy(g2, l);
            if let Ok((g3, cond)) = translate::branch_cond(g2, l) {
                translation_blocks::labels_tidy(g3);
                if let Ok((g4, (a, b, end))) = g3.labels() {
                    let br = InstV::Br { cond, then_bb: a, else_bb: b };
                    translation_blocks::emit_tidy(g4, br);
                    let h = g4.emit(br);
                    translation_blocks::start_tidy(h, a);
                    let h1 = h.start(a);
                    let d = translate::decided(h1, 1, sc, end);
                    let g5 = if op == BinaryOp::And {
                        h1
                    } else {
                        d.start(b)
                    };
                    if op == BinaryOp::Or {
                        translation_blocks::decided_tidy(h1, 1, sc, end);
                        assert(!translation_blocks::started(d, b));
                        translation_blocks::start_tidy(d, b);
                    }
                    assert(!translation_blocks::started(g5, end));
                    translation_blocks::expr_tidy(g5, rhs);
                    if let Ok((g6, r)) = translate::expr(g5, rhs) {
                        translation_blocks::test_tidy(g6, r);
                        if let Ok((g7, t)) = translate::test(g6, r) {
                            translation_blocks::emit_tidy(g7, stored(t, sc));
                            let h2 = g7.emit(stored(t, sc));
                            let jump = InstV::Jump { target: end };
                            translation_blocks::emit_tidy(h2, jump);
                            let g8 = h2.emit(jump);
                            assert(!translation_blocks::started(g8, end));
                            let g9 = if op == BinaryOp::And {
                                translate::decided(g8.start(b), 0, sc, end)
                            } else {
                                g8
                            };
                            if op == BinaryOp::And {
                                assert(!translation_blocks::started(g8, b));
                                translation_blocks::start_tidy(g8, b);
                                translation_blocks::decided_tidy(g8.start(b), 0, sc, end);
                            }
                            assert(!translation_blocks::started(g9, end));
                            translation_blocks::start_tidy(g9, end);
                        }
                    }
                }
            }
        }
    }
}

/// The block that needs no second operand goes on from where it starts.
proof fn decided_grows(g: GenV, value: i32, sc: usize, end: usize)
    requires
        translation_blocks::open_at(g),
    ensures
        ({
            let h = translate::decided(g, value, sc, end);
            &&& grown(g, h)
            &&& h.b.blocks.len() == g.b.blocks.len()
            &&& h.b.blocks.last().instrs == g.b.blocks.last().instrs.push(
                stored(IrOperand::Int(value), sc),
            ).push(InstV::Jump { target: end })
            &&& h.b.local_counter == g.b.local_counter
            &&& h.b.global_counter == g.b.global_counter
        }),
{
    finish_grows(g, IrOperand::Int(value), sc, end);
}

/// A store and a jump go on from where they start.
proof fn finish_grows(g: GenV, v: IrOperand, sc: usize, end: usize)
    requires
        translation_blocks::open_at(g),
    ensures
        ({
            let h = g.emit(stored(v, sc)).emit(InstV::Jump { target: end });
            &&& grown(g, h)
            &&& h.b.blocks.len() == g.b.blocks.len()
            &&& h.b.blocks.last().instrs == g.b.blocks.last().instrs.push(stored(v, sc)).push(
                InstV::Jump { target: end },
            )
            &&& h.b.local_counter == g.b.local_counter
            &&& h.b.global_counter == g.b.global_counter
            &&& translation_blocks::tidy(h)
        }),
{
    let h = g.emit(stored(v, sc));
    translation_blocks::emit_tidy(g, stored(v, sc));
    emit_grows(g, stored(v, sc));
    translation_blocks::emit_tidy(h, InstV::Jump { target: end });
    emit_grows(h, InstV::Jump { target: end });
    grown_on(g, h, h.emit(InstV::Jump { target: end }));
}

/// The condition of a branch goes on from where it starts.
proof fn branch_cond_grows(g: GenV, v: IrOperand)
    requires
        translation_blocks::open_at(g),
    ensures
        translate::branch_cond(g, v) matches Ok((h, _)) ==> grown(g, h),
{
    counted_grows(g, g);
    def_grows(g, InstV::Icmp { dest: 0, op: IrCmpOp::Ne, lhs: v, rhs: IrOperand::Int(0) });
}

/// Each stage goes on from the one before it.
proof fn stages_grow(g: GenV, op: BinaryOp, lhs: ExprV, rhs: ExprV)
    requires
        translation_blocks::open_at(g),
        op == BinaryOp::And || op == BinaryOp::Or,
        stages(g, op, lhs, rhs) matches Some(s) && grown(s.g1, s.g2) && grown(s.g5, s.g6),
    ensures
        ({
            let s = stages(g, op, lhs, rhs)->0;
            &&& grown(g, s.g1)
            &&& grown(s.g2, s.g3)
            &&& grown(s.g3, s.g4)
            &&& grown(
                s.g4,
                s.g4.emit(InstV::Br { cond: s.cond, then_bb: s.yes, else_bb: s.no }),
            )
            &&& grown(s.g4, s.g5)
            &&& grown(s.g6, s.g7)
            &&& grown(s.g4, s.short)
            &&& grown(s.g7, s.g9)
            &&& grown(s.short, s.g9)
            &&& grown(s.g9, s.g9.start(s.end))
            &&& grown(
                s.g7,
                s.g7.emit(stored(s.t, s.sc)).emit(InstV::Jump { target: s.end }),
            )
            &&& grown(
                s.short,
                translate::decided(
                    s.short,
                    if op == BinaryOp::And {
                        0
                    } else {
                        1
                    },
                    s.sc,
                    s.end,
                ),
            )
            &&& grown(
                s.g7.emit(stored(s.t, s.sc)).emit(InstV::Jump { target: s.end }),
                s.g9,
            )
            &&& grown(
                translate::decided(
                    s.short,
                    if op == BinaryOp::And {
                        0
                    } else {
                        1
                    },
                    s.sc,
                    s.end,
                ),
                s.g9,
            )
        }),
{
    let s = stages(g, op, lhs, rhs)->0;
    stages_are_tidy(g, op, lhs, rhs);
    counted_grows(g, s.g1);
    branch_cond_grows(s.g2, s.l);
    labels_grow(s.g3);
    let br = InstV::Br { cond: s.cond, then_bb: s.yes, else_bb: s.no };
    translation_blocks::emit_tidy(s.g4, br);
    emit_grows(s.g4, br);
    let h = s.g4.emit(br);
    start_grows(h, s.yes);
    grown_on(s.g4, h, h.start(s.yes));
    def_grows(s.g6, InstV::Icmp { dest: 0, op: IrCmpOp::Ne, lhs: s.r, rhs: IrOperand::Int(0) });
    finish_grows(s.g7, s.t, s.sc, s.end);
    let g8 = s.g7.emit(stored(s.t, s.sc)).emit(InstV::Jump { target: s.end });
    counted_grows(s.g9, s.g9);
    start_grows(s.g9, s.end);
    let value: i32 = if op == BinaryOp::And {
        0
    } else {
        1
    };
    let d = translate::decided(s.short, value, s.sc, s.end);
    decided_grows(s.short, value, s.sc, s.end);
    translation_blocks::decided_tidy(s.short, value, s.sc, s.end);
    if op == BinaryOp::And {
        start_grows(g8, s.no);
        grown_on(s.g7, g8, s.short);
        grown_on(s.g7, s.short, s.g9);
        grown_on(g8, s.short, s.g9);
        grown_on(s.g5, s.g6, s.g7);
        grown_on(s.g5, s.g7, s.short);
        grown_on(s.g4, s.g5, s.short);
    } else {
        start_grows(d, s.no);
        grown_on(s.short, d, s.g5);
        grown_on(s.g4, s.short, s.g5);
        grown_on(s.g5, s.g6, s.g7);
        grown_on(s.g5, s.g7, s.g9);
        grown_on(s.short, s.g5, s.g9);
        grown_on(d, s.g5, s.g9);
    }
}

/// An expression goes on from where it starts.
pub(crate) proof fn expr_grows(g: GenV, e: ExprV)
    requires
        translation_blocks::open_at(g),
    ensures
        translate::expr(g, e) matches Ok((h, _)) ==> grown(g, h),
    decreases e, 2int,
{
    match e {
        ExprV::Int(_) => counted_grows(g, g),
        ExprV::LVal(name) => {
            counted_grows(g, g);
            match g.lookup(name) {
                Some(SymV::Var(v)) => def_grows(
                    g,
                    InstV::Load { dest: 0, src: IrOperand::Global(v) },
                ),
                Some(SymV::Array(v, dims)) => def_grows(
                    g,
                    InstV::GetElemPtr {
                        dest: 0,
                        ptr: IrOperand::Global(v),
                        index: IrOperand::Int(0),
                        elem_size: translate::size_from(dims, 1),
                    },
                ),
                _ => {},
            }
        },
        ExprV::Unary { op, expr } => {
            translation_blocks::expr_tidy(g, *expr);
            expr_grows(g, *expr);
            if let Ok((g1, v)) = translate::expr(g, *expr) {
                let minus = InstV::Arith {
                    dest: 0,
                    op: IrArithOp::Sub,
                    lhs: IrOperand::Int(0),
                    rhs: v,
                };
                let not = InstV::Icmp {
                    dest: 0,
                    op: IrCmpOp::Eq,
                    lhs: v,
                    rhs: IrOperand::Int(0),
                };
                let i = if op == UnaryOp::Minus {
                    minus
                } else {
                    not
                };
                def_grows(g1, i);
                if op != UnaryOp::Plus {
                    if let Ok((g2, _)) = g1.def(i) {
                        grown_on(g, g1, g2);
                    }
                }
            }
        },
        ExprV::Binary { op, lhs, rhs } => if op == BinaryOp::And || op == BinaryOp::Or {
            short_grows(g, e);
        } else {
            translation_blocks::expr_tidy(g, *lhs);
            expr_grows(g, *lhs);
            if let Ok((g1, l)) = translate::expr(g, *lhs) {
                same_scopes(g, g1);
                translation_blocks::expr_tidy(g1, *rhs);
                expr_grows(g1, *rhs);
                if let Ok((g2, r)) = translate::expr(g1, *rhs) {
                    grown_on(g, g1, g2);
                    let i = translate::binary_inst(op, l, r);
                    def_grows(g2, i);
                    if let Ok((g3, _)) = g2.def(i) {
                        grown_on(g, g2, g3);
                    }
                }
            }
        },
        ExprV::Call { name, args } => {
            translation_blocks::call_args_tidy(g, args, 0, Seq::empty());
            args_grow(g, args, 0, Seq::empty());
            if let Ok((g1, vals)) = translate::call_args(g, args, 0, Seq::empty()) {
                call_grows(g1, name, vals);
                if let Ok((g2, _)) = translate::call(g1, name, vals) {
                    grown_on(g, g1, g2);
                }
            }
        },
        ExprV::Index { .. } => index_grows(g, e),
        ExprV::InitList(_) => {},
        ExprV::Asm(code) => def_grows(g, InstV::Asm { dest: Some(0), code }),
    }
}

pub(crate) proof fn array_step_grows(g: GenV, base: IrOperand, index: IrOperand, size: i32)
    requires
        translation_blocks::open_at(g),
    ensures
        translate::array_step(g, base, index, size) matches Ok((h, _)) ==> grown(g, h),
{
    let i = InstV::GetElemPtr { dest: 0, ptr: base, index: IrOperand::Int(0), elem_size: size };
    def_grows(g, i);
    translation_blocks::def_tidy(g, i);
    if let Ok((g1, p)) = g.def(i) {
        let j = InstV::GetPtr { dest: 0, ptr: p, index, elem_size: size };
        def_grows(g1, j);
        if let Ok((g2, _)) = g1.def(j) {
            grown_on(g, g1, g2);
        }
    }
}

pub(crate) proof fn index_step_grows(
    g: GenV,
    pointer: bool,
    base: IrOperand,
    index: IrOperand,
    size: i32,
)
    requires
        translation_blocks::open_at(g),
    ensures
        translate::index_step(g, pointer, base, index, size) matches Ok((h, _)) ==> grown(g, h),
{
    def_grows(g, InstV::GetPtr { dest: 0, ptr: base, index, elem_size: size });
    array_step_grows(g, base, index, size);
}

proof fn element_grows(g: GenV, p: IrOperand, whole: bool, size: i32)
    requires
        translation_blocks::open_at(g),
    ensures
        translate::element(g, p, whole, size) matches Ok((h, _)) ==> grown(g, h),
{
    def_grows(g, InstV::Load { dest: 0, src: p });
    def_grows(
        g,
        InstV::GetElemPtr { dest: 0, ptr: p, index: IrOperand::Int(0), elem_size: size },
    );
}

/// An indexed array goes on from where it starts.
proof fn index_grows(g: GenV, e: ExprV)
    requires
        translation_blocks::open_at(g),
    ensures
        translate::index_value(g, e) matches Ok((h, _)) ==> grown(g, h),
    decreases e, 1int,
{
    if let ExprV::Index { array, index } = e {
        if translate::is_param(translate::base_symbol(g, e)) {
            param_ptr_grows(g, e);
            translation_blocks::param_ptr_tidy(g, e);
            if let Ok((g1, p)) = translate::param_ptr(g, e) {
                let whole = translate::index_count(e) >= translate::total_dims(g, e);
                let size = translate::size_from(
                    translate::base_dims(g, e),
                    translate::index_count(e),
                );
                element_grows(g1, p, whole, size);
                if let Ok((g2, _)) = translate::element(g1, p, whole, size) {
                    grown_on(g, g1, g2);
                }
            }
        } else {
            let dims = translate::base_dims(g, *array);
            let depth = translate::index_count(*array);
            expr_grows(g, *index);
            translation_blocks::expr_tidy(g, *index);
            if let Ok((g1, i)) = translate::expr(g, *index) {
                base_grows(g1, *array);
                translation_blocks::base_tidy(g1, *array);
                if let Ok((g2, b)) = translate::base(g1, *array) {
                    grown_on(g, g1, g2);
                    let pointer = *array is LVal && translate::is_ptr(
                        translate::base_symbol(g, *array),
                    );
                    let size = translate::size_from(dims, depth + 1);
                    index_step_grows(g2, pointer, b, i, size);
                    translation_blocks::index_step_tidy(g2, pointer, b, i, size);
                    if let Ok((g3, p)) = translate::index_step(g2, pointer, b, i, size) {
                        grown_on(g, g2, g3);
                        let whole = 1 + depth >= translate::total_dims(g, *array);
                        let row = translate::size_from(dims, depth + 2);
                        element_grows(g3, p, whole, row);
                        if let Ok((g4, _)) = translate::element(g3, p, whole, row) {
                            grown_on(g, g3, g4);
                        }
                    }
                }
            }
        }
    }
}

proof fn param_ptr_grows(g: GenV, e: ExprV)
    requires
        translation_blocks::open_at(g),
    ensures
        translate::param_ptr(g, e) matches Ok((h, _)) ==> grown(g, h),
    decreases e, 0int,
{
    if let ExprV::Index { array, index } = e {
        match *array {
            ExprV::LVal(name) => {
                if let Some(SymV::NdParam { name: n, dims }) = g.lookup(name) {
                    expr_grows(g, *index);
                    translation_blocks::expr_tidy(g, *index);
                    if let Ok((g1, i)) = translate::expr(g, *index) {
                        let step = InstV::GetPtr {
                            dest: 0,
                            ptr: IrOperand::Global(n),
                            index: i,
                            elem_size: translate::size_from(dims, 0),
                        };
                        def_grows(g1, step);
                        if let Ok((g2, _)) = g1.def(step) {
                            grown_on(g, g1, g2);
                        }
                    }
                }
            },
            _ => {
                param_ptr_grows(g, *array);
                translation_blocks::param_ptr_tidy(g, *array);
                if let Ok((g1, p)) = translate::param_ptr(g, *array) {
                    expr_grows(g1, *index);
                    translation_blocks::expr_tidy(g1, *index);
                    if let Ok((g2, i)) = translate::expr(g1, *index) {
                        grown_on(g, g1, g2);
                        let step = InstV::GetElemPtr {
                            dest: 0,
                            ptr: p,
                            index: i,
                            elem_size: translate::size_from(
                                translate::base_dims(g, *array),
                                translate::index_count(*array),
                            ),
                        };
                        def_grows(g2, step);
                        if let Ok((g3, _)) = g2.def(step) {
                            grown_on(g, g2, g3);
                        }
                    }
                }
            },
        }
    }
}

proof fn base_grows(g: GenV, e: ExprV)
    requires
        translation_blocks::open_at(g),
    ensures
        translate::base(g, e) matches Ok((h, _)) ==> grown(g, h),
    decreases e, 0int,
{
    match e {
        ExprV::LVal(_) => counted_grows(g, g),
        ExprV::Index { array, index } => {
            expr_grows(g, *index);
            translation_blocks::expr_tidy(g, *index);
            if let Ok((g1, i)) = translate::expr(g, *index) {
                base_grows(g1, *array);
                translation_blocks::base_tidy(g1, *array);
                if let Ok((g2, b)) = translate::base(g1, *array) {
                    grown_on(g, g1, g2);
                    let size = translate::size_from(
                        translate::base_dims(g, *array),
                        translate::index_count(*array) + 1,
                    );
                    array_step_grows(g2, b, i, size);
                    if let Ok((g3, _)) = translate::array_step(g2, b, i, size) {
                        grown_on(g, g2, g3);
                    }
                }
            }
        },
        _ => {},
    }
}

/// A short-circuit operator goes on from where it starts.
proof fn short_grows(g: GenV, e: ExprV)
    requires
        translation_blocks::open_at(g),
        is_short(e),
    ensures
        translate::expr(g, e) matches Ok((h, _)) ==> grown(g, h),
    decreases e, 0int,
{
    let op = e->Binary_op;
    let lhs = *e->lhs;
    let rhs = *e->rhs;
    translated_in_stages(g, op, lhs, rhs);
    if let Some(s) = stages(g, op, lhs, rhs) {
        stages_are_tidy(g, op, lhs, rhs);
        counted_grows(g, s.g1);
        same_scopes(g, s.g1);
        expr_grows(s.g1, lhs);
        grown_on(g, s.g1, s.g2);
        same_scopes_at_rhs(g, op, lhs, rhs);
        expr_grows(s.g5, rhs);
        stages_grow(g, op, lhs, rhs);
        grown_on(g, s.g2, s.g3);
        grown_on(g, s.g3, s.g4);
        grown_on(g, s.g4, s.g5);
        grown_on(g, s.g5, s.g6);
        grown_on(g, s.g6, s.g7);
        grown_on(g, s.g7, s.g9);
        let g10 = s.g9.start(s.end);
        grown_on(g, s.g9, g10);
        let load = InstV::Load { dest: 0, src: IrOperand::Global(s.sc) };
        def_grows(g10, load);
        if let Ok((g11, _)) = g10.def(load) {
            grown_on(g, g10, g11);
        }
    }
}

/// Arguments go on from where they start.
proof fn args_grow(g: GenV, args: Seq<ExprV>, k: int, done: Seq<IrOperand>)
    requires
        translation_blocks::open_at(g),
        0 <= k,
    ensures
        translate::call_args(g, args, k, done) matches Ok((h, _)) ==> grown(g, h),
    decreases args, args.len() - k,
{
    if k < args.len() {
        translation_blocks::expr_tidy(g, args[k]);
        expr_grows(g, args[k]);
        if let Ok((g1, v)) = translate::expr(g, args[k]) {
            same_scopes(g, g1);
            args_grow(g1, args, k + 1, done.push(v));
            if let Ok((g2, _)) = translate::call_args(g1, args, k + 1, done.push(v)) {
                grown_on(g, g1, g2);
            }
        }
    } else {
        counted_grows(g, g);
    }
}

/// A call goes on from where it starts.
proof fn call_grows(g: GenV, name: Seq<char>, args: Seq<IrOperand>)
    requires
        translation_blocks::open_at(g),
    ensures
        translate::call(g, name, args) matches Ok((h, v)) ==> grown(g, h) && h.b.blocks.len()
            == g.b.blocks.len() && h.program.func_names == g.program.func_names.push(name) && (
        if translate::call_ret(g, name) == Type::Void {
            v == IrOperand::Int(0) && h.b.blocks.last().instrs == g.b.blocks.last().instrs.push(
                InstV::Call { dest: None, func: g.program.func_names.len() as usize, args },
            )
        } else {
            v == IrOperand::Local(g.b.local_counter) && h.b.local_counter == g.b.local_counter + 1
                && h.b.blocks.last().instrs == g.b.blocks.last().instrs.push(
                InstV::Call {
                    dest: Some(g.b.local_counter),
                    func: g.program.func_names.len() as usize,
                    args,
                },
            )
        }),
{
    let func = g.program.func_names.len() as usize;
    let g1 = GenV {
        program: ir::ProgV { func_names: g.program.func_names.push(name), ..g.program },
        ..g
    };
    translation_blocks::same_blocks(g, g1);
    assert(grown(g, g1)) by {
        reveal(grown);
        reveal(longer);
        reveal(translation_blocks::tidy);
    }
    if translate::call_ret(g, name) == Type::Void {
        let i = InstV::Call { dest: None, func, args };
        emit_grows(g1, i);
        grown_on(g, g1, g1.emit(i));
    } else {
        let i = InstV::Call { dest: Some(0), func, args };
        def_grows(g1, i);
        if let Ok((g2, _)) = g1.def(i) {
            grown_on(g, g1, g2);
        }
    }
}

/// The names in scope stay the same.
pub(crate) proof fn same_scopes(g: GenV, h: GenV)
    requires
        grown(g, h),
    ensures
        same_names(g, h),
        h.loops == g.loops,
        g.b.local_counter <= h.b.local_counter,
        g.b.global_counter <= h.b.global_counter,
{
    reveal(same_names);
    reveal(grown);
    reveal(longer);
}

/// The names in scope at the second operand of a short-circuit operator are those after the first.
proof fn same_scopes_at_rhs(g: GenV, op: BinaryOp, lhs: ExprV, rhs: ExprV)
    requires
        stages(g, op, lhs, rhs) matches Some(s) && grown(g, s.g2),
    ensures
        ({
            let s = stages(g, op, lhs, rhs)->0;
            same_names(g, s.g5)
        }),
{
    let s = stages(g, op, lhs, rhs)->0;
    reveal(grown);
    reveal(same_names);
}

/// Names stand for the same in two states of a translation.
#[verifier::opaque]
pub open spec fn same_names(g: GenV, h: GenV) -> bool {
    &&& forall|name: Seq<char>| #[trigger] h.lookup(name) == g.lookup(name)
    &&& h.func_rets == g.func_rets
}

/// The names in an expression fit their places wherever names stand for the same.
pub(crate) proof fn same_named(g: GenV, h: GenV, n: usize, e: ExprV)
    requires
        same_names(g, h),
    ensures
        well_named(h, n, e) == well_named(g, n, e),
    decreases e, 0int,
{
    reveal(same_names);
    match e {
        ExprV::Unary { expr, .. } => same_named(g, h, n, *expr),
        ExprV::Binary { lhs, rhs, .. } => {
            same_named(g, h, n, *lhs);
            same_named(g, h, n, *rhs);
        },
        ExprV::Call { args, .. } => all_same_named(g, h, n, args, 0),
        ExprV::Index { array, index } => {
            same_base(g, h, e);
            same_named(g, h, n, *array);
            same_named(g, h, n, *index);
        },
        _ => {},
    }
}

/// The name under indices stands for the same wherever names do.
pub(crate) proof fn same_base(g: GenV, h: GenV, e: ExprV)
    requires
        same_names(g, h),
    ensures
        translate::base_symbol(h, e) == translate::base_symbol(g, e),
        translate::base_dims(h, e) == translate::base_dims(g, e),
        translate::total_dims(h, e) == translate::total_dims(g, e),
    decreases e,
{
    match e {
        ExprV::Index { array, .. } => same_base(g, h, *array),
        ExprV::LVal(name) => {
            reveal(same_names);
            assert(h.lookup(name) == g.lookup(name));
        },
        _ => {},
    }
}

proof fn all_same_named(g: GenV, h: GenV, n: usize, es: Seq<ExprV>, k: int)
    requires
        same_names(g, h),
    ensures
        all_well_named(h, n, es, k) == all_well_named(g, n, es, k),
    decreases es, es.len() - k,
{
    if 0 <= k < es.len() {
        same_named(g, h, n, es[k]);
        all_same_named(g, h, n, es, k + 1);
    }
}

// ── Walks ────────────────────────────────────────────────────────────────────

/// No two blocks have one label.
pub open spec fn labels_differ(blocks: Seq<BlockV>) -> bool {
    forall|a: int, b: int|
        0 <= a < b < blocks.len() ==> (#[trigger] blocks[a]).label != (#[trigger] blocks[b]).label
}

/// The functions with the given names do what the calls of a machine do.
pub open spec fn called<W>(m: MachineV<W>, calls: Calls<W>, names: Seq<Seq<char>>) -> bool {
    forall|w: W, i: usize, vals: Seq<i32>|
        i < names.len() ==> #[trigger] (m.call)(w, i, vals) == calls(w, names[i as int], vals)
}

/// The point that a translation has come to.
pub open spec fn here<W>(g: GenV, s: StateV<W>) -> SpotV<W> {
    SpotV {
        block: g.b.blocks.len() - 1,
        at: g.b.blocks.last().instrs.len() as int,
        state: s,
    }
}

/// Whether an operand is no SSA value from an index on.
pub open spec fn operand_below(v: IrOperand, n: usize) -> bool {
    v matches IrOperand::Local(l) ==> l < n
}

/// States that agree on SSA values below an index and on variables below another.
pub open spec fn same_below<W>(s: StateV<W>, t: StateV<W>, locals: usize, vars: usize) -> bool {
    &&& forall|l: usize| l < locals ==> #[trigger] t.locals[l] == s.locals[l]
    &&& forall|h: usize| h < vars ==> #[trigger] t.vars[h] == s.vars[h]
}

/// Whether the instructions between two states of a translation have computed a value.
pub open spec fn arrived<W>(
    m: MachineV<W>,
    k: usize,
    g: GenV,
    h: GenV,
    s: StateV<W>,
    c: SpotV<W>,
    r: (W, i32),
    v: IrOperand,
) -> bool {
    &&& c == here(h, c.state)
    &&& c.state.world == r.0
    &&& meaning::value(m, c.state, v) == r.1
    &&& operand_below(v, h.b.local_counter)
    &&& same_below(s, c.state, g.b.local_counter, k)
}

/// An instruction is carried out.
pub(crate) proof fn one_walked<W>(
    m: MachineV<W>,
    own: Set<usize>,
    blocks: Seq<BlockV>,
    names: Seq<Seq<char>>,
    g: GenV,
    h: GenV,
    i: InstV,
    s: StateV<W>,
)
    requires
        continues(blocks, names, h),
        h.b.blocks.len() == g.b.blocks.len(),
        h.b.blocks.last().instrs == g.b.blocks.last().instrs.push(i),
        !ir::terminator(i),
    ensures
        walked(m, own, blocks, here(g, s), 1) == here(h, meaning::step(m, own, s, i)),
{
    let n = h.b.blocks.len() - 1;
    let at = g.b.blocks.last().instrs.len() as int;
    assert(h.b.blocks[n].instrs[at] == i);
    assert(blocks[n].instrs[at] == i);
    assert(walked(m, own, blocks, here(g, s), 0) == here(g, s));
}

/// The start of a block that a translation has come to is where its label leads.
pub(crate) proof fn label_is_here<W>(
    blocks: Seq<BlockV>,
    names: Seq<Seq<char>>,
    g: GenV,
    label: usize,
    s: StateV<W>,
)
    requires
        continues(blocks, names, g),
        labels_differ(blocks),
        blocks.len() <= usize::MAX,
        g.b.blocks.last().label == label,
        g.b.blocks.last().instrs.len() == 0,
    ensures
        at_label(blocks, label, s) == here(g, s),
{
    let n = g.b.blocks.len() - 1;
    assert(blocks[n].label == label);
    cfg::label_position_is_last(blocks, label);
}

/// A branch is carried out.
pub(crate) proof fn branch_walked<W>(
    m: MachineV<W>,
    own: Set<usize>,
    blocks: Seq<BlockV>,
    names: Seq<Seq<char>>,
    g: GenV,
    h: GenV,
    i: InstV,
    s: StateV<W>,
)
    requires
        continues(blocks, names, h),
        h.b.blocks.len() == g.b.blocks.len(),
        h.b.blocks.last().instrs == g.b.blocks.last().instrs.push(i),
        i is Jump || i is Br,
    ensures
        walked(m, own, blocks, here(g, s), 1) == at_label(
            blocks,
            match i {
                InstV::Jump { target } => target,
                InstV::Br { cond, then_bb, else_bb } => if meaning::value(m, s, cond) != 0 {
                    then_bb
                } else {
                    else_bb
                },
                _ => 0,
            },
            s,
        ),
{
    let n = h.b.blocks.len() - 1;
    let at = g.b.blocks.last().instrs.len() as int;
    assert(h.b.blocks[n].instrs[at] == i);
    assert(blocks[n].instrs[at] == i);
    assert(walked(m, own, blocks, here(g, s), 0) == here(g, s));
}

/// A store and a jump are carried out.
proof fn finish_walked<W>(
    m: MachineV<W>,
    own: Set<usize>,
    blocks: Seq<BlockV>,
    names: Seq<Seq<char>>,
    g: GenV,
    v: IrOperand,
    sc: usize,
    end: usize,
    s: StateV<W>,
)
    requires
        translation_blocks::open_at(g),
        own.contains(sc),
        continues(
            blocks,
            names,
            g.emit(stored(v, sc)).emit(InstV::Jump { target: end }),
        ),
    ensures
        walked(m, own, blocks, here(g, s), 2) == at_label(
            blocks,
            end,
            StateV { vars: s.vars.insert(sc, meaning::value(m, s, v)), ..s },
        ),
{
    let h = g.emit(stored(v, sc));
    let k = h.emit(InstV::Jump { target: end });
    translation_blocks::emit_tidy(g, stored(v, sc));
    emit_grows(g, stored(v, sc));
    emit_grows(h, InstV::Jump { target: end });
    continues_before(blocks, names, h, k);
    one_walked(m, own, blocks, names, g, h, stored(v, sc), s);
    let t = meaning::step(m, own, s, stored(v, sc));
    branch_walked(m, own, blocks, names, h, k, InstV::Jump { target: end }, t);
    walked_on(m, own, blocks, here(g, s), 1, 1);
}

/// A result that goes to a new temporary is computed.
proof fn def_walked<W>(
    m: MachineV<W>,
    own: Set<usize>,
    blocks: Seq<BlockV>,
    names: Seq<Seq<char>>,
    k: usize,
    g: GenV,
    i: InstV,
    s: StateV<W>,
    val: i32,
)
    requires
        translation_blocks::open_at(g),
        i is Arith || i is Icmp || i is Load || i is GetPtr || i is GetElemPtr,
        meaning::step(m, own, s, ir::with_dest(i, g.b.local_counter)) == meaning::with_local(
            s,
            g.b.local_counter,
            val,
        ),
        g.def(i) matches Ok((h, _)) && continues(blocks, names, h),
    ensures
        ({
            let (h, v) = g.def(i)->Ok_0;
            arrived(
                m,
                k,
                g,
                h,
                s,
                walked(m, own, blocks, here(g, s), 1),
                (s.world, val),
                v,
            )
        }),
{
    def_grows(g, i);
    let (h, v) = g.def(i)->Ok_0;
    one_walked(m, own, blocks, names, g, h, ir::with_dest(i, g.b.local_counter), s);
}

/// A value that has been computed is followed by another.
proof fn arrived_on<W>(
    m: MachineV<W>,
    own: Set<usize>,
    blocks: Seq<BlockV>,
    k: usize,
    g: GenV,
    h1: GenV,
    h2: GenV,
    s: StateV<W>,
    n1: nat,
    n2: nat,
    r1: (W, i32),
    v1: IrOperand,
    r2: (W, i32),
    v2: IrOperand,
)
    requires
        arrived(m, k, g, h1, s, walked(m, own, blocks, here(g, s), n1), r1, v1),
        g.b.local_counter <= h1.b.local_counter,
        ({
            let t = walked(m, own, blocks, here(g, s), n1).state;
            arrived(m, k, h1, h2, t, walked(m, own, blocks, here(h1, t), n2), r2, v2)
        }),
    ensures
        arrived(m, k, g, h2, s, walked(m, own, blocks, here(g, s), n1 + n2), r2, v2),
        meaning::value(m, walked(m, own, blocks, here(g, s), n1 + n2).state, v1) == r1.1,
{
    walked_on(m, own, blocks, here(g, s), n1, n2);
    let t = walked(m, own, blocks, here(g, s), n1).state;
    let u = walked(m, own, blocks, here(g, s), n1 + n2).state;
    assert forall|l: usize| l < g.b.local_counter implies #[trigger] u.locals[l] == s.locals[l] by {
        assert(t.locals[l] == s.locals[l]);
    }
    assert forall|h: usize| h < k implies #[trigger] u.vars[h] == s.vars[h] by {
        assert(t.vars[h] == s.vars[h]);
    }
    if let IrOperand::Local(l) = v1 {
        assert(u.locals[l] == t.locals[l]);
    }
}

/// What the walk through the instructions of an expression starts from.
pub open spec fn ready<W>(
    m: MachineV<W>,
    own: Set<usize>,
    calls: Calls<W>,
    blocks: Seq<BlockV>,
    names: Seq<Seq<char>>,
    k: usize,
) -> bool {
    &&& labels_differ(blocks)
    &&& blocks.len() <= usize::MAX
    &&& names.len() <= usize::MAX
    &&& called(m, calls, names)
    &&& starts_at_zero(m)
    &&& forall|x: usize| x >= k ==> #[trigger] own.contains(x)
}

/// A state of a translation with the names of another in scope.
pub open spec fn alongside(g0: GenV, k: usize, g: GenV) -> bool {
    &&& translation_blocks::open_at(g)
    &&& same_names(g0, g)
    &&& k <= g.b.global_counter
}

/// Whether variables below an index have given values.
pub open spec fn has_vars<W>(s: StateV<W>, vars: Map<usize, i32>, k: usize) -> bool {
    forall|h: usize| h < k ==> #[trigger] s.vars[h] == vars[h]
}

/// Where a translation goes on from a state, the names of the state stay in scope.
pub(crate) proof fn alongside_on(g0: GenV, k: usize, g: GenV, h: GenV)
    requires
        alongside(g0, k, g),
        grown(g, h),
        translation_blocks::open_at(h),
    ensures
        alongside(g0, k, h),
        g.b.local_counter <= h.b.local_counter,
{
    same_scopes(g, h);
    reveal(same_names);
}

/// The instructions of an expression compute its value.
pub(crate) proof fn expr_walks<W>(
    m: MachineV<W>,
    own: Set<usize>,
    calls: Calls<W>,
    blocks: Seq<BlockV>,
    names: Seq<Seq<char>>,
    k: usize,
    g0: GenV,
    vars: Map<usize, i32>,
    g: GenV,
    s: StateV<W>,
    e: ExprV,
) -> (n: nat)
    requires
        ready(m, own, calls, blocks, names, k),
        alongside(g0, k, g),
        has_vars(s, vars, k),
        well_named(g0, k, e),
        translate::expr(g, e) matches Ok((h, _)) && continues(blocks, names, h),
    ensures
        ({
            let (h, v) = translate::expr(g, e)->Ok_0;
            arrived(
                m,
                k,
                g,
                h,
                s,
                walked(m, own, blocks, here(g, s), n),
                evaluated(m, own, calls, g0, vars, s.world, e),
                v,
            )
        }),
    decreases e, 2int,
{
    let (h, v) = translate::expr(g, e)->Ok_0;
    same_named(g0, g, k, e);
    match e {
        ExprV::Int(_) => 0,
        ExprV::LVal(name) => {
            assert(g.lookup(name) == g0.lookup(name)) by {
                reveal(same_names);
            }
            if let Some(SymV::Var(x)) = g.lookup(name) {
                assert(s.vars[x] == vars[x]);
                def_walked(
                    m,
                    own,
                    blocks,
                    names,
                    k,
                    g,
                    InstV::Load { dest: 0, src: IrOperand::Global(x) },
                    s,
                    variable(m, own, vars, s.world, x),
                );
                1
            } else if let Some(SymV::Array(x, dims)) = g.lookup(name) {
                let i = InstV::GetElemPtr {
                    dest: 0,
                    ptr: IrOperand::Global(x),
                    index: IrOperand::Int(0),
                    elem_size: translate::size_from(dims, 1),
                };
                def_walked(m, own, blocks, names, k, g, i, s, (m.address)(x));
                1
            } else {
                0
            }
        },
        ExprV::Unary { op, expr } => {
            let (g1, x) = translate::expr(g, *expr)->Ok_0;
            translation_blocks::expr_tidy(g, *expr);
            same_named(g0, g, k, *expr);
            expr_grows(g, *expr);
            let i = if op == UnaryOp::Minus {
                InstV::Arith { dest: 0, op: IrArithOp::Sub, lhs: IrOperand::Int(0), rhs: x }
            } else {
                InstV::Icmp { dest: 0, op: IrCmpOp::Eq, lhs: x, rhs: IrOperand::Int(0) }
            };
            def_grows(g1, i);
            if op != UnaryOp::Plus {
                continues_before(blocks, names, g1, h);
            }
            let n = expr_walks(m, own, calls, blocks, names, k, g0, vars, g, s, *expr);
            let r1 = evaluated(m, own, calls, g0, vars, s.world, *expr);
            let t = walked(m, own, blocks, here(g, s), n).state;
            if op == UnaryOp::Plus {
                n
            } else {
                let r2 = (r1.0, eval::unary_value(op, r1.1));
                def_walked(m, own, blocks, names, k, g1, i, t, r2.1);
                same_scopes(g, g1);
                arrived_on(m, own, blocks, k, g, g1, h, s, n, 1, r1, x, r2, v);
                n + 1
            }
        },
        ExprV::Binary { op, lhs, rhs } => if op == BinaryOp::And || op == BinaryOp::Or {
            short_walks(m, own, calls, blocks, names, k, g0, vars, g, s, e)
        } else {
            let (g1, l) = translate::expr(g, *lhs)->Ok_0;
            let (g2, x) = translate::expr(g1, *rhs)->Ok_0;
            translation_blocks::expr_tidy(g, *lhs);
            same_named(g0, g, k, *lhs);
            expr_grows(g, *lhs);
            alongside_on(g0, k, g, g1);
            translation_blocks::expr_tidy(g1, *rhs);
            same_named(g0, g1, k, *rhs);
            expr_grows(g1, *rhs);
            alongside_on(g0, k, g1, g2);
            let i = translate::binary_inst(op, l, x);
            def_grows(g2, i);
            continues_before(blocks, names, g2, h);
            continues_before(blocks, names, g1, g2);
            let n1 = expr_walks(m, own, calls, blocks, names, k, g0, vars, g, s, *lhs);
            let r1 = evaluated(m, own, calls, g0, vars, s.world, *lhs);
            let t1 = walked(m, own, blocks, here(g, s), n1).state;
            assert(has_vars(t1, vars, k)) by {
                assert forall|h: usize| h < k implies #[trigger] t1.vars[h] == vars[h] by {
                    assert(s.vars[h] == vars[h]);
                }
            }
            let n2 = expr_walks(m, own, calls, blocks, names, k, g0, vars, g1, t1, *rhs);
            let r2 = evaluated(m, own, calls, g0, vars, r1.0, *rhs);
            arrived_on(m, own, blocks, k, g, g1, g2, s, n1, n2, r1, l, r2, x);
            let t2 = walked(m, own, blocks, here(g, s), n1 + n2).state;
            let r3 = (r2.0, operated(op, r1.1, r2.1));
            operator_computes(m, own, t2, op, l, x, g2.b.local_counter, r1.1, r2.1);
            def_walked(m, own, blocks, names, k, g2, i, t2, r3.1);
            arrived_on(m, own, blocks, k, g, g2, h, s, n1 + n2, 1, r2, x, r3, v);
            n1 + n2 + 1
        },
        ExprV::Call { .. } => call_walks(m, own, calls, blocks, names, k, g0, vars, g, s, e),
        ExprV::Index { .. } => index_walks(m, own, calls, blocks, names, k, g0, vars, g, s, e),
        ExprV::InitList(_) => 0,
        ExprV::Asm(code) => {
            let i = InstV::Asm { dest: Some(0), code };
            def_grows(g, i);
            one_walked(m, own, blocks, names, g, h, ir::with_dest(i, g.b.local_counter), s);
            1
        },
    }
}

/// The address of an element behind a pointer or of an array is computed.
pub(crate) proof fn index_step_walks<W>(
    m: MachineV<W>,
    own: Set<usize>,
    blocks: Seq<BlockV>,
    names: Seq<Seq<char>>,
    k: usize,
    g: GenV,
    s: StateV<W>,
    pointer: bool,
    base: IrOperand,
    index: IrOperand,
    size: i32,
) -> (n: nat)
    requires
        starts_at_zero(m),
        translation_blocks::open_at(g),
        operand_below(index, g.b.local_counter),
        translate::index_step(g, pointer, base, index, size) matches Ok((h, _)) && continues(
            blocks,
            names,
            h,
        ),
    ensures
        ({
            let (h, v) = translate::index_step(g, pointer, base, index, size)->Ok_0;
            arrived(
                m,
                k,
                g,
                h,
                s,
                walked(m, own, blocks, here(g, s), n),
                (
                    s.world,
                    (m.element)(meaning::value(m, s, base), meaning::value(m, s, index), size),
                ),
                v,
            ) && v is Local
        }),
{
    let (h, v) = translate::index_step(g, pointer, base, index, size)->Ok_0;
    let b = meaning::value(m, s, base);
    let i = meaning::value(m, s, index);
    if pointer {
        let step = InstV::GetPtr { dest: 0, ptr: base, index, elem_size: size };
        def_walked(m, own, blocks, names, k, g, step, s, (m.element)(b, i, size));
        1
    } else {
        let zero = InstV::GetElemPtr {
            dest: 0,
            ptr: base,
            index: IrOperand::Int(0),
            elem_size: size,
        };
        let (g1, p) = g.def(zero)->Ok_0;
        def_grows(g, zero);
        translation_blocks::def_tidy(g, zero);
        let step = InstV::GetPtr { dest: 0, ptr: p, index, elem_size: size };
        def_grows(g1, step);
        continues_before(blocks, names, g1, h);
        def_walked(m, own, blocks, names, k, g, zero, s, b);
        let t = walked(m, own, blocks, here(g, s), 1).state;
        assert(meaning::value(m, t, index) == i) by {
            if let IrOperand::Local(l) = index {
                assert(t.locals[l] == s.locals[l]);
            }
        }
        let r = (s.world, (m.element)(b, i, size));
        def_walked(m, own, blocks, names, k, g1, step, t, r.1);
        arrived_on(m, own, blocks, k, g, g1, h, s, 1, 1, (s.world, b), p, r, v);
        2
    }
}

/// What stands at an address is read, or the address is that of a row.
proof fn element_walks<W>(
    m: MachineV<W>,
    own: Set<usize>,
    blocks: Seq<BlockV>,
    names: Seq<Seq<char>>,
    k: usize,
    g: GenV,
    s: StateV<W>,
    p: IrOperand,
    whole: bool,
    size: i32,
)
    requires
        starts_at_zero(m),
        translation_blocks::open_at(g),
        p is Local,
        translate::element(g, p, whole, size) matches Ok((h, _)) && continues(blocks, names, h),
    ensures
        ({
            let (h, v) = translate::element(g, p, whole, size)->Ok_0;
            let at = meaning::value(m, s, p);
            arrived(
                m,
                k,
                g,
                h,
                s,
                walked(m, own, blocks, here(g, s), 1),
                (
                    s.world,
                    if whole {
                        (m.load)(s.world, at)
                    } else {
                        at
                    },
                ),
                v,
            )
        }),
{
    let at = meaning::value(m, s, p);
    if whole {
        let i = InstV::Load { dest: 0, src: p };
        def_walked(m, own, blocks, names, k, g, i, s, (m.load)(s.world, at));
    } else {
        let i = InstV::GetElemPtr { dest: 0, ptr: p, index: IrOperand::Int(0), elem_size: size };
        def_walked(m, own, blocks, names, k, g, i, s, at);
    }
}

/// The address under indices is computed.
proof fn base_walks<W>(
    m: MachineV<W>,
    own: Set<usize>,
    calls: Calls<W>,
    blocks: Seq<BlockV>,
    names: Seq<Seq<char>>,
    k: usize,
    g0: GenV,
    vars: Map<usize, i32>,
    g: GenV,
    s: StateV<W>,
    e: ExprV,
) -> (n: nat)
    requires
        ready(m, own, calls, blocks, names, k),
        alongside(g0, k, g),
        has_vars(s, vars, k),
        e is LVal || e is Index,
        is_array(translate::base_symbol(g0, e)),
        !translate::is_param(translate::base_symbol(g0, e)),
        well_named(g0, k, e),
        translate::base(g, e) matches Ok((h, _)) && continues(blocks, names, h),
    ensures
        ({
            let (h, v) = translate::base(g, e)->Ok_0;
            arrived(
                m,
                k,
                g,
                h,
                s,
                walked(m, own, blocks, here(g, s), n),
                located(m, own, calls, g0, vars, s.world, e),
                v,
            )
        }),
    decreases e, 1int,
{
    let (h, v) = translate::base(g, e)->Ok_0;
    same_base(g0, g, e);
    match e {
        ExprV::LVal(name) => {
            reveal(same_names);
            assert(g.lookup(name) == g0.lookup(name));
            0
        },
        ExprV::Index { array, index } => {
            let (g1, i) = translate::expr(g, *index)->Ok_0;
            let (g2, b) = translate::base(g1, *array)->Ok_0;
            same_base(g0, g, *array);
            let size = translate::size_from(
                translate::base_dims(g, *array),
                translate::index_count(*array) + 1,
            );
            translation_blocks::expr_tidy(g, *index);
            translation_blocks::base_tidy(g1, *array);
            array_step_grows(g2, b, i, size);
            continues_before(blocks, names, g2, h);
            let n = under_walks(m, own, calls, blocks, names, k, g0, vars, g, s, e);
            let t = walked(m, own, blocks, here(g, s), n).state;
            assert(translate::index_step(g2, false, b, i, size) == translate::array_step(
                g2,
                b,
                i,
                size,
            ));
            let n2 = index_step_walks(m, own, blocks, names, k, g2, t, false, b, i, size);
            let w1 = evaluated(m, own, calls, g0, vars, s.world, *index).0;
            let r1 = located(m, own, calls, g0, vars, w1, *array);
            let r = located(m, own, calls, g0, vars, s.world, e);
            arrived_on(m, own, blocks, k, g, g2, h, s, n, n2, r1, b, r, v);
            n + n2
        },
        _ => 0,
    }
}

/// The last index of an array and then the address under it are computed.
proof fn under_walks<W>(
    m: MachineV<W>,
    own: Set<usize>,
    calls: Calls<W>,
    blocks: Seq<BlockV>,
    names: Seq<Seq<char>>,
    k: usize,
    g0: GenV,
    vars: Map<usize, i32>,
    g: GenV,
    s: StateV<W>,
    e: ExprV,
) -> (n: nat)
    requires
        ready(m, own, calls, blocks, names, k),
        alongside(g0, k, g),
        has_vars(s, vars, k),
        e is Index,
        is_array(translate::base_symbol(g0, e)),
        !translate::is_param(translate::base_symbol(g0, e)),
        well_named(g0, k, e),
        translate::expr(g, *e->index) matches Ok((g1, _)) && (translate::base(
            g1,
            *e->array,
        ) matches Ok((g2, _)) && continues(blocks, names, g2)),
    ensures
        ({
            let r1 = evaluated(m, own, calls, g0, vars, s.world, *e->index);
            let r2 = located(m, own, calls, g0, vars, r1.0, *e->array);
            let (g1, i) = translate::expr(g, *e->index)->Ok_0;
            let (g2, b) = translate::base(g1, *e->array)->Ok_0;
            let c = walked(m, own, blocks, here(g, s), n);
            &&& arrived(m, k, g, g2, s, c, r2, b)
            &&& meaning::value(m, c.state, i) == r1.1
            &&& operand_below(i, g2.b.local_counter)
            &&& alongside(g0, k, g2)
            &&& g.b.local_counter <= g2.b.local_counter
        }),
    decreases e, 0int,
{
    let array = *e->array;
    let index = *e->index;
    let (g1, i) = translate::expr(g, index)->Ok_0;
    let (g2, b) = translate::base(g1, array)->Ok_0;
    translation_blocks::expr_tidy(g, index);
    expr_grows(g, index);
    alongside_on(g0, k, g, g1);
    translation_blocks::base_tidy(g1, array);
    base_grows(g1, array);
    alongside_on(g0, k, g1, g2);
    continues_before(blocks, names, g1, g2);
    let n1 = expr_walks(m, own, calls, blocks, names, k, g0, vars, g, s, index);
    let r1 = evaluated(m, own, calls, g0, vars, s.world, index);
    let t1 = walked(m, own, blocks, here(g, s), n1).state;
    vars_stay(s, t1, vars, g.b.local_counter, k);
    let n2 = base_walks(m, own, calls, blocks, names, k, g0, vars, g1, t1, array);
    let r2 = located(m, own, calls, g0, vars, r1.0, array);
    arrived_on(m, own, blocks, k, g, g1, g2, s, n1, n2, r1, i, r2, b);
    n1 + n2
}

proof fn vars_stay<W>(s: StateV<W>, t: StateV<W>, vars: Map<usize, i32>, n: usize, k: usize)
    requires
        has_vars(s, vars, k),
        same_below(s, t, n, k),
    ensures
        has_vars(t, vars, k),
{
    assert forall|h: usize| h < k implies #[trigger] t.vars[h] == vars[h] by {
        assert(s.vars[h] == vars[h]);
    }
}

/// The address of an element of a parameter with several dimensions is computed.
proof fn param_walks<W>(
    m: MachineV<W>,
    own: Set<usize>,
    calls: Calls<W>,
    blocks: Seq<BlockV>,
    names: Seq<Seq<char>>,
    k: usize,
    g0: GenV,
    vars: Map<usize, i32>,
    g: GenV,
    s: StateV<W>,
    e: ExprV,
) -> (n: nat)
    requires
        ready(m, own, calls, blocks, names, k),
        alongside(g0, k, g),
        has_vars(s, vars, k),
        e is Index,
        translate::is_param(translate::base_symbol(g0, e)),
        well_named(g0, k, e),
        translate::param_ptr(g, e) matches Ok((h, _)) && continues(blocks, names, h),
    ensures
        ({
            let (h, v) = translate::param_ptr(g, e)->Ok_0;
            &&& v is Local
            &&& arrived(
                m,
                k,
                g,
                h,
                s,
                walked(m, own, blocks, here(g, s), n),
                located(m, own, calls, g0, vars, s.world, e),
                v,
            )
        }),
    decreases e, 0int,
{
    let array = *e->array;
    let index = *e->index;
    let (h, v) = translate::param_ptr(g, e)->Ok_0;
    same_base(g0, g, e);
    same_base(g0, g, array);
    let r = located(m, own, calls, g0, vars, s.world, e);
    if let ExprV::LVal(name) = array {
        let sym = g.lookup(name)->0;
        let p = IrOperand::Global(sym->NdParam_name);
        assert(translate::base_symbol(g, array) == Some(sym));
        assert(g0.lookup(name) == Some(sym)) by {
            reveal(same_names);
        }
        assert(located(m, own, calls, g0, vars, s.world, array) == (
            s.world,
            (m.address)(sym->NdParam_name),
        ));
        let (g1, i) = translate::expr(g, index)->Ok_0;
        translation_blocks::expr_tidy(g, index);
        expr_grows(g, index);
        same_scopes(g, g1);
        let step = InstV::GetPtr {
            dest: 0,
            ptr: p,
            index: i,
            elem_size: translate::size_from(sym->NdParam_dims, 0),
        };
        def_grows(g1, step);
        continues_before(blocks, names, g1, h);
        let n = expr_walks(m, own, calls, blocks, names, k, g0, vars, g, s, index);
        let r1 = evaluated(m, own, calls, g0, vars, s.world, index);
        let t = walked(m, own, blocks, here(g, s), n).state;
        def_walked(m, own, blocks, names, k, g1, step, t, r.1);
        arrived_on(m, own, blocks, k, g, g1, h, s, n, 1, r1, i, r, v);
        n + 1
    } else {
        let (g1, p) = translate::param_ptr(g, array)->Ok_0;
        let (g2, i) = translate::expr(g1, index)->Ok_0;
        translation_blocks::param_ptr_tidy(g, array);
        param_ptr_grows(g, array);
        alongside_on(g0, k, g, g1);
        translation_blocks::expr_tidy(g1, index);
        expr_grows(g1, index);
        alongside_on(g0, k, g1, g2);
        let step = InstV::GetElemPtr {
            dest: 0,
            ptr: p,
            index: i,
            elem_size: translate::size_from(
                translate::base_dims(g, array),
                translate::index_count(array),
            ),
        };
        def_grows(g2, step);
        continues_before(blocks, names, g2, h);
        continues_before(blocks, names, g1, g2);
        let n1 = param_walks(m, own, calls, blocks, names, k, g0, vars, g, s, array);
        let r1 = located(m, own, calls, g0, vars, s.world, array);
        let t1 = walked(m, own, blocks, here(g, s), n1).state;
        vars_stay(s, t1, vars, g.b.local_counter, k);
        let n2 = expr_walks(m, own, calls, blocks, names, k, g0, vars, g1, t1, index);
        let r2 = evaluated(m, own, calls, g0, vars, r1.0, index);
        arrived_on(m, own, blocks, k, g, g1, g2, s, n1, n2, r1, p, r2, i);
        let t2 = walked(m, own, blocks, here(g, s), n1 + n2).state;
        def_walked(m, own, blocks, names, k, g2, step, t2, r.1);
        arrived_on(m, own, blocks, k, g, g2, h, s, n1 + n2, 1, r2, i, r, v);
        n1 + n2 + 1
    }
}

/// The instructions of an indexed array read the element, or compute the address of the row.
proof fn index_walks<W>(
    m: MachineV<W>,
    own: Set<usize>,
    calls: Calls<W>,
    blocks: Seq<BlockV>,
    names: Seq<Seq<char>>,
    k: usize,
    g0: GenV,
    vars: Map<usize, i32>,
    g: GenV,
    s: StateV<W>,
    e: ExprV,
) -> (n: nat)
    requires
        ready(m, own, calls, blocks, names, k),
        alongside(g0, k, g),
        has_vars(s, vars, k),
        e is Index,
        well_named(g0, k, e),
        translate::expr(g, e) matches Ok((h, _)) && continues(blocks, names, h),
    ensures
        ({
            let (h, v) = translate::expr(g, e)->Ok_0;
            arrived(
                m,
                k,
                g,
                h,
                s,
                walked(m, own, blocks, here(g, s), n),
                evaluated(m, own, calls, g0, vars, s.world, e),
                v,
            )
        }),
    decreases e, 1int,
{
    let array = *e->array;
    let index = *e->index;
    let (h, v) = translate::expr(g, e)->Ok_0;
    same_base(g0, g, e);
    same_base(g0, g, array);
    assert(translate::expr(g, e) == translate::index_value(g, e));
    let r1 = located(m, own, calls, g0, vars, s.world, e);
    let r = evaluated(m, own, calls, g0, vars, s.world, e);
    if translate::is_param(translate::base_symbol(g, e)) {
        let (g1, p) = translate::param_ptr(g, e)->Ok_0;
        let whole = translate::index_count(e) >= translate::total_dims(g, e);
        let size = translate::size_from(translate::base_dims(g, e), translate::index_count(e));
        translation_blocks::param_ptr_tidy(g, e);
        param_ptr_grows(g, e);
        same_scopes(g, g1);
        element_grows(g1, p, whole, size);
        continues_before(blocks, names, g1, h);
        let n = param_walks(m, own, calls, blocks, names, k, g0, vars, g, s, e);
        let t = walked(m, own, blocks, here(g, s), n).state;
        element_walks(m, own, blocks, names, k, g1, t, p, whole, size);
        arrived_on(m, own, blocks, k, g, g1, h, s, n, 1, r1, p, r, v);
        n + 1
    } else {
        let dims = translate::base_dims(g, array);
        let depth = translate::index_count(array);
        let pointer = array is LVal && translate::is_ptr(translate::base_symbol(g, array));
        let size = translate::size_from(dims, depth + 1);
        let whole = 1 + depth >= translate::total_dims(g, array);
        let row = translate::size_from(dims, depth + 2);
        let (g1, i) = translate::expr(g, index)->Ok_0;
        let (g2, b) = translate::base(g1, array)->Ok_0;
        let (g3, p) = translate::index_step(g2, pointer, b, i, size)->Ok_0;
        translation_blocks::expr_tidy(g, index);
        translation_blocks::base_tidy(g1, array);
        translation_blocks::index_step_tidy(g2, pointer, b, i, size);
        index_step_grows(g2, pointer, b, i, size);
        element_grows(g3, p, whole, row);
        continues_before(blocks, names, g3, h);
        continues_before(blocks, names, g2, g3);
        let n = under_walks(m, own, calls, blocks, names, k, g0, vars, g, s, e);
        let t = walked(m, own, blocks, here(g, s), n).state;
        let n2 = index_step_walks(m, own, blocks, names, k, g2, t, pointer, b, i, size);
        let w1 = evaluated(m, own, calls, g0, vars, s.world, index).0;
        let r0 = located(m, own, calls, g0, vars, w1, array);
        arrived_on(m, own, blocks, k, g, g2, g3, s, n, n2, r0, b, r1, p);
        same_scopes(g2, g3);
        let t3 = walked(m, own, blocks, here(g, s), n + n2).state;
        element_walks(m, own, blocks, names, k, g3, t3, p, whole, row);
        arrived_on(m, own, blocks, k, g, g3, h, s, n + n2, 1, r1, p, r, v);
        n + n2 + 1
    }
}

/// The address that indices lead to goes on from where they start.
pub(crate) proof fn array_target_grows(
    g: GenV,
    p: IrOperand,
    pointer: bool,
    dims: Seq<i32>,
    index: Seq<ExprV>,
    k: int,
)
    requires
        translation_blocks::open_at(g),
    ensures
        translate::array_target(g, p, pointer, dims, index, k) matches Ok((h, _)) ==> grown(g, h)
            && translation_blocks::open_at(h),
    decreases index.len() - k,
{
    if 0 <= k < index.len() {
        expr_grows(g, index[k]);
        translation_blocks::expr_tidy(g, index[k]);
        if let Ok((g1, i)) = translate::expr(g, index[k]) {
            let size = translate::size_from(dims, k + 1);
            index_step_grows(g1, pointer, p, i, size);
            translation_blocks::index_step_tidy(g1, pointer, p, i, size);
            if let Ok((g2, q)) = translate::index_step(g1, pointer, p, i, size) {
                grown_on(g, g1, g2);
                array_target_grows(g2, q, pointer, dims, index, k + 1);
                if let Ok((h, _)) = translate::array_target(g2, q, pointer, dims, index, k + 1) {
                    grown_on(g, g2, h);
                }
            }
        }
    } else {
        counted_grows(g, g);
    }
}

pub(crate) proof fn param_target_grows(
    g: GenV,
    p: IrOperand,
    dims: Seq<i32>,
    index: Seq<ExprV>,
    k: int,
)
    requires
        translation_blocks::open_at(g),
    ensures
        translate::param_target(g, p, dims, index, k) matches Ok((h, _)) ==> grown(g, h)
            && translation_blocks::open_at(h),
    decreases index.len() - k,
{
    if 0 <= k < index.len() {
        expr_grows(g, index[k]);
        translation_blocks::expr_tidy(g, index[k]);
        if let Ok((g1, i)) = translate::expr(g, index[k]) {
            let step = InstV::GetElemPtr {
                dest: 0,
                ptr: p,
                index: i,
                elem_size: translate::size_from(dims, k),
            };
            def_grows(g1, step);
            translation_blocks::def_tidy(g1, step);
            if let Ok((g2, q)) = g1.def(step) {
                grown_on(g, g1, g2);
                param_target_grows(g2, q, dims, index, k + 1);
                if let Ok((h, _)) = translate::param_target(g2, q, dims, index, k + 1) {
                    grown_on(g, g2, h);
                }
            }
        }
    } else {
        counted_grows(g, g);
    }
}

/// The translation of the address of an indexed element of what a name stands for.
pub open spec fn element_target(g: GenV, sym: SymV, index: Seq<ExprV>) -> translate::Step<
    IrOperand,
> {
    match sym {
        SymV::NdParam { name: n, dims } => match translate::expr(g, index[0]) {
            Err(e) => Err(e),
            Ok((g2, i)) => match g2.def(
                InstV::GetPtr {
                    dest: 0,
                    ptr: IrOperand::Global(n),
                    index: i,
                    elem_size: translate::size_from(dims, 0),
                },
            ) {
                Err(e) => Err(e),
                Ok((g3, p)) => translate::param_target(g3, p, dims, index, 1),
            },
        },
        SymV::Array(n, dims) => translate::array_target(
            g,
            IrOperand::Global(n),
            false,
            dims,
            index,
            0,
        ),
        _ => translate::array_target(
            g,
            IrOperand::Global(array_index(sym)),
            true,
            Seq::empty(),
            index,
            0,
        ),
    }
}

pub(crate) proof fn element_target_grows(g: GenV, sym: SymV, index: Seq<ExprV>)
    requires
        translation_blocks::open_at(g),
    ensures
        element_target(g, sym, index) matches Ok((h, _)) ==> grown(g, h)
            && translation_blocks::open_at(h),
{
    match sym {
        SymV::NdParam { name: n, dims } => {
            expr_grows(g, index[0]);
            translation_blocks::expr_tidy(g, index[0]);
            if let Ok((g2, i)) = translate::expr(g, index[0]) {
                let step = InstV::GetPtr {
                    dest: 0,
                    ptr: IrOperand::Global(n),
                    index: i,
                    elem_size: translate::size_from(dims, 0),
                };
                def_grows(g2, step);
                translation_blocks::def_tidy(g2, step);
                if let Ok((g3, p)) = g2.def(step) {
                    grown_on(g, g2, g3);
                    param_target_grows(g3, p, dims, index, 1);
                    if let Ok((h, _)) = translate::param_target(g3, p, dims, index, 1) {
                        grown_on(g, g3, h);
                    }
                }
            }
        },
        SymV::Array(n, dims) => array_target_grows(
            g,
            IrOperand::Global(n),
            false,
            dims,
            index,
            0,
        ),
        _ => array_target_grows(
            g,
            IrOperand::Global(array_index(sym)),
            true,
            Seq::empty(),
            index,
            0,
        ),
    }
}

/// The address that indices lead to is computed.
proof fn array_target_walks<W>(
    m: MachineV<W>,
    own: Set<usize>,
    calls: Calls<W>,
    blocks: Seq<BlockV>,
    names: Seq<Seq<char>>,
    k: usize,
    g0: GenV,
    vars: Map<usize, i32>,
    g: GenV,
    s: StateV<W>,
    sym: SymV,
    p: IrOperand,
    index: Seq<ExprV>,
    at: int,
) -> (n: nat)
    requires
        ready(m, own, calls, blocks, names, k),
        alongside(g0, k, g),
        has_vars(s, vars, k),
        0 <= at <= index.len(),
        all_well_named(g0, k, index, at),
        sym is Array || sym is PtrArray,
        at < index.len() || p is Local,
        operand_below(p, g.b.local_counter),
        ({
            let (pointer, dims) = match sym {
                SymV::Array(_, dims) => (false, dims),
                _ => (true, Seq::empty()),
            };
            translate::array_target(g, p, pointer, dims, index, at) matches Ok((h, _))
                && continues(blocks, names, h)
        }),
    ensures
        ({
            let (pointer, dims) = match sym {
                SymV::Array(_, dims) => (false, dims),
                _ => (true, Seq::empty()),
            };
            let (h, v) = translate::array_target(g, p, pointer, dims, index, at)->Ok_0;
            &&& v is Local
            &&& arrived(
                m,
                k,
                g,
                h,
                s,
                walked(m, own, blocks, here(g, s), n),
                target(
                    m,
                    own,
                    calls,
                    g0,
                    vars,
                    s.world,
                    sym,
                    meaning::value(m, s, p),
                    index,
                    at,
                ),
                v,
            )
        }),
    decreases index.len() - at,
{
    if at < index.len() {
        let (pointer, dims) = match sym {
            SymV::Array(_, dims) => (false, dims),
            _ => (true, Seq::empty()),
        };
        let (h, v) = translate::array_target(g, p, pointer, dims, index, at)->Ok_0;
        let (g1, i) = translate::expr(g, index[at])->Ok_0;
        let size = translate::size_from(dims, at + 1);
        let (g2, q) = translate::index_step(g1, pointer, p, i, size)->Ok_0;
        translation_blocks::expr_tidy(g, index[at]);
        expr_grows(g, index[at]);
        alongside_on(g0, k, g, g1);
        translation_blocks::index_step_tidy(g1, pointer, p, i, size);
        index_step_grows(g1, pointer, p, i, size);
        alongside_on(g0, k, g1, g2);
        array_target_grows(g2, q, pointer, dims, index, at + 1);
        continues_before(blocks, names, g2, h);
        continues_before(blocks, names, g1, g2);
        let n1 = expr_walks(m, own, calls, blocks, names, k, g0, vars, g, s, index[at]);
        let r1 = evaluated(m, own, calls, g0, vars, s.world, index[at]);
        let t1 = walked(m, own, blocks, here(g, s), n1).state;
        vars_stay(s, t1, vars, g.b.local_counter, k);
        let from = meaning::value(m, s, p);
        assert(meaning::value(m, t1, p) == from) by {
            if let IrOperand::Local(l) = p {
                assert(t1.locals[l] == s.locals[l]);
            }
        }
        let n2 = index_step_walks(m, own, blocks, names, k, g1, t1, pointer, p, i, size);
        let r2 = (r1.0, (m.element)(from, r1.1, size));
        arrived_on(m, own, blocks, k, g, g1, g2, s, n1, n2, r1, i, r2, q);
        let t2 = walked(m, own, blocks, here(g, s), n1 + n2).state;
        vars_stay(s, t2, vars, g.b.local_counter, k);
        let n3 = array_target_walks(
            m,
            own,
            calls,
            blocks,
            names,
            k,
            g0,
            vars,
            g2,
            t2,
            sym,
            q,
            index,
            at + 1,
        );
        let r3 = target(m, own, calls, g0, vars, s.world, sym, from, index, at);
        assert(step_size(Some(sym), at) == size);
        assert(r3 == target(m, own, calls, g0, vars, r2.0, sym, r2.1, index, at + 1));
        arrived_on(m, own, blocks, k, g, g2, h, s, n1 + n2, n3, r2, q, r3, v);
        n1 + n2 + n3
    } else {
        0
    }
}

proof fn param_target_walks<W>(
    m: MachineV<W>,
    own: Set<usize>,
    calls: Calls<W>,
    blocks: Seq<BlockV>,
    names: Seq<Seq<char>>,
    k: usize,
    g0: GenV,
    vars: Map<usize, i32>,
    g: GenV,
    s: StateV<W>,
    sym: SymV,
    p: IrOperand,
    index: Seq<ExprV>,
    at: int,
) -> (n: nat)
    requires
        ready(m, own, calls, blocks, names, k),
        alongside(g0, k, g),
        has_vars(s, vars, k),
        0 <= at <= index.len(),
        all_well_named(g0, k, index, at),
        sym is NdParam,
        p is Local,
        operand_below(p, g.b.local_counter),
        translate::param_target(g, p, sym->NdParam_dims, index, at) matches Ok((h, _))
            && continues(blocks, names, h),
    ensures
        ({
            let (h, v) = translate::param_target(g, p, sym->NdParam_dims, index, at)->Ok_0;
            &&& v is Local
            &&& arrived(
                m,
                k,
                g,
                h,
                s,
                walked(m, own, blocks, here(g, s), n),
                target(
                    m,
                    own,
                    calls,
                    g0,
                    vars,
                    s.world,
                    sym,
                    meaning::value(m, s, p),
                    index,
                    at,
                ),
                v,
            )
        }),
    decreases index.len() - at,
{
    if at < index.len() {
        let dims = sym->NdParam_dims;
        let (h, v) = translate::param_target(g, p, dims, index, at)->Ok_0;
        let (g1, i) = translate::expr(g, index[at])->Ok_0;
        let step = InstV::GetElemPtr {
            dest: 0,
            ptr: p,
            index: i,
            elem_size: translate::size_from(dims, at),
        };
        let (g2, q) = g1.def(step)->Ok_0;
        translation_blocks::expr_tidy(g, index[at]);
        expr_grows(g, index[at]);
        alongside_on(g0, k, g, g1);
        translation_blocks::def_tidy(g1, step);
        def_grows(g1, step);
        alongside_on(g0, k, g1, g2);
        param_target_grows(g2, q, dims, index, at + 1);
        continues_before(blocks, names, g2, h);
        continues_before(blocks, names, g1, g2);
        let n1 = expr_walks(m, own, calls, blocks, names, k, g0, vars, g, s, index[at]);
        let r1 = evaluated(m, own, calls, g0, vars, s.world, index[at]);
        let t1 = walked(m, own, blocks, here(g, s), n1).state;
        let from = meaning::value(m, s, p);
        assert(meaning::value(m, t1, p) == from) by {
            assert(t1.locals[p->Local_0] == s.locals[p->Local_0]);
        }
        let r2 = (r1.0, (m.element)(from, r1.1, translate::size_from(dims, at)));
        def_walked(m, own, blocks, names, k, g1, step, t1, r2.1);
        arrived_on(m, own, blocks, k, g, g1, g2, s, n1, 1, r1, i, r2, q);
        let t2 = walked(m, own, blocks, here(g, s), n1 + 1).state;
        vars_stay(s, t2, vars, g.b.local_counter, k);
        let n3 = param_target_walks(
            m,
            own,
            calls,
            blocks,
            names,
            k,
            g0,
            vars,
            g2,
            t2,
            sym,
            q,
            index,
            at + 1,
        );
        let r3 = target(m, own, calls, g0, vars, s.world, sym, from, index, at);
        assert(r3 == target(m, own, calls, g0, vars, r2.0, sym, r2.1, index, at + 1));
        arrived_on(m, own, blocks, k, g, g2, h, s, n1 + 1, n3, r2, q, r3, v);
        n1 + 1 + n3
    } else {
        0
    }
}

/// The address of an indexed element of what a name stands for is computed.
pub(crate) proof fn element_target_walks<W>(
    m: MachineV<W>,
    own: Set<usize>,
    calls: Calls<W>,
    blocks: Seq<BlockV>,
    names: Seq<Seq<char>>,
    k: usize,
    g0: GenV,
    vars: Map<usize, i32>,
    g: GenV,
    s: StateV<W>,
    sym: SymV,
    index: Seq<ExprV>,
) -> (n: nat)
    requires
        ready(m, own, calls, blocks, names, k),
        alongside(g0, k, g),
        has_vars(s, vars, k),
        index.len() > 0,
        all_well_named(g0, k, index, 0),
        is_array(Some(sym)),
        element_target(g, sym, index) matches Ok((h, _)) && continues(blocks, names, h),
    ensures
        ({
            let (h, v) = element_target(g, sym, index)->Ok_0;
            &&& v is Local
            &&& arrived(
                m,
                k,
                g,
                h,
                s,
                walked(m, own, blocks, here(g, s), n),
                target(
                    m,
                    own,
                    calls,
                    g0,
                    vars,
                    s.world,
                    sym,
                    (m.address)(array_index(sym)),
                    index,
                    0,
                ),
                v,
            )
        }),
{
    let first = IrOperand::Global(array_index(sym));
    if let SymV::NdParam { name: x, dims } = sym {
        let (h, v) = element_target(g, sym, index)->Ok_0;
        let (g1, i) = translate::expr(g, index[0])->Ok_0;
        let step = InstV::GetPtr {
            dest: 0,
            ptr: first,
            index: i,
            elem_size: translate::size_from(dims, 0),
        };
        let (g2, q) = g1.def(step)->Ok_0;
        translation_blocks::expr_tidy(g, index[0]);
        expr_grows(g, index[0]);
        alongside_on(g0, k, g, g1);
        translation_blocks::def_tidy(g1, step);
        def_grows(g1, step);
        alongside_on(g0, k, g1, g2);
        param_target_grows(g2, q, dims, index, 1);
        continues_before(blocks, names, g2, h);
        continues_before(blocks, names, g1, g2);
        let n1 = expr_walks(m, own, calls, blocks, names, k, g0, vars, g, s, index[0]);
        let r1 = evaluated(m, own, calls, g0, vars, s.world, index[0]);
        let t1 = walked(m, own, blocks, here(g, s), n1).state;
        let from = (m.address)(x);
        let r2 = (r1.0, (m.element)(from, r1.1, translate::size_from(dims, 0)));
        def_walked(m, own, blocks, names, k, g1, step, t1, r2.1);
        arrived_on(m, own, blocks, k, g, g1, g2, s, n1, 1, r1, i, r2, q);
        let t2 = walked(m, own, blocks, here(g, s), n1 + 1).state;
        vars_stay(s, t2, vars, g.b.local_counter, k);
        let n3 = param_target_walks(
            m,
            own,
            calls,
            blocks,
            names,
            k,
            g0,
            vars,
            g2,
            t2,
            sym,
            q,
            index,
            1,
        );
        let r3 = target(m, own, calls, g0, vars, s.world, sym, from, index, 0);
        assert(r3 == target(m, own, calls, g0, vars, r2.0, sym, r2.1, index, 1));
        arrived_on(m, own, blocks, k, g, g2, h, s, n1 + 1, n3, r2, q, r3, v);
        n1 + 1 + n3
    } else {
        array_target_walks(
            m,
            own,
            calls,
            blocks,
            names,
            k,
            g0,
            vars,
            g,
            s,
            sym,
            first,
            index,
            0,
        )
    }
}

/// The address of the first element of an array goes on from where it starts.
proof fn inner_ptr_grows(g: GenV, p: IrOperand, dims: Seq<i32>, k: int)
    requires
        translation_blocks::open_at(g),
    ensures
        translate::inner_ptr(g, p, dims, k) matches Ok((h, _)) ==> grown(g, h)
            && translation_blocks::open_at(h),
    decreases dims.len() - k,
{
    if k < dims.len() {
        let i = InstV::GetElemPtr {
            dest: 0,
            ptr: p,
            index: IrOperand::Int(0),
            elem_size: translate::size_from(dims, k + 1),
        };
        def_grows(g, i);
        translation_blocks::def_tidy(g, i);
        if let Ok((g1, q)) = g.def(i) {
            inner_ptr_grows(g1, q, dims, k + 1);
            if let Ok((h, _)) = translate::inner_ptr(g1, q, dims, k + 1) {
                grown_on(g, g1, h);
            }
        }
    } else {
        counted_grows(g, g);
    }
}

pub(crate) proof fn elem_ptr_grows(g: GenV, base: usize, dims: Seq<i32>, flat: i32)
    requires
        translation_blocks::open_at(g),
    ensures
        translate::elem_ptr(g, base, dims, flat) matches Ok((h, _)) ==> grown(g, h)
            && translation_blocks::open_at(h),
{
    if dims.len() == 0 {
        counted_grows(g, g);
    } else {
        inner_ptr_grows(g, IrOperand::Global(base), dims, 0);
        if let Ok((g1, p)) = translate::inner_ptr(g, IrOperand::Global(base), dims, 0) {
            let i = InstV::GetPtr { dest: 0, ptr: p, index: IrOperand::Int(flat), elem_size: 4 };
            def_grows(g1, i);
            translation_blocks::def_tidy(g1, i);
            if let Ok((h, _)) = g1.def(i) {
                grown_on(g, g1, h);
            }
        }
    }
}

proof fn inner_ptr_walks<W>(
    m: MachineV<W>,
    own: Set<usize>,
    blocks: Seq<BlockV>,
    names: Seq<Seq<char>>,
    k: usize,
    g: GenV,
    s: StateV<W>,
    p: IrOperand,
    dims: Seq<i32>,
    at: int,
) -> (n: nat)
    requires
        starts_at_zero(m),
        translation_blocks::open_at(g),
        operand_below(p, g.b.local_counter),
        translate::inner_ptr(g, p, dims, at) matches Ok((h, _)) && continues(blocks, names, h),
    ensures
        ({
            let (h, v) = translate::inner_ptr(g, p, dims, at)->Ok_0;
            arrived(
                m,
                k,
                g,
                h,
                s,
                walked(m, own, blocks, here(g, s), n),
                (s.world, meaning::value(m, s, p)),
                v,
            )
        }),
    decreases dims.len() - at,
{
    if at < dims.len() {
        let (h, v) = translate::inner_ptr(g, p, dims, at)->Ok_0;
        let i = InstV::GetElemPtr {
            dest: 0,
            ptr: p,
            index: IrOperand::Int(0),
            elem_size: translate::size_from(dims, at + 1),
        };
        let (g1, q) = g.def(i)->Ok_0;
        def_grows(g, i);
        translation_blocks::def_tidy(g, i);
        inner_ptr_grows(g1, q, dims, at + 1);
        continues_before(blocks, names, g1, h);
        let r = (s.world, meaning::value(m, s, p));
        def_walked(m, own, blocks, names, k, g, i, s, r.1);
        let t = walked(m, own, blocks, here(g, s), 1).state;
        let n = inner_ptr_walks(m, own, blocks, names, k, g1, t, q, dims, at + 1);
        arrived_on(m, own, blocks, k, g, g1, h, s, 1, n, r, q, r, v);
        1 + n
    } else {
        0
    }
}

/// The address of an element by its position is computed.
pub(crate) proof fn elem_ptr_walks<W>(
    m: MachineV<W>,
    own: Set<usize>,
    blocks: Seq<BlockV>,
    names: Seq<Seq<char>>,
    k: usize,
    g: GenV,
    s: StateV<W>,
    base: usize,
    dims: Seq<i32>,
    flat: i32,
) -> (n: nat)
    requires
        starts_at_zero(m),
        translation_blocks::open_at(g),
        dims.len() > 0,
        translate::elem_ptr(g, base, dims, flat) matches Ok((h, _)) && continues(blocks, names, h),
    ensures
        ({
            let (h, v) = translate::elem_ptr(g, base, dims, flat)->Ok_0;
            &&& v is Local
            &&& arrived(
                m,
                k,
                g,
                h,
                s,
                walked(m, own, blocks, here(g, s), n),
                (s.world, (m.element)((m.address)(base), flat, 4)),
                v,
            )
        }),
{
    let first = IrOperand::Global(base);
    let (h, v) = translate::elem_ptr(g, base, dims, flat)->Ok_0;
    let (g1, p) = translate::inner_ptr(g, first, dims, 0)->Ok_0;
    let i = InstV::GetPtr { dest: 0, ptr: p, index: IrOperand::Int(flat), elem_size: 4 };
    inner_ptr_grows(g, first, dims, 0);
    same_scopes(g, g1);
    def_grows(g1, i);
    continues_before(blocks, names, g1, h);
    let n = inner_ptr_walks(m, own, blocks, names, k, g, s, first, dims, 0);
    let t = walked(m, own, blocks, here(g, s), n).state;
    let r1 = (s.world, (m.address)(base));
    let r = (s.world, (m.element)((m.address)(base), flat, 4));
    def_walked(m, own, blocks, names, k, g1, i, t, r.1);
    arrived_on(m, own, blocks, k, g, g1, h, s, n, 1, r1, p, r, v);
    n + 1
}

/// The instructions of a call compute the values of its arguments and make it.
proof fn call_walks<W>(
    m: MachineV<W>,
    own: Set<usize>,
    calls: Calls<W>,
    blocks: Seq<BlockV>,
    names: Seq<Seq<char>>,
    k: usize,
    g0: GenV,
    vars: Map<usize, i32>,
    g: GenV,
    s: StateV<W>,
    e: ExprV,
) -> (n: nat)
    requires
        ready(m, own, calls, blocks, names, k),
        alongside(g0, k, g),
        has_vars(s, vars, k),
        e is Call,
        well_named(g0, k, e),
        translate::expr(g, e) matches Ok((h, _)) && continues(blocks, names, h),
    ensures
        ({
            let (h, v) = translate::expr(g, e)->Ok_0;
            arrived(
                m,
                k,
                g,
                h,
                s,
                walked(m, own, blocks, here(g, s), n),
                evaluated(m, own, calls, g0, vars, s.world, e),
                v,
            )
        }),
    decreases e, 0int,
{
    let name = e->name;
    let args = e->args;
    let (h, v) = translate::expr(g, e)->Ok_0;
    let (g1, ops) = translate::call_args(g, args, 0, Seq::empty())->Ok_0;
    translation_blocks::call_args_tidy(g, args, 0, Seq::empty());
    all_same_named(g0, g, k, args, 0);
    args_grow(g, args, 0, Seq::empty());
    alongside_on(g0, k, g, g1);
    assert(g1.func_rets == g0.func_rets) by {
        reveal(same_names);
    }
    call_grows(g1, name, ops);
    continues_before(blocks, names, g1, h);
    assert(meaning::values(m, s, Seq::empty()) =~= Seq::empty());
    let n = args_walk(
        m,
        own,
        calls,
        blocks,
        names,
        k,
        g0,
        vars,
        g,
        s,
        args,
        0,
        Seq::empty(),
    );
    let r1 = evaluated_all(m, own, calls, g0, vars, s.world, args, 0);
    let t = walked(m, own, blocks, here(g, s), n).state;
    assert(Seq::<i32>::empty() + r1.1 =~= r1.1);
    let f = g1.program.func_names.len();
    assert(h.program.func_names[f as int] == name);
    assert(names[f as int] == name);
    let i = InstV::Call {
        dest: if translate::call_ret(g1, name) == Type::Void {
            None
        } else {
            Some(g1.b.local_counter)
        },
        func: f as usize,
        args: ops,
    };
    one_walked(m, own, blocks, names, g1, h, i, t);
    walked_on(m, own, blocks, here(g, s), n, 1);
    let u = walked(m, own, blocks, here(g, s), n + 1).state;
    assert((m.call)(t.world, f as usize, r1.1) == calls(t.world, name, r1.1));
    assert forall|l: usize| l < g.b.local_counter implies #[trigger] u.locals[l]
        == s.locals[l] by {
        assert(t.locals[l] == s.locals[l]);
    }
    assert forall|x: usize| x < k implies #[trigger] u.vars[x] == s.vars[x] by {
        assert(t.vars[x] == s.vars[x]);
    }
    n + 1
}

/// The instruction of a binary operator computes its value.
proof fn operator_computes<W>(
    m: MachineV<W>,
    own: Set<usize>,
    s: StateV<W>,
    op: BinaryOp,
    l: IrOperand,
    r: IrOperand,
    dest: usize,
    a: i32,
    b: i32,
)
    requires
        op != BinaryOp::And,
        op != BinaryOp::Or,
        meaning::value(m, s, l) == a,
        meaning::value(m, s, r) == b,
    ensures
        meaning::step(m, own, s, ir::with_dest(translate::binary_inst(op, l, r), dest))
            == meaning::with_local(s, dest, operated(op, a, b)),
{
}

/// The instructions of arguments compute their values.
proof fn args_walk<W>(
    m: MachineV<W>,
    own: Set<usize>,
    calls: Calls<W>,
    blocks: Seq<BlockV>,
    names: Seq<Seq<char>>,
    k: usize,
    g0: GenV,
    vars: Map<usize, i32>,
    g: GenV,
    s: StateV<W>,
    args: Seq<ExprV>,
    i: int,
    done: Seq<IrOperand>,
) -> (n: nat)
    requires
        ready(m, own, calls, blocks, names, k),
        alongside(g0, k, g),
        has_vars(s, vars, k),
        0 <= i,
        all_well_named(g0, k, args, i),
        forall|x: int| 0 <= x < done.len() ==> operand_below(#[trigger] done[x], g.b.local_counter),
        translate::call_args(g, args, i, done) matches Ok((h, _)) && continues(blocks, names, h),
    ensures
        ({
            let (h, ops) = translate::call_args(g, args, i, done)->Ok_0;
            let c = walked(m, own, blocks, here(g, s), n);
            let r = evaluated_all(m, own, calls, g0, vars, s.world, args, i);
            &&& c == here(h, c.state)
            &&& c.state.world == r.0
            &&& meaning::values(m, c.state, ops) == meaning::values(m, s, done) + r.1
            &&& same_below(s, c.state, g.b.local_counter, k)
        }),
    decreases args, args.len() - i,
{
    let (h, ops) = translate::call_args(g, args, i, done)->Ok_0;
    if i < args.len() {
        let (g1, v) = translate::expr(g, args[i])->Ok_0;
        let more = done.push(v);
        translation_blocks::expr_tidy(g, args[i]);
        same_named(g0, g, k, args[i]);
        expr_grows(g, args[i]);
        alongside_on(g0, k, g, g1);
        all_same_named(g0, g1, k, args, i + 1);
        args_grow(g1, args, i + 1, more);
        continues_before(blocks, names, g1, h);
        let n1 = expr_walks(m, own, calls, blocks, names, k, g0, vars, g, s, args[i]);
        let r1 = evaluated(m, own, calls, g0, vars, s.world, args[i]);
        let t = walked(m, own, blocks, here(g, s), n1).state;
        assert(has_vars(t, vars, k)) by {
            assert forall|x: usize| x < k implies #[trigger] t.vars[x] == vars[x] by {
                assert(s.vars[x] == vars[x]);
            }
        }
        assert forall|x: int| 0 <= x < more.len() implies operand_below(
            #[trigger] more[x],
            g1.b.local_counter,
        ) by {
            if x < done.len() {
                assert(more[x] == done[x]);
                assert(operand_below(done[x], g.b.local_counter));
            }
        }
        let n2 = args_walk(
            m,
            own,
            calls,
            blocks,
            names,
            k,
            g0,
            vars,
            g1,
            t,
            args,
            i + 1,
            more,
        );
        walked_on(m, own, blocks, here(g, s), n1, n2);
        let u = walked(m, own, blocks, here(g, s), n1 + n2).state;
        let r2 = evaluated_all(m, own, calls, g0, vars, r1.0, args, i + 1);
        assert(meaning::values(m, t, more) =~= meaning::values(m, s, done).push(r1.1)) by {
            assert forall|x: int| 0 <= x < done.len() implies meaning::value(m, t, done[x])
                == meaning::value(m, s, done[x]) by {
                assert(operand_below(done[x], g.b.local_counter));
                if let IrOperand::Local(l) = done[x] {
                    assert(t.locals[l] == s.locals[l]);
                }
            }
        }
        assert(meaning::values(m, s, done).push(r1.1) + r2.1 =~= meaning::values(m, s, done) + (
        seq![r1.1] + r2.1));
        assert forall|l: usize| l < g.b.local_counter implies #[trigger] u.locals[l]
            == s.locals[l] by {
            assert(t.locals[l] == s.locals[l]);
        }
        assert forall|x: usize| x < k implies #[trigger] u.vars[x] == s.vars[x] by {
            assert(t.vars[x] == s.vars[x]);
        }
        n1 + n2
    } else {
        assert(meaning::values(m, s, done) + Seq::<i32>::empty() =~= meaning::values(m, s, done));
        0
    }
}

/// Whether an expression is made by a short-circuit operator.
spec fn is_short(e: ExprV) -> bool {
    e matches ExprV::Binary { op, .. } && (op == BinaryOp::And || op == BinaryOp::Or)
}

/// The stages of an expression made by a short-circuit operator.
spec fn stages_of(g: GenV, e: ExprV) -> StagesV {
    stages(g, e->Binary_op, *e->lhs, *e->rhs)->0
}

/// The value that a short-circuit operator has where its first operand decides.
spec fn deciding(e: ExprV) -> i32 {
    if e->Binary_op == BinaryOp::And {
        0
    } else {
        1
    }
}

/// Whether what goes on from the end of a short-circuit operator goes on from all its stages.
spec fn goes_on_from_all(blocks: Seq<BlockV>, names: Seq<Seq<char>>, z: StagesV, value: i32) -> bool {
    &&& continues(blocks, names, z.g2)
    &&& continues(blocks, names, z.g3)
    &&& continues(blocks, names, z.g4)
    &&& continues(
        blocks,
        names,
        z.g4.emit(InstV::Br { cond: z.cond, then_bb: z.yes, else_bb: z.no }),
    )
    &&& continues(blocks, names, z.g5)
    &&& continues(blocks, names, z.g6)
    &&& continues(blocks, names, z.g7)
    &&& continues(
        blocks,
        names,
        z.g7.emit(stored(z.t, z.sc)).emit(InstV::Jump { target: z.end }),
    )
    &&& continues(blocks, names, z.short)
    &&& continues(blocks, names, translate::decided(z.short, value, z.sc, z.end))
    &&& continues(blocks, names, z.g9.start(z.end))
}

/// What goes on from the end of a short-circuit operator goes on from all its stages, which have
/// the names of the first in scope.
proof fn stages_go_on(
    blocks: Seq<BlockV>,
    names: Seq<Seq<char>>,
    k: usize,
    g0: GenV,
    g: GenV,
    e: ExprV,
)
    requires
        alongside(g0, k, g),
        is_short(e),
        well_named(g0, k, e),
        translate::expr(g, e) matches Ok((h, _)) && continues(blocks, names, h),
    ensures
        ({
            let z = stages_of(g, e);
            &&& stages(g, e->Binary_op, *e->lhs, *e->rhs) is Some
            &&& translate::expr(g, e) == z.g9.start(z.end).def(
                InstV::Load { dest: 0, src: IrOperand::Global(z.sc) },
            )
            &&& goes_on_from_all(blocks, names, z, deciding(e))
            &&& alongside(g0, k, z.g1)
            &&& alongside(g0, k, z.g2)
            &&& alongside(g0, k, z.g5)
            &&& k <= z.sc
            &&& z.g1.b.local_counter == g.b.local_counter
            &&& z.g1.b.blocks == g.b.blocks
            &&& g.b.local_counter <= z.g2.b.local_counter
            &&& z.g2.b.local_counter <= z.g5.b.local_counter
            &&& z.g5.b.local_counter <= z.g6.b.local_counter
            &&& g.b.local_counter <= z.g9.start(z.end).b.local_counter
        }),
{
    let op = e->Binary_op;
    let lhs = *e->lhs;
    let rhs = *e->rhs;
    let (h, v) = translate::expr(g, e)->Ok_0;
    translated_in_stages(g, op, lhs, rhs);
    let z = stages(g, op, lhs, rhs)->0;
    stages_are_tidy(g, op, lhs, rhs);
    counted_grows(g, z.g1);
    alongside_on(g0, k, g, z.g1);
    same_named(g0, z.g1, k, lhs);
    expr_grows(z.g1, lhs);
    grown_on(g, z.g1, z.g2);
    same_scopes_at_rhs(g, op, lhs, rhs);
    assert(same_names(g0, z.g5)) by {
        reveal(same_names);
    }
    same_named(g0, z.g5, k, rhs);
    expr_grows(z.g5, rhs);
    stages_grow(g, op, lhs, rhs);
    let g10 = z.g9.start(z.end);
    def_grows(g10, InstV::Load { dest: 0, src: IrOperand::Global(z.sc) });
    let d = translate::decided(z.short, deciding(e), z.sc, z.end);
    let g8 = z.g7.emit(stored(z.t, z.sc)).emit(InstV::Jump { target: z.end });
    continues_before(blocks, names, g10, h);
    continues_before(blocks, names, z.g9, g10);
    continues_before(blocks, names, d, z.g9);
    continues_before(blocks, names, z.short, d);
    continues_before(blocks, names, g8, z.g9);
    continues_before(blocks, names, z.g7, g8);
    continues_before(blocks, names, z.g6, z.g7);
    continues_before(blocks, names, z.g5, z.g6);
    continues_before(blocks, names, z.g4, z.g5);
    continues_before(blocks, names, z.g3, z.g4);
    continues_before(blocks, names, z.g2, z.g3);
    continues_at_branch(blocks, names, g, op, lhs, rhs);
    alongside_on(g0, k, z.g1, z.g2);
    grown_on(z.g2, z.g3, z.g4);
    grown_on(z.g2, z.g4, z.g5);
    alongside_on(g0, k, z.g2, z.g5);
    same_scopes(z.g5, z.g6);
    same_scopes(z.g6, z.g7);
    same_scopes(z.g7, z.g9);
    same_scopes(z.g9, g10);
}

/// The first operand of a short-circuit operator is computed, and the branch taken by it.
proof fn first_walks<W>(
    m: MachineV<W>,
    own: Set<usize>,
    calls: Calls<W>,
    blocks: Seq<BlockV>,
    names: Seq<Seq<char>>,
    k: usize,
    g0: GenV,
    vars: Map<usize, i32>,
    g: GenV,
    s: StateV<W>,
    e: ExprV,
) -> (n: nat)
    requires
        ready(m, own, calls, blocks, names, k),
        alongside(g0, k, g),
        has_vars(s, vars, k),
        is_short(e),
        well_named(g0, k, e),
        translate::expr(g, e) matches Ok((h, _)) && continues(blocks, names, h),
    ensures
        ({
            let z = stages_of(g, e);
            let c = walked(m, own, blocks, here(g, s), n);
            let r = evaluated(m, own, calls, g0, vars, s.world, *e->lhs);
            &&& c == at_label(
                blocks,
                if r.1 != 0 {
                    z.yes
                } else {
                    z.no
                },
                c.state,
            )
            &&& c.state.world == r.0
            &&& same_below(s, c.state, g.b.local_counter, k)
        }),
    decreases e, 0int,
{
    let lhs = *e->lhs;
    let z = stages_of(g, e);
    stages_go_on(blocks, names, k, g0, g, e);
    stages_are_tidy(g, e->Binary_op, lhs, *e->rhs);
    assert(here(z.g1, s) == here(g, s));
    let n1 = expr_walks(m, own, calls, blocks, names, k, g0, vars, z.g1, s, lhs);
    let r1 = evaluated(m, own, calls, g0, vars, s.world, lhs);
    let t1 = walked(m, own, blocks, here(g, s), n1).state;
    let n2: nat = if z.l is Int {
        0
    } else {
        1
    };
    cond_walks(m, own, blocks, names, k, z.g2, t1, z.l, r1.1);
    let r2 = (r1.0, eval::truth(r1.1 != 0));
    arrived_on(m, own, blocks, k, z.g1, z.g2, z.g3, s, n1, n2, r1, z.l, r2, z.cond);
    let t2 = walked(m, own, blocks, here(g, s), n1 + n2).state;
    labels_grow(z.g3);
    assert(here(z.g4, t2) == here(z.g3, t2));
    let br = InstV::Br { cond: z.cond, then_bb: z.yes, else_bb: z.no };
    emit_grows(z.g4, br);
    branch_walked(m, own, blocks, names, z.g4, z.g4.emit(br), br, t2);
    walked_on(m, own, blocks, here(g, s), n1 + n2, 1);
    n1 + n2 + 1
}

/// The load of the value of a short-circuit operator, once it has been stored, computes the value.
proof fn value_loaded<W>(
    m: MachineV<W>,
    own: Set<usize>,
    blocks: Seq<BlockV>,
    names: Seq<Seq<char>>,
    k: usize,
    g: GenV,
    z: StagesV,
    s: StateV<W>,
    t: StateV<W>,
    c: SpotV<W>,
    n: nat,
    val: i32,
)
    requires
        labels_differ(blocks),
        blocks.len() <= usize::MAX,
        translation_blocks::tidy(z.g9),
        translation_blocks::open_at(z.g9.start(z.end)),
        z.g9.start(z.end).def(
            (InstV::Load { dest: 0, src: IrOperand::Global(z.sc) }),
        ) matches Ok((h, _)) && continues(blocks, names, h),
        continues(blocks, names, z.g9.start(z.end)),
        own.contains(z.sc),
        k <= z.sc,
        g.b.local_counter <= z.g9.start(z.end).b.local_counter,
        same_below(s, t, g.b.local_counter, k),
        walked(m, own, blocks, c, n) == at_label(
            blocks,
            z.end,
            (StateV { vars: t.vars.insert(z.sc, val), ..t }),
        ),
    ensures
        ({
            let (h, v) = z.g9.start(z.end).def(
                InstV::Load { dest: 0, src: IrOperand::Global(z.sc) },
            )->Ok_0;
            arrived(m, k, g, h, s, walked(m, own, blocks, c, n + 1), (t.world, val), v)
        }),
{
    let g10 = z.g9.start(z.end);
    let load = InstV::Load { dest: 0, src: IrOperand::Global(z.sc) };
    let u = StateV { vars: t.vars.insert(z.sc, val), ..t };
    start_grows(z.g9, z.end);
    label_is_here(blocks, names, g10, z.end, u);
    def_walked(m, own, blocks, names, k, g10, load, u, val);
    walked_on(m, own, blocks, c, n, 1);
    let x = walked(m, own, blocks, c, n + 1).state;
    last_step_keeps(g, g10, k, z.sc, s, t, u, x);
}

/// The instructions of a short-circuit operator compute its value; those of the second operand
/// are reached only where the first does not decide.
proof fn short_walks<W>(
    m: MachineV<W>,
    own: Set<usize>,
    calls: Calls<W>,
    blocks: Seq<BlockV>,
    names: Seq<Seq<char>>,
    k: usize,
    g0: GenV,
    vars: Map<usize, i32>,
    g: GenV,
    s: StateV<W>,
    e: ExprV,
) -> (n: nat)
    requires
        ready(m, own, calls, blocks, names, k),
        alongside(g0, k, g),
        has_vars(s, vars, k),
        is_short(e),
        well_named(g0, k, e),
        translate::expr(g, e) matches Ok((h, _)) && continues(blocks, names, h),
    ensures
        ({
            let (h, v) = translate::expr(g, e)->Ok_0;
            arrived(
                m,
                k,
                g,
                h,
                s,
                walked(m, own, blocks, here(g, s), n),
                evaluated(m, own, calls, g0, vars, s.world, e),
                v,
            )
        }),
    decreases e, 1int,
{
    let op = e->Binary_op;
    let r1 = evaluated(m, own, calls, g0, vars, s.world, *e->lhs);
    let z = stages_of(g, e);
    stages_go_on(blocks, names, k, g0, g, e);
    stages_are_tidy(g, op, *e->lhs, *e->rhs);
    branch_at(g, op, *e->lhs, *e->rhs);
    let b = first_walks(m, own, calls, blocks, names, k, g0, vars, g, s, e);
    let t = walked(m, own, blocks, here(g, s), b).state;
    assert(own.contains(z.sc));
    if (op == BinaryOp::And && r1.1 == 0) || (op == BinaryOp::Or && r1.1 != 0) {
        let value = deciding(e);
        let label = z.short.b.blocks.last().label;
        label_is_here(blocks, names, z.short, label, t);
        finish_walked(
            m,
            own,
            blocks,
            names,
            z.short,
            IrOperand::Int(value),
            z.sc,
            z.end,
            t,
        );
        walked_on(m, own, blocks, here(g, s), b, 2);
        value_loaded(
            m,
            own,
            blocks,
            names,
            k,
            g,
            z,
            s,
            t,
            here(g, s),
            b + 2,
            value,
        );
        b + 3
    } else {
        let label = z.g5.b.blocks.last().label;
        label_is_here(blocks, names, z.g5, label, t);
        assert(has_vars(t, vars, k)) by {
            assert forall|x: usize| x < k implies #[trigger] t.vars[x] == vars[x] by {
                assert(s.vars[x] == vars[x]);
            }
        }
        second_walks(m, own, calls, blocks, names, k, g0, vars, g, s, e, t, b)
    }
}

/// The second operand of a short-circuit operator is computed and decides.
#[verifier::rlimit(60)]
proof fn second_walks<W>(
    m: MachineV<W>,
    own: Set<usize>,
    calls: Calls<W>,
    blocks: Seq<BlockV>,
    names: Seq<Seq<char>>,
    k: usize,
    g0: GenV,
    vars: Map<usize, i32>,
    g: GenV,
    s: StateV<W>,
    e: ExprV,
    t: StateV<W>,
    b: nat,
) -> (n: nat)
    requires
        ready(m, own, calls, blocks, names, k),
        alongside(g0, k, g),
        has_vars(s, vars, k),
        is_short(e),
        well_named(g0, k, e),
        translate::expr(g, e) matches Ok((h, _)) && continues(blocks, names, h),
        has_vars(t, vars, k),
        same_below(s, t, g.b.local_counter, k),
        walked(m, own, blocks, here(g, s), b) == here(stages_of(g, e).g5, t),
    ensures
        ({
            let (h, v) = translate::expr(g, e)->Ok_0;
            let r = evaluated(m, own, calls, g0, vars, t.world, *e->rhs);
            arrived(
                m,
                k,
                g,
                h,
                s,
                walked(m, own, blocks, here(g, s), n),
                (r.0, eval::truth(r.1 != 0)),
                v,
            )
        }),
    decreases e, 0int,
{
    let rhs = *e->rhs;
    let z = stages_of(g, e);
    stages_go_on(blocks, names, k, g0, g, e);
    stages_are_tidy(g, e->Binary_op, *e->lhs, rhs);
    assert(own.contains(z.sc));
    let n3 = expr_walks(m, own, calls, blocks, names, k, g0, vars, z.g5, t, rhs);
    let r2 = evaluated(m, own, calls, g0, vars, t.world, rhs);
    let t3 = walked(m, own, blocks, here(z.g5, t), n3).state;
    let test = InstV::Icmp { dest: 0, op: IrCmpOp::Ne, lhs: z.r, rhs: IrOperand::Int(0) };
    let truth = eval::truth(r2.1 != 0);
    def_walked(m, own, blocks, names, k, z.g6, test, t3, truth);
    let r3 = (r2.0, truth);
    arrived_on(m, own, blocks, k, z.g5, z.g6, z.g7, t, n3, 1, r2, z.r, r3, z.t);
    walked_on(m, own, blocks, here(g, s), b, n3 + 1);
    let t4 = walked(m, own, blocks, here(z.g5, t), n3 + 1).state;
    assert(same_below(s, t4, g.b.local_counter, k)) by {
        assert forall|l: usize| l < g.b.local_counter implies #[trigger] t4.locals[l]
            == s.locals[l] by {
            assert(t.locals[l] == s.locals[l]);
            assert(t4.locals[l] == t.locals[l]);
        }
        assert forall|x: usize| x < k implies #[trigger] t4.vars[x] == s.vars[x] by {
            assert(t.vars[x] == s.vars[x]);
            assert(t4.vars[x] == t.vars[x]);
        }
    }
    finish_walked(m, own, blocks, names, z.g7, z.t, z.sc, z.end, t4);
    walked_on(m, own, blocks, here(g, s), b + (n3 + 1), 2);
    value_loaded(
        m,
        own,
        blocks,
        names,
        k,
        g,
        z,
        s,
        t4,
        here(g, s),
        b + (n3 + 1) + 2,
        truth,
    );
    b + (n3 + 1) + 3
}

/// The truth value of an operand, as the condition of a branch, is computed.
proof fn cond_walks<W>(
    m: MachineV<W>,
    own: Set<usize>,
    blocks: Seq<BlockV>,
    names: Seq<Seq<char>>,
    k: usize,
    g: GenV,
    s: StateV<W>,
    l: IrOperand,
    a: i32,
)
    requires
        translation_blocks::open_at(g),
        meaning::value(m, s, l) == a,
        translate::branch_cond(g, l) matches Ok((h, _)) && continues(blocks, names, h),
    ensures
        ({
            let (h, cond) = translate::branch_cond(g, l)->Ok_0;
            let n: nat = if l is Int {
                0
            } else {
                1
            };
            arrived(
                m,
                k,
                g,
                h,
                s,
                walked(m, own, blocks, here(g, s), n),
                (s.world, eval::truth(a != 0)),
                cond,
            )
        }),
{
    if !(l is Int) {
        def_walked(
            m,
            own,
            blocks,
            names,
            k,
            g,
            InstV::Icmp { dest: 0, op: IrCmpOp::Ne, lhs: l, rhs: IrOperand::Int(0) },
            s,
            eval::truth(a != 0),
        );
    }
}

/// The blocks of the two ways are those of the labels of the branch.
proof fn branch_at(g: GenV, op: BinaryOp, lhs: ExprV, rhs: ExprV)
    requires
        translation_blocks::open_at(g),
        op == BinaryOp::And || op == BinaryOp::Or,
        stages(g, op, lhs, rhs) is Some,
    ensures
        ({
            let z = stages(g, op, lhs, rhs)->0;
            &&& z.g5.b.blocks.last().instrs.len() == 0
            &&& z.short.b.blocks.last().instrs.len() == 0
            &&& z.g5.b.blocks.last().label == if op == BinaryOp::And {
                z.yes
            } else {
                z.no
            }
            &&& z.short.b.blocks.last().label == if op == BinaryOp::And {
                z.no
            } else {
                z.yes
            }
        }),
{
}

/// What goes on from the start of one of the two ways goes on from the branch.
proof fn continues_at_branch(
    blocks: Seq<BlockV>,
    names: Seq<Seq<char>>,
    g: GenV,
    op: BinaryOp,
    lhs: ExprV,
    rhs: ExprV,
)
    requires
        translation_blocks::open_at(g),
        op == BinaryOp::And || op == BinaryOp::Or,
        stages(g, op, lhs, rhs) matches Some(z) && continues(blocks, names, z.g5) && continues(
            blocks,
            names,
            z.short,
        ),
    ensures
        ({
            let z = stages(g, op, lhs, rhs)->0;
            let br = InstV::Br { cond: z.cond, then_bb: z.yes, else_bb: z.no };
            &&& continues(blocks, names, z.g4.emit(br))
            &&& z.g4.emit(br).b.blocks.len() == z.g4.b.blocks.len()
            &&& z.g4.emit(br).b.blocks.last().instrs == z.g4.b.blocks.last().instrs.push(br)
        }),
{
    let z = stages(g, op, lhs, rhs)->0;
    let br = InstV::Br { cond: z.cond, then_bb: z.yes, else_bb: z.no };
    stages_are_tidy(g, op, lhs, rhs);
    translation_blocks::emit_tidy(z.g4, br);
    emit_grows(z.g4, br);
    let h = z.g4.emit(br);
    start_grows(h, z.yes);
    if op == BinaryOp::And {
        continues_before(blocks, names, h, z.g5);
    } else {
        continues_before(blocks, names, h, z.short);
    }
}

/// The store of a truth value and its load leave what was there before.
proof fn last_step_keeps<W>(
    g: GenV,
    g10: GenV,
    k: usize,
    sc: usize,
    s: StateV<W>,
    t: StateV<W>,
    t1: StateV<W>,
    t2: StateV<W>,
)
    requires
        same_below(s, t, g.b.local_counter, k),
        k <= sc,
        t1.locals == t.locals,
        forall|x: usize| x != sc ==> #[trigger] t1.vars[x] == t.vars[x],
        same_below(t1, t2, g10.b.local_counter, k),
        g.b.local_counter <= g10.b.local_counter,
    ensures
        same_below(s, t2, g.b.local_counter, k),
{
    assert forall|l: usize| l < g.b.local_counter implies #[trigger] t2.locals[l] == s.locals[l] by {
        assert(t2.locals[l] == t1.locals[l]);
        assert(t.locals[l] == s.locals[l]);
    }
    assert forall|x: usize| x < k implies #[trigger] t2.vars[x] == s.vars[x] by {
        assert(t2.vars[x] == t1.vars[x]);
        assert(t1.vars[x] == t.vars[x]);
        assert(t.vars[x] == s.vars[x]);
    }
}

// ── Laws ─────────────────────────────────────────────────────────────────────

/// Whether the instructions between two states of a translation, once they have been carried out
/// from a state, have computed a value and changed the world as given, and have left SSA values and
/// variables that were there before.
pub open spec fn computes<W>(
    m: MachineV<W>,
    g: GenV,
    h: GenV,
    v: IrOperand,
    s: StateV<W>,
    c: SpotV<W>,
    r: (W, i32),
) -> bool {
    &&& c == here(h, c.state)
    &&& c.state.world == r.0
    &&& meaning::value(m, c.state, v) == r.1
    &&& forall|l: usize| l < g.b.local_counter ==> #[trigger] c.state.locals[l] == s.locals[l]
    &&& forall|x: usize| x < g.b.global_counter ==> #[trigger] c.state.vars[x] == s.vars[x]
}

/// The instructions that an expression is translated to compute its value in blocks
/// that go on from them: they change the world as the calls of the expression do, in their order,
/// where the second operand of `&&` and `||` counts only if the first does not decide. The
/// variables that the translation makes up are out of reach from outside.
pub proof fn translated_expression_computes<W>(
    m: MachineV<W>,
    own: Set<usize>,
    calls: Calls<W>,
    blocks: Seq<BlockV>,
    names: Seq<Seq<char>>,
    g: GenV,
    e: ExprV,
    s: StateV<W>,
)
    requires
        ready(m, own, calls, blocks, names, g.b.global_counter),
        translation_blocks::open_at(g),
        well_named(g, g.b.global_counter, e),
        translate::expr(g, e) matches Ok((h, _)) && continues(blocks, names, h),
    ensures
        exists|n: nat|
            computes(
                m,
                g,
                (translate::expr(g, e)->Ok_0).0,
                (translate::expr(g, e)->Ok_0).1,
                s,
                #[trigger] walked(m, own, blocks, here(g, s), n),
                evaluated(m, own, calls, g, s.vars, s.world, e),
            ),
{
    assert(same_names(g, g)) by {
        reveal(same_names);
    }
    let n = expr_walks(
        m,
        own,
        calls,
        blocks,
        names,
        g.b.global_counter,
        g,
        s.vars,
        g,
        s,
        e,
    );
    let c = walked(m, own, blocks, here(g, s), n);
    assert(c == here((translate::expr(g, e)->Ok_0).0, c.state));
}

/// A constant expression has the same value when it is evaluated at run time, in every state.
pub proof fn constants_agree<W>(
    m: MachineV<W>,
    own: Set<usize>,
    calls: Calls<W>,
    g: GenV,
    vars: Map<usize, i32>,
    w: W,
    e: ExprV,
)
    ensures
        translate::const_value(g, e) matches Ok(v) ==> evaluated(m, own, calls, g, vars, w, e) == (
            w,
            v,
        ),
    decreases e,
{
    match e {
        ExprV::Unary { expr, .. } => constants_agree(m, own, calls, g, vars, w, *expr),
        ExprV::Binary { lhs, rhs, .. } => {
            constants_agree(m, own, calls, g, vars, w, *lhs);
            constants_agree(m, own, calls, g, vars, w, *rhs);
        },
        _ => {},
    }
}

} // verus!

//! What optimization leaves of the meaning of a function: all that it does.

use crate::cfg;
use crate::ir::{self, BlockV, FuncV, InstV, IrOperand};
use crate::meaning::{self, MachineV, StateV};
use crate::opt::const_fold;
use crate::opt::dce;
use vstd::prelude::*;

verus! {

// ── Constant folding ─────────────────────────────────────────────────────────

/// A folded instruction does what the instruction does.
pub proof fn folding_keeps_steps<W>(m: MachineV<W>, own: Set<usize>, s: StateV<W>, i: InstV)
    ensures
        meaning::step(m, own, s, const_fold::folded(i)) == meaning::step(m, own, s, i),
{
    match i {
        InstV::Arith { dest, op, lhs, rhs } => {
            let l = meaning::value(m, s, lhs);
            let r = meaning::value(m, s, rhs);
            assert(0i32.wrapping_add(r) == r && r.wrapping_add(0) == r);
            assert(l.wrapping_add(0) == l);
            assert(1i32.wrapping_mul(r) == r);
            assert(0i32.wrapping_mul(r) == 0);
            assert(l.wrapping_mul(0) == 0);
        },
        _ => {},
    }
}

/// Blocks with the same labels are found at the same places.
pub(crate) proof fn same_positions(a: Seq<BlockV>, b: Seq<BlockV>, label: usize)
    requires
        a.len() == b.len(),
        forall|k: int| 0 <= k < a.len() ==> (#[trigger] a[k]).label == b[k].label,
    ensures
        cfg::label_position(a, label) == cfg::label_position(b, label),
    decreases a.len(),
{
    if a.len() > 0 {
        let n = a.len() - 1;
        assert(a[n].label == b[n].label);
        let x = a.drop_last();
        let y = b.drop_last();
        assert forall|k: int| 0 <= k < x.len() implies (#[trigger] x[k]).label == y[k].label by {
            assert(a[k].label == b[k].label);
        }
        same_positions(x, y, label);
    }
}

proof fn folding_keeps_runs<W>(m: MachineV<W>, own: Set<usize>, s: StateV<W>, instrs: Seq<InstV>)
    ensures
        meaning::run(m, own, s, instrs.map_values(|i: InstV| const_fold::folded(i)))
            == meaning::run(m, own, s, instrs),
    decreases instrs.len(),
{
    let new = instrs.map_values(|i: InstV| const_fold::folded(i));
    if instrs.len() > 0 {
        let front = instrs.drop_last();
        folding_keeps_runs(m, own, s, front);
        assert(new.drop_last() =~= front.map_values(|i: InstV| const_fold::folded(i)));
        folding_keeps_steps(m, own, meaning::run(m, own, s, front), instrs.last());
    }
}

proof fn folding_keeps_entries<W>(m: MachineV<W>, s: StateV<W>, instrs: Seq<InstV>, from: usize)
    ensures
        meaning::entered(m, s, instrs.map_values(|i: InstV| const_fold::folded(i)), from)
            == meaning::entered(m, s, instrs, from),
    decreases instrs.len(),
{
    let new = instrs.map_values(|i: InstV| const_fold::folded(i));
    if instrs.len() > 0 {
        let front = instrs.drop_last();
        folding_keeps_entries(m, s, front, from);
        assert(new.drop_last() =~= front.map_values(|i: InstV| const_fold::folded(i)));
        assert(const_fold::folded(instrs.last()) is Phi <==> instrs.last() is Phi);
    }
}

/// The label that an instruction at the end of a block goes to.
pub open spec fn next_label<W>(m: MachineV<W>, s: StateV<W>, i: InstV) -> usize {
    match i {
        InstV::Jump { target } => target,
        InstV::Br { cond, then_bb, else_bb } => if meaning::value(m, s, cond) != 0 {
            then_bb
        } else {
            else_bb
        },
        _ => 0,
    }
}

/// A folded function comes to the same end as the function, in as many blocks, from every state.
pub proof fn folding_keeps_outcomes<W>(
    m: MachineV<W>,
    own: Set<usize>,
    f: FuncV,
    b: int,
    from: usize,
    s: StateV<W>,
    fuel: nat,
)
    ensures
        meaning::outcome(m, own, const_fold::folded_func(f).blocks, b, from, s, fuel)
            == meaning::outcome(m, own, f.blocks, b, from, s, fuel),
    decreases fuel,
{
    let new = const_fold::folded_func(f).blocks;
    if fuel > 0 && 0 <= b < f.blocks.len() && f.blocks[b].instrs.len() > 0 {
        let instrs = f.blocks[b].instrs;
        assert(new[b].instrs == instrs.map_values(|i: InstV| const_fold::folded(i)));
        assert(new[b].instrs.last() == const_fold::folded(instrs.last()));
        folding_keeps_entries(m, s, instrs, from);
        let t0 = meaning::entered(m, s, instrs, from);
        folding_keeps_runs(m, own, t0, instrs);
        let t = meaning::run(m, own, t0, instrs);
        let label = next_label(m, t, instrs.last());
        same_positions(new, f.blocks, label);
        if let Some(k) = cfg::label_position(f.blocks, label) {
            folding_keeps_outcomes(m, own, f, k as int, b as usize, t, (fuel - 1) as nat);
        }
        assert(meaning::outcome_at(m, own, new, label, b as usize, t, fuel) == meaning::outcome_at(
            m,
            own,
            f.blocks,
            label,
            b as usize,
            t,
            fuel,
        ));
    }
}

// ── Dead code elimination ────────────────────────────────────────────────────

/// States that differ at most in SSA values that nothing uses.
pub open spec fn agree<W>(blocks: Seq<BlockV>, s: StateV<W>, t: StateV<W>) -> bool {
    &&& s.vars == t.vars
    &&& s.world == t.world
    &&& forall|l: usize| #[trigger]
        dce::func_uses(blocks, IrOperand::Local(l)) ==> s.locals[l] == t.locals[l]
}

/// The operands of an instruction of a function are used in it.
proof fn operands_are_used(blocks: Seq<BlockV>, b: int, i: int)
    requires
        0 <= b < blocks.len(),
        0 <= i < blocks[b].instrs.len(),
    ensures
        forall|k: int|
            0 <= k < ir::inst_operands(blocks[b].instrs[i]).len() ==> dce::func_uses(
                blocks,
                #[trigger] ir::inst_operands(blocks[b].instrs[i])[k],
            ),
{
    let inst = blocks[b].instrs[i];
    assert forall|k: int| 0 <= k < ir::inst_operands(inst).len() implies dce::func_uses(
        blocks,
        #[trigger] ir::inst_operands(inst)[k],
    ) by {
        let op = ir::inst_operands(inst)[k];
        assert(dce::inst_uses(blocks[b].instrs[i], op));
        assert(dce::insts_use(blocks[b].instrs, op));
    }
}

/// An operand that is used has one value in states that agree.
proof fn used_value<W>(m: MachineV<W>, blocks: Seq<BlockV>, s: StateV<W>, t: StateV<W>, op: IrOperand)
    requires
        agree(blocks, s, t),
        dce::func_uses(blocks, op),
    ensures
        meaning::value(m, s, op) == meaning::value(m, t, op),
{
}

/// An instruction takes states that agree to states that agree.
proof fn steps_agree<W>(
    m: MachineV<W>,
    own: Set<usize>,
    blocks: Seq<BlockV>,
    b: int,
    i: int,
    s: StateV<W>,
    t: StateV<W>,
)
    requires
        agree(blocks, s, t),
        0 <= b < blocks.len(),
        0 <= i < blocks[b].instrs.len(),
    ensures
        agree(
            blocks,
            meaning::step(m, own, s, blocks[b].instrs[i]),
            meaning::step(m, own, t, blocks[b].instrs[i]),
        ),
{
    let inst = blocks[b].instrs[i];
    let ops = ir::inst_operands(inst);
    operands_are_used(blocks, b, i);
    if ops.len() > 0 {
        used_value(m, blocks, s, t, ops[0]);
    }
    if ops.len() > 1 {
        used_value(m, blocks, s, t, ops[1]);
    }
    if let InstV::Call { args, .. } = inst {
        assert(meaning::values(m, s, args) =~= meaning::values(m, t, args)) by {
            assert forall|k: int| 0 <= k < args.len() implies meaning::values(m, s, args)[k]
                == meaning::values(m, t, args)[k] by {
                used_value(m, blocks, s, t, ops[k]);
            }
        }
    }
}

/// An instruction that is not needed leaves a state that agrees with the one before it.
proof fn unneeded_step_agrees<W>(
    m: MachineV<W>,
    own: Set<usize>,
    blocks: Seq<BlockV>,
    inst: InstV,
    s: StateV<W>,
    t: StateV<W>,
)
    requires
        agree(blocks, s, t),
        !dce::needed(blocks, inst),
    ensures
        agree(blocks, meaning::step(m, own, s, inst), t),
{
}

/// The first instructions of a block, and those among them that are needed, lead to states that
/// agree.
proof fn elimination_runs_agree<W>(
    m: MachineV<W>,
    own: Set<usize>,
    blocks: Seq<BlockV>,
    b: int,
    k: int,
    s: StateV<W>,
    t: StateV<W>,
)
    requires
        agree(blocks, s, t),
        0 <= b < blocks.len(),
        0 <= k <= blocks[b].instrs.len(),
    ensures
        agree(
            blocks,
            meaning::run(m, own, s, blocks[b].instrs.take(k)),
            meaning::run(m, own, t, dce::live_insts(blocks, blocks[b].instrs.take(k))),
        ),
    decreases k,
{
    reveal(Seq::filter);
    let instrs = blocks[b].instrs;
    if k > 0 {
        let all = instrs.take(k);
        let front = instrs.take(k - 1);
        assert(all.drop_last() =~= front);
        elimination_runs_agree(m, own, blocks, b, k - 1, s, t);
        let s1 = meaning::run(m, own, s, front);
        let t1 = meaning::run(m, own, t, dce::live_insts(blocks, front));
        let last = instrs[k - 1];
        assert(all.last() == last);
        let live = dce::live_insts(blocks, all);
        if dce::needed(blocks, last) {
            assert(live =~= dce::live_insts(blocks, front).push(last));
            assert(live.drop_last() =~= dce::live_insts(blocks, front));
            steps_agree(m, own, blocks, b, k - 1, s1, t1);
        } else {
            assert(live =~= dce::live_insts(blocks, front));
            unneeded_step_agrees(m, own, blocks, last, s1, t1);
        }
    }
}

/// A value that comes in is among the operands of its phi.
pub(crate) proof fn incoming_is_operand(incoming: Seq<(IrOperand, usize)>, from: usize)
    ensures
        meaning::incoming_from(incoming, from) == IrOperand::Undef || exists|k: int|
            0 <= k < incoming.len() && (#[trigger] incoming[k]).0 == meaning::incoming_from(
                incoming,
                from,
            ),
    decreases incoming.len(),
{
    if incoming.len() > 0 {
        let n = incoming.len() - 1;
        if incoming[n].1 != from {
            let front = incoming.drop_last();
            incoming_is_operand(front, from);
            if meaning::incoming_from(front, from) != IrOperand::Undef {
                let k = choose|k: int|
                    0 <= k < front.len() && (#[trigger] front[k]).0 == meaning::incoming_from(
                        front,
                        from,
                    );
                assert(incoming[k] == front[k]);
            }
        }
    }
}

/// The phis of a block, and those among them that are needed, lead to states that agree.
proof fn elimination_entries_agree<W>(
    m: MachineV<W>,
    blocks: Seq<BlockV>,
    b: int,
    k: int,
    from: usize,
    s: StateV<W>,
    t: StateV<W>,
)
    requires
        agree(blocks, s, t),
        0 <= b < blocks.len(),
        0 <= k <= blocks[b].instrs.len(),
    ensures
        agree(
            blocks,
            meaning::entered(m, s, blocks[b].instrs.take(k), from),
            meaning::entered(m, t, dce::live_insts(blocks, blocks[b].instrs.take(k)), from),
        ),
    decreases k,
{
    reveal(Seq::filter);
    let instrs = blocks[b].instrs;
    if k > 0 {
        let all = instrs.take(k);
        let front = instrs.take(k - 1);
        assert(all.drop_last() =~= front);
        elimination_entries_agree(m, blocks, b, k - 1, from, s, t);
        let last = instrs[k - 1];
        assert(all.last() == last);
        let live = dce::live_insts(blocks, all);
        if dce::needed(blocks, last) {
            assert(live =~= dce::live_insts(blocks, front).push(last));
            assert(live.drop_last() =~= dce::live_insts(blocks, front));
            if let InstV::Phi { dest, incoming } = last {
                incoming_is_operand(incoming, from);
                let v = meaning::incoming_from(incoming, from);
                if v != IrOperand::Undef {
                    let j = choose|j: int| 0 <= j < incoming.len() && (#[trigger] incoming[j]).0 == v;
                    assert(ir::inst_operands(last)[j] == v);
                    operands_are_used(blocks, b, k - 1);
                    used_value(m, blocks, s, t, v);
                }
            }
        } else {
            assert(live =~= dce::live_insts(blocks, front));
        }
    }
}

/// A function without its dead code comes to the same end as the function, in as many blocks.
pub proof fn elimination_keeps_outcomes<W>(
    m: MachineV<W>,
    own: Set<usize>,
    f: FuncV,
    b: int,
    from: usize,
    s: StateV<W>,
    t: StateV<W>,
    fuel: nat,
)
    requires
        agree(f.blocks, s, t),
        forall|k: int|
            0 <= k < f.blocks.len() && (#[trigger] f.blocks[k]).instrs.len() > 0 ==> ir::terminator(
                f.blocks[k].instrs.last(),
            ),
    ensures
        meaning::outcome(m, own, dce::live_func(f).blocks, b, from, t, fuel) == meaning::outcome(
            m,
            own,
            f.blocks,
            b,
            from,
            s,
            fuel,
        ),
    decreases fuel,
{
    let new = dce::live_func(f).blocks;
    if fuel > 0 && 0 <= b < f.blocks.len() && f.blocks[b].instrs.len() == 0 {
        assert(new[b].instrs.len() == 0) by {
            reveal(Seq::filter);
        }
    }
    if fuel > 0 && 0 <= b < f.blocks.len() && f.blocks[b].instrs.len() > 0 {
        let instrs = f.blocks[b].instrs;
        let n = instrs.len() as int;
        assert(instrs.take(n) =~= instrs);
        let live = dce::live_insts(f.blocks, instrs);
        assert(new[b].instrs == live);
        let last = instrs.last();
        assert(dce::needed(f.blocks, last));
        assert(live.len() > 0 && live.last() == last) by {
            reveal(Seq::filter);
        }
        elimination_entries_agree(m, f.blocks, b, n, from, s, t);
        let s0 = meaning::entered(m, s, instrs, from);
        let t0 = meaning::entered(m, t, live, from);
        elimination_runs_agree(m, own, f.blocks, b, n, s0, t0);
        let s1 = meaning::run(m, own, s0, instrs);
        let t1 = meaning::run(m, own, t0, live);
        operands_are_used(f.blocks, b, n - 1);
        if ir::inst_operands(last).len() > 0 {
            used_value(m, f.blocks, s1, t1, ir::inst_operands(last)[0]);
        }
        let label = next_label(m, s1, last);
        same_positions(new, f.blocks, label);
        if let Some(k) = cfg::label_position(f.blocks, label) {
            elimination_keeps_outcomes(
                m,
                own,
                f,
                k as int,
                b as usize,
                s1,
                t1,
                (fuel - 1) as nat,
            );
        }
        assert(meaning::outcome_at(m, own, new, label, b as usize, t1, fuel) == meaning::outcome_at(
            m,
            own,
            f.blocks,
            label,
            b as usize,
            s1,
            fuel,
        ));
    }
}

} // verus!

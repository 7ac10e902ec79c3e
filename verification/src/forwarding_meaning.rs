//! What the promotion of variables leaves of the meaning of a function of one block.

use crate::ir::{self, BlockV, FuncV, InstV, IrOperand};
use crate::meaning::{self, MachineV, StateV};
use crate::numbering_meaning;
use crate::promotion;
use vstd::prelude::*;

verus! {

/// Whether an instruction of a list other than a phi uses an SSA value.
pub open spec fn used_in(instrs: Seq<InstV>, l: usize) -> bool {
    exists|i: int|
        0 <= i < instrs.len() && !(instrs[i] is Phi) && #[trigger] numbering_meaning::uses(
            instrs[i],
            l,
        )
}

/// An instruction can follow a list if it defines nothing that the list or the instruction uses.
proof fn follows(instrs: Seq<InstV>, i: InstV)
    requires
        numbering_meaning::used_after(instrs),
        forall|l: usize| #[trigger]
            numbering_meaning::defines(i, l) ==> !used_in(instrs, l) && (i is Phi
                || !numbering_meaning::uses(i, l)),
    ensures
        numbering_meaning::used_after(instrs.push(i)),
{
    let all = instrs.push(i);
    assert forall|a: int, b: int, l: usize|
        0 <= a <= b < all.len() && !(all[a] is Phi) && #[trigger] numbering_meaning::defines(
            all[b],
            l,
        ) implies !(#[trigger] numbering_meaning::uses(all[a], l)) by {
        if b < instrs.len() {
            assert(all[a] == instrs[a] && all[b] == instrs[b]);
        } else if a < instrs.len() {
            assert(all[a] == instrs[a]);
            assert(numbering_meaning::uses(instrs[a], l) ==> used_in(instrs, l));
        }
    }
}

/// An instruction of a list defines nothing that the instructions before it, or it, use.
proof fn last_follows(instrs: Seq<InstV>)
    requires
        numbering_meaning::used_after(instrs),
        instrs.len() > 0,
    ensures
        numbering_meaning::used_after(instrs.drop_last()),
        forall|l: usize| #[trigger]
            numbering_meaning::defines(instrs.last(), l) ==> !used_in(instrs.drop_last(), l) && (
            instrs.last() is Phi || !numbering_meaning::uses(instrs.last(), l)),
{
    let front = instrs.drop_last();
    let n = instrs.len() - 1;
    assert forall|a: int, b: int, l: usize|
        0 <= a <= b < front.len() && !(front[a] is Phi) && #[trigger] numbering_meaning::defines(
            front[b],
            l,
        ) implies !(#[trigger] numbering_meaning::uses(front[a], l)) by {
        assert(numbering_meaning::defines(instrs[b], l));
        assert(numbering_meaning::uses(instrs[a], l) == numbering_meaning::uses(front[a], l));
    }
    assert forall|l: usize| #[trigger] numbering_meaning::defines(
        instrs.last(),
        l,
    ) implies !used_in(front, l) && (instrs.last() is Phi || !numbering_meaning::uses(
        instrs.last(),
        l,
    )) by {
        assert(numbering_meaning::defines(instrs[n], l));
        if used_in(front, l) {
            let i = choose|i: int|
                0 <= i < front.len() && !(front[i] is Phi) && #[trigger] numbering_meaning::uses(
                    front[i],
                    l,
                );
            assert(numbering_meaning::uses(instrs[i], l));
        }
        if !(instrs.last() is Phi) {
            assert(!numbering_meaning::uses(instrs[n], l));
        }
    }
}

/// What is used in a list is used in a longer one.
proof fn used_further(instrs: Seq<InstV>, i: InstV)
    ensures
        forall|l: usize| used_in(instrs, l) ==> #[trigger] used_in(instrs.push(i), l),
        forall|l: usize|
            !(i is Phi) && numbering_meaning::uses(i, l) ==> #[trigger] used_in(instrs.push(i), l),
        forall|l: usize| #[trigger]
            used_in(instrs.push(i), l) ==> used_in(instrs, l) || numbering_meaning::uses(i, l),
{
    let all = instrs.push(i);
    assert forall|l: usize| used_in(instrs, l) implies #[trigger] used_in(all, l) by {
        let a = choose|a: int|
            0 <= a < instrs.len() && !(instrs[a] is Phi) && #[trigger] numbering_meaning::uses(
                instrs[a],
                l,
            );
        assert(numbering_meaning::uses(all[a], l));
    }
    assert forall|l: usize| !(i is Phi) && numbering_meaning::uses(i, l) implies #[trigger] used_in(
        all,
        l,
    ) by {
        assert(numbering_meaning::uses(all[instrs.len() as int], l));
    }
    assert forall|l: usize| #[trigger] used_in(all, l) implies used_in(instrs, l)
        || numbering_meaning::uses(i, l) by {
        let a = choose|a: int|
            0 <= a < all.len() && !(all[a] is Phi) && #[trigger] numbering_meaning::uses(all[a], l);
        if a < instrs.len() {
            assert(numbering_meaning::uses(instrs[a], l));
        }
    }
}

/// The value that is forwarded.
spec fn forwarded_value(v: Option<IrOperand>) -> IrOperand {
    match v {
        Some(v) => v,
        None => IrOperand::Int(0),
    }
}

/// Forwarding uses what the list uses, and keeps values used after their definitions.
pub(crate) proof fn forwarding_uses(g: usize, instrs: Seq<InstV>)
    requires
        numbering_meaning::used_after(instrs),
    ensures
        numbering_meaning::used_after(promotion::forwarded(g, instrs).1),
        forall|l: usize| #[trigger]
            used_in(promotion::forwarded(g, instrs).1, l) ==> used_in(instrs, l),
        forall|l: usize|
            promotion::forwarded(g, instrs).0 == Some(IrOperand::Local(l)) ==> #[trigger] used_in(
                instrs,
                l,
            ),
    decreases instrs.len(),
{
    if instrs.len() > 0 {
        let front = instrs.drop_last();
        let i = instrs.last();
        last_follows(instrs);
        forwarding_uses(g, front);
        let before = promotion::forwarded(g, front);
        let after = promotion::forwarded(g, instrs);
        assert(instrs =~= front.push(i));
        used_further(front, i);
        if after.1 != before.1 {
            let x = after.1.last();
            assert(after.1 =~= before.1.push(x));
            used_further(before.1, x);
            if x == i {
                follows(before.1, i);
            } else {
                let v = forwarded_value(before.0);
                assert(ir::inst_operands(x) =~= seq![v, IrOperand::Int(0)]);
                assert forall|l: usize| #[trigger] numbering_meaning::uses(x, l) implies v
                    == IrOperand::Local(l) by {
                    let ops = ir::inst_operands(x);
                    let k = choose|k: int| 0 <= k < ops.len() && ops[k] == IrOperand::Local(l);
                }
                assert forall|l: usize| #[trigger] numbering_meaning::defines(
                    x,
                    l,
                ) implies numbering_meaning::defines(i, l) by {}
                follows(before.1, x);
            }
        }
        if let InstV::Store { value, ptr } = i {
            assert(ir::inst_operands(i)[0] == value);
            assert forall|l: usize| value == IrOperand::Local(l) implies numbering_meaning::uses(
                i,
                l,
            ) by {
                assert(ir::inst_operands(i).contains(value));
            }
        }
    }
}

/// An instruction does the same in two states that differ in a variable that it does not load.
proof fn step_apart<W>(
    m: MachineV<W>,
    own: Set<usize>,
    g: usize,
    s: StateV<W>,
    t: StateV<W>,
    i: InstV,
)
    requires
        own.contains(g),
        s.locals == t.locals,
        s.world == t.world,
        forall|h: usize| h != g ==> #[trigger] s.vars[h] == t.vars[h],
        !(i matches InstV::Load { src, .. } && src == IrOperand::Global(g)),
        !(i matches InstV::Store { ptr, .. } && ptr == IrOperand::Global(g)),
    ensures
        ({
            let s1 = meaning::step(m, own, s, i);
            let t1 = meaning::step(m, own, t, i);
            &&& s1.locals == t1.locals
            &&& s1.world == t1.world
            &&& s1.vars[g] == s.vars[g]
            &&& forall|h: usize| h != g ==> #[trigger] s1.vars[h] == t1.vars[h]
        }),
{
    if let InstV::Call { args, .. } = i {
        assert(meaning::values(m, s, args) =~= meaning::values(m, t, args));
    }
}

/// A list of instructions and the list with a variable forwarded do the same, but for the
/// variable, whose value is the one forwarded.
proof fn forwarding_runs<W>(
    m: MachineV<W>,
    own: Set<usize>,
    g: usize,
    instrs: Seq<InstV>,
    s: StateV<W>,
)
    requires
        own.contains(g),
        numbering_meaning::used_after(instrs),
        s.vars[g] == 0,
    ensures
        ({
            let s1 = meaning::run(m, own, s, instrs);
            let t1 = meaning::run(m, own, s, promotion::forwarded(g, instrs).1);
            &&& s1.locals == t1.locals
            &&& s1.world == t1.world
            &&& s1.vars[g] == meaning::value(
                m,
                t1,
                forwarded_value(promotion::forwarded(g, instrs).0),
            )
            &&& forall|h: usize| h != g ==> #[trigger] s1.vars[h] == t1.vars[h]
        }),
    decreases instrs.len(),
{
    if instrs.len() > 0 {
        let front = instrs.drop_last();
        let i = instrs.last();
        last_follows(instrs);
        forwarding_uses(g, front);
        forwarding_runs(m, own, g, front, s);
        let before = promotion::forwarded(g, front);
        let after = promotion::forwarded(g, instrs);
        let s0 = meaning::run(m, own, s, front);
        let t0 = meaning::run(m, own, s, before.1);
        let v = forwarded_value(before.0);
        if after.1 != before.1 {
            let x = after.1.last();
            assert(after.1 =~= before.1.push(x));
            assert(after.1.drop_last() =~= before.1);
            if x == i && !(i matches InstV::Load { src, .. } && src == IrOperand::Global(g)) {
                step_apart(m, own, g, s0, t0, i);
                if let IrOperand::Local(l) = v {
                    assert(used_in(front, l));
                    numbering_meaning::step_leaves(m, own, t0, i, l);
                }
            } else if let InstV::Load { dest, src } = i {
                let w = meaning::value(m, t0, v);
                assert(w.wrapping_add(0) == w);
                let s1 = meaning::step(m, own, s0, i);
                let t1 = meaning::step(m, own, t0, x);
                assert(s1.locals =~= t1.locals);
                if let IrOperand::Local(l) = v {
                    assert(used_in(front, l));
                    assert(numbering_meaning::defines(i, dest));
                    assert(l != dest);
                }
            }
        }
    }
}

/// Forwarding keeps phis.
proof fn forwarding_entries<W>(m: MachineV<W>, g: usize, instrs: Seq<InstV>, from: usize, s: StateV<W>)
    ensures
        meaning::entered(m, s, promotion::forwarded(g, instrs).1, from) == meaning::entered(
            m,
            s,
            instrs,
            from,
        ),
    decreases instrs.len(),
{
    if instrs.len() > 0 {
        let front = instrs.drop_last();
        forwarding_entries(m, g, front, from, s);
        let before = promotion::forwarded(g, front);
        let after = promotion::forwarded(g, instrs);
        if after.1 != before.1 {
            assert(after.1 =~= before.1.push(after.1.last()));
            assert(after.1.drop_last() =~= before.1);
        }
    }
}

/// A block is entered with the variables that it is left with.
proof fn entry_keeps_vars<W>(m: MachineV<W>, s: StateV<W>, instrs: Seq<InstV>, from: usize)
    ensures
        meaning::entered(m, s, instrs, from).vars == s.vars,
    decreases instrs.len(),
{
    if instrs.len() > 0 {
        entry_keeps_vars(m, s, instrs.drop_last(), from);
    }
}

proof fn forwarding_all_keeps_outcomes<W>(
    m: MachineV<W>,
    own: Set<usize>,
    names: Seq<usize>,
    k: int,
    blocks: Seq<BlockV>,
    from: usize,
    s: StateV<W>,
    fuel: nat,
)
    requires
        0 <= k <= names.len(),
        blocks.len() == 1,
        blocks[0].instrs.len() > 0,
        blocks[0].instrs.last() is Ret,
        numbering_meaning::used_after(blocks[0].instrs),
        forall|i: int|
            0 <= i < names.len() ==> own.contains(#[trigger] names[i]) && s.vars[names[i]] == 0,
    ensures
        meaning::outcome(
            m,
            own,
            promotion::forwarded_all(names, k, blocks),
            0,
            from,
            s,
            fuel,
        ) == meaning::outcome(m, own, blocks, 0, from, s, fuel),
    decreases names.len() - k,
{
    if k < names.len() {
        let g = names[k];
        let instrs = blocks[0].instrs;
        let next = promotion::forwarded_blocks(g, blocks);
        let new = promotion::forwarded(g, instrs).1;
        assert(next[0].instrs == new);
        forwarding_uses(g, instrs);
        assert(new.last() == instrs.last());
        forwarding_all_keeps_outcomes(m, own, names, k + 1, next, from, s, fuel);
        forwarding_entries(m, g, instrs, from, s);
        entry_keeps_vars(m, s, instrs, from);
        let s0 = meaning::entered(m, s, instrs, from);
        forwarding_runs(m, own, g, instrs, s0);
    }
}

/// A function of one block, which returns at its end, comes to the same end after promotion: what
/// is promoted is out of reach from outside, it starts at zero, and no SSA value is used before
/// its definition.
pub proof fn promotion_keeps_outcome<W>(
    m: MachineV<W>,
    own: Set<usize>,
    f: FuncV,
    from: usize,
    s: StateV<W>,
    fuel: nat,
)
    requires
        f.blocks.len() == 1,
        f.blocks[0].instrs.len() > 0,
        f.blocks[0].instrs.last() is Ret,
        numbering_meaning::used_after(f.blocks[0].instrs),
        forall|i: int|
            0 <= i < promotion::promotable(f.blocks).len() ==> own.contains(
                #[trigger] promotion::promotable(f.blocks)[i],
            ) && s.vars[promotion::promotable(f.blocks)[i]] == 0,
    ensures
        meaning::outcome(m, own, promotion::promoted(f).0.blocks, 0, from, s, fuel)
            == meaning::outcome(m, own, f.blocks, 0, from, s, fuel),
{
    let names = promotion::promotable(f.blocks);
    if names.len() > 0 {
        forwarding_all_keeps_outcomes(m, own, names, 0, f.blocks, from, s, fuel);
    }
}

} // verus!

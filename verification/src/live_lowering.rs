//! Lowering the phis of a function whose blocks may lead to several others.
//!
//! The copies for the phis of a block stand at the ends of the blocks that lead to it, and are
//! carried out on every way out of these. This leaves the meaning of a function where no other way
//! needs what the copies overwrite.

use crate::cfg;
use crate::ir::{self, BlockV, FuncV, InstV, IrOperand};
use crate::ir_to_koopa::{self, MoveV};
use crate::lowering_meaning;
use crate::meaning::{self, MachineV, StateV};
use crate::numbering_meaning;
use crate::opt::const_fold;
use crate::pass_meaning;
use crate::promotion;
use crate::promotion_meaning;
use crate::promotion_values;
use crate::translation_blocks;
use vstd::prelude::*;

verus! {

// ── Which values count where ─────────────────────────────────────────────────

/// Whether an instruction other than a phi defines an SSA value.
pub open spec fn makes(i: InstV, l: usize) -> bool {
    numbering_meaning::defines(i, l) && !(i is Phi)
}

/// Whether one of the first `n` instructions of a list, other than a phi, defines an SSA value.
pub open spec fn gives(instrs: Seq<InstV>, n: int, l: usize) -> bool {
    exists|j: int| 0 <= j < n && #[trigger] makes(instrs[j], l)
}

/// Whether a phi of a list defines an SSA value.
pub open spec fn has_phi(instrs: Seq<InstV>, l: usize) -> bool {
    exists|j: int|
        0 <= j < instrs.len() && instrs[j] is Phi && #[trigger] numbering_meaning::defines(
            instrs[j],
            l,
        )
}

/// A list uses only SSA values that count at its start and those that it has defined before.
pub open spec fn ready(instrs: Seq<InstV>, live: Set<usize>) -> bool {
    forall|i: int, l: usize|
        0 <= i < instrs.len() && !(instrs[i] is Phi) && #[trigger] numbering_meaning::uses(
            instrs[i],
            l,
        ) ==> live.contains(l) || gives(instrs, i, l)
}

/// Whether an SSA value counts at the end of a list.
pub open spec fn known(instrs: Seq<InstV>, live: Set<usize>, l: usize) -> bool {
    live.contains(l) || gives(instrs, instrs.len() as int, l)
}

/// What counts in a block, and what its phis take from a block before it, counts at the end of
/// that block.
pub open spec fn handed_on(blocks: Seq<BlockV>, live: Seq<Set<usize>>, b: int, c: int) -> bool {
    &&& forall|l: usize| #[trigger]
        live[c].contains(l) && !has_phi(blocks[c].instrs, l) ==> known(
            blocks[b].instrs,
            live[b],
            l,
        )
    &&& forall|i: int, l: usize|
        #![trigger blocks[c].instrs[i], known(blocks[b].instrs, live[b], l)]
        0 <= i < blocks[c].instrs.len() && (blocks[c].instrs[i] matches InstV::Phi { incoming, .. }
            && meaning::incoming_from(incoming, b as usize) == IrOperand::Local(l)) ==> known(
            blocks[b].instrs,
            live[b],
            l,
        )
}

/// Whether a phi takes itself from a block.
pub open spec fn takes_itself(i: InstV, b: usize, x: usize) -> bool {
    i matches InstV::Phi { incoming, .. } && meaning::incoming_from(incoming, b)
        == IrOperand::Local(x)
}

/// What the phi at `i` of block `d` overwrites at the end of block `b`, if not by itself, is used
/// neither by the branch there nor in another block that `b` leads to.
pub open spec fn out_of_use(
    blocks: Seq<BlockV>,
    live: Seq<Set<usize>>,
    b: int,
    d: int,
    i: int,
) -> bool {
    forall|x: usize| #[trigger]
        numbering_meaning::defines(blocks[d].instrs[i], x) ==> takes_itself(
            blocks[d].instrs[i],
            b as usize,
            x,
        ) || (!numbering_meaning::uses(blocks[b].instrs.last(), x) && forall|c: usize| #[trigger]
            cfg::succs(blocks, b).contains(c) && c != d ==> !live[c as int].contains(x))
}

/// `live` says which SSA values count in which block, once it has been entered; and no copy for a
/// phi overwrites what counts on another way.
pub open spec fn kept_apart(blocks: Seq<BlockV>, live: Seq<Set<usize>>) -> bool {
    &&& live.len() == blocks.len()
    &&& forall|b: int| 0 <= b < blocks.len() ==> ready(blocks[b].instrs, #[trigger] live[b])
    &&& forall|b: int, c: usize|
        0 <= b < blocks.len() && #[trigger] cfg::succs(blocks, b).contains(c) ==> handed_on(
            blocks,
            live,
            b,
            c as int,
        )
    &&& forall|b: usize, d: int, i: int|
        0 <= b < blocks.len() && 0 <= d < blocks.len() && 0 <= i < blocks[d].instrs.len()
            && #[trigger] lowering_meaning::brings(blocks[d].instrs[i], b) ==> out_of_use(
            blocks,
            live,
            b as int,
            d,
            i,
        )
}

/// States that agree but for SSA values that do not count.
pub open spec fn same_on<W>(s: StateV<W>, t: StateV<W>, live: Set<usize>, base: int) -> bool {
    &&& s.vars == t.vars
    &&& s.world == t.world
    &&& forall|l: usize| #[trigger] live.contains(l) && l < base ==> s.locals[l] == t.locals[l]
}

// ── Inside a block ───────────────────────────────────────────────────────────

/// The SSA values that count after the first `n` instructions of a list.
spec fn known_after(instrs: Seq<InstV>, n: int, live: Set<usize>) -> Set<usize> {
    Set::new(|l: usize| live.contains(l) || gives(instrs, n, l))
}

proof fn operand_same<W>(
    m: MachineV<W>,
    s: StateV<W>,
    t: StateV<W>,
    i: InstV,
    k: int,
    live: Set<usize>,
    base: int,
)
    requires
        same_on(s, t, live, base),
        forall|l: usize| #[trigger]
            numbering_meaning::uses(i, l) ==> live.contains(l) && l < base,
        0 <= k < ir::inst_operands(i).len(),
    ensures
        meaning::value(m, s, ir::inst_operands(i)[k]) == meaning::value(
            m,
            t,
            ir::inst_operands(i)[k],
        ),
{
    if let IrOperand::Local(l) = ir::inst_operands(i)[k] {
        assert(ir::inst_operands(i).contains(IrOperand::Local(l)));
        assert(numbering_meaning::uses(i, l));
    }
}

proof fn step_same<W>(
    m: MachineV<W>,
    own: Set<usize>,
    s: StateV<W>,
    t: StateV<W>,
    i: InstV,
    live: Set<usize>,
    after: Set<usize>,
    base: int,
)
    requires
        same_on(s, t, live, base),
        !(i is Phi) ==> forall|l: usize| #[trigger]
            numbering_meaning::uses(i, l) ==> live.contains(l) && l < base,
        forall|l: usize| #[trigger] after.contains(l) ==> live.contains(l) || makes(i, l),
    ensures
        same_on(meaning::step(m, own, s, i), meaning::step(m, own, t, i), after, base),
{
    let ops = ir::inst_operands(i);
    let x = meaning::step(m, own, s, i);
    let y = meaning::step(m, own, t, i);
    if !(i is Phi) {
        if ops.len() > 0 {
            operand_same(m, s, t, i, 0, live, base);
        }
        if ops.len() > 1 {
            operand_same(m, s, t, i, 1, live, base);
        }
        if let InstV::Call { args, .. } = i {
            assert(meaning::values(m, s, args) =~= meaning::values(m, t, args)) by {
                assert forall|k: int| 0 <= k < args.len() implies #[trigger] meaning::value(
                    m,
                    s,
                    args[k],
                ) == meaning::value(m, t, args[k]) by {
                    assert(ops[k] == args[k]);
                    operand_same(m, s, t, i, k, live, base);
                }
            }
        }
    }
    assert forall|l: usize| #[trigger] after.contains(l) && l < base implies x.locals[l]
        == y.locals[l] by {
        assert(live.contains(l) || makes(i, l));
    }
}

proof fn run_same<W>(
    m: MachineV<W>,
    own: Set<usize>,
    s: StateV<W>,
    t: StateV<W>,
    instrs: Seq<InstV>,
    n: int,
    live: Set<usize>,
    base: int,
)
    requires
        0 <= n <= instrs.len(),
        same_on(s, t, live, base),
        ready(instrs, live),
        lowering_meaning::insts_below(instrs, base),
    ensures
        same_on(
            meaning::run(m, own, s, instrs.take(n)),
            meaning::run(m, own, t, instrs.take(n)),
            known_after(instrs, n, live),
            base,
        ),
    decreases n,
{
    if n > 0 {
        run_same(m, own, s, t, instrs, n - 1, live, base);
        assert(instrs.take(n).drop_last() =~= instrs.take(n - 1));
        let i = instrs[n - 1];
        assert(instrs.take(n).last() == i);
        let before = known_after(instrs, n - 1, live);
        let after = known_after(instrs, n, live);
        if !(i is Phi) {
            assert forall|l: usize| #[trigger] numbering_meaning::uses(i, l) implies before.contains(
                l,
            ) && l < base by {
                assert(numbering_meaning::uses(instrs[n - 1], l));
                assert(promotion_values::mentions(instrs[n - 1], l));
            }
        }
        assert forall|l: usize| #[trigger] after.contains(l) implies before.contains(l) || makes(
            i,
            l,
        ) by {
            if gives(instrs, n, l) {
                let j = choose|j: int| 0 <= j < n && #[trigger] makes(instrs[j], l);
                assert(j < n - 1 || makes(i, l));
            }
        }
        step_same(
            m,
            own,
            meaning::run(m, own, s, instrs.take(n - 1)),
            meaning::run(m, own, t, instrs.take(n - 1)),
            i,
            before,
            after,
            base,
        );
    } else {
        assert(instrs.take(0) =~= Seq::empty());
    }
}

// ── Between blocks ───────────────────────────────────────────────────────────

/// What an SSA value is once a block has been entered.
proof fn entered_value<W>(m: MachineV<W>, s: StateV<W>, instrs: Seq<InstV>, from: usize, l: usize)
    ensures
        ({
            let t = meaning::entered(m, s, instrs, from);
            &&& t.vars == s.vars
            &&& t.world == s.world
            &&& !has_phi(instrs, l) ==> t.locals[l] == s.locals[l]
            &&& has_phi(instrs, l) ==> exists|i: int|
                #![trigger instrs[i]]
                0 <= i < instrs.len() && (instrs[i] matches InstV::Phi { dest, incoming } && dest
                    == l && t.locals[l] == meaning::value(
                    m,
                    s,
                    meaning::incoming_from(incoming, from),
                ))
        }),
    decreases instrs.len(),
{
    if instrs.len() > 0 {
        let front = instrs.drop_last();
        let n = instrs.len() - 1;
        entered_value(m, s, front, from, l);
        assert(instrs[n] == instrs.last());
        if has_phi(front, l) {
            let j = choose|j: int|
                0 <= j < front.len() && front[j] is Phi && #[trigger] numbering_meaning::defines(
                    front[j],
                    l,
                );
            assert(instrs[j] == front[j]);
            assert(numbering_meaning::defines(instrs[j], l));
            let i = choose|i: int|
                #![trigger front[i]]
                0 <= i < front.len() && (front[i] matches InstV::Phi { dest, incoming } && dest == l
                    && meaning::entered(m, s, front, from).locals[l] == meaning::value(
                    m,
                    s,
                    meaning::incoming_from(incoming, from),
                ));
            assert(instrs[i] == front[i]);
        }
        if has_phi(instrs, l) && !has_phi(front, l) {
            let j = choose|j: int|
                0 <= j < instrs.len() && instrs[j] is Phi && #[trigger] numbering_meaning::defines(
                    instrs[j],
                    l,
                );
            if j < n {
                assert(front[j] == instrs[j]);
                assert(numbering_meaning::defines(front[j], l));
            }
        }
        if instrs[n] is Phi {
            assert(numbering_meaning::defines(instrs[n], instrs[n]->Phi_dest));
        }
    }
}

/// Whether a copy defines an SSA value.
spec fn copied(copies: Seq<InstV>, l: usize) -> bool {
    exists|k: int| 0 <= k < copies.len() && (#[trigger] copies[k])->Arith_dest == l
}

/// What an SSA value is after copies that are carried out at once.
proof fn together_value<W>(m: MachineV<W>, s: StateV<W>, copies: Seq<InstV>, l: usize)
    ensures
        ({
            let t = lowering_meaning::together(m, s, s, copies);
            &&& t.vars == s.vars
            &&& t.world == s.world
            &&& !copied(copies, l) ==> t.locals[l] == s.locals[l]
            &&& copied(copies, l) ==> exists|k: int|
                0 <= k < copies.len() && (#[trigger] copies[k])->Arith_dest == l && t.locals[l]
                    == meaning::value(m, s, copies[k]->Arith_lhs)
        }),
    decreases copies.len(),
{
    if copies.len() > 0 {
        let front = copies.drop_last();
        let n = copies.len() - 1;
        together_value(m, s, front, l);
        assert(copies[n] == copies.last());
        if copied(front, l) {
            let j = choose|j: int|
                0 <= j < front.len() && (#[trigger] front[j])->Arith_dest == l
                    && lowering_meaning::together(m, s, s, front).locals[l] == meaning::value(
                    m,
                    s,
                    front[j]->Arith_lhs,
                );
            assert(copies[j] == front[j]);
            assert(copied(copies, l));
        } else if copied(copies, l) {
            let j = choose|j: int| 0 <= j < copies.len() && (#[trigger] copies[j])->Arith_dest == l;
            if j < n {
                assert(front[j] == copies[j]);
            }
        }
        if copies[n]->Arith_dest == l {
            assert(copied(copies, l));
        }
    }
}

/// The copies at the end of a block are for values that come in from it.
proof fn copies_come_from(moves: Seq<MoveV>, b: int, k: int) -> (e: int)
    requires
        0 <= k < promotion::copies_to(moves, b).len(),
    ensures
        0 <= e < moves.len(),
        moves[e].label == b,
        promotion::copies_to(moves, b)[k] == const_fold::copy_of(moves[e].dest, moves[e].value),
    decreases moves.len(),
{
    if moves.len() == 0 {
        0
    } else {
        let front = moves.drop_last();
        let before = promotion::copies_to(front, b);
        if k < before.len() {
            let e = copies_come_from(front, b, k);
            assert(moves[e] == front[e]);
            e
        } else {
            moves.len() - 1
        }
    }
}

proof fn move_is_copied(moves: Seq<MoveV>, b: int, e: int) -> (k: int)
    requires
        0 <= e < moves.len(),
        moves[e].label == b,
    ensures
        0 <= k < promotion::copies_to(moves, b).len(),
        promotion::copies_to(moves, b)[k] == const_fold::copy_of(moves[e].dest, moves[e].value),
    decreases moves.len(),
{
    let front = moves.drop_last();
    let before = promotion::copies_to(front, b);
    if e < front.len() {
        assert(moves[e] == front[e]);
        let k = move_is_copied(front, b, e);
        k
    } else {
        before.len() as int
    }
}

proof fn inst_move_comes_from(instrs: Seq<InstV>, e: int) -> (r: (int, int))
    requires
        0 <= e < ir_to_koopa::insts_moves(instrs).len(),
    ensures
        ({
            let mv = ir_to_koopa::insts_moves(instrs)[e];
            &&& 0 <= r.0 < instrs.len()
            &&& instrs[r.0] is Phi
            &&& instrs[r.0]->Phi_dest == mv.dest
            &&& 0 <= r.1 < instrs[r.0]->Phi_incoming.len()
            &&& instrs[r.0]->Phi_incoming[r.1] == (mv.value, mv.label)
        }),
    decreases instrs.len(),
{
    if instrs.len() == 0 {
        (0, 0)
    } else {
        let front = instrs.drop_last();
        let before = ir_to_koopa::insts_moves(front);
        if e < before.len() {
            let r = inst_move_comes_from(front, e);
            assert(instrs[r.0] == front[r.0]);
            r
        } else {
            (instrs.len() - 1, e - before.len())
        }
    }
}

proof fn inst_move_is_there(instrs: Seq<InstV>, i: int, k: int) -> (e: int)
    requires
        0 <= i < instrs.len(),
        instrs[i] is Phi,
        0 <= k < instrs[i]->Phi_incoming.len(),
    ensures
        0 <= e < ir_to_koopa::insts_moves(instrs).len(),
        ir_to_koopa::insts_moves(instrs)[e] == (MoveV {
            label: instrs[i]->Phi_incoming[k].1,
            dest: instrs[i]->Phi_dest,
            value: instrs[i]->Phi_incoming[k].0,
        }),
    decreases instrs.len(),
{
    let front = instrs.drop_last();
    let before = ir_to_koopa::insts_moves(front);
    if i < front.len() {
        assert(instrs[i] == front[i]);
        let e = inst_move_is_there(front, i, k);
        assert(ir_to_koopa::insts_moves(instrs)[e] == before[e]);
        e
    } else {
        before.len() + k
    }
}

proof fn block_move_comes_from(blocks: Seq<BlockV>, e: int) -> (r: (int, int, int))
    requires
        0 <= e < ir_to_koopa::blocks_moves(blocks).len(),
    ensures
        ({
            let mv = ir_to_koopa::blocks_moves(blocks)[e];
            &&& 0 <= r.0 < blocks.len()
            &&& 0 <= r.1 < blocks[r.0].instrs.len()
            &&& blocks[r.0].instrs[r.1] is Phi
            &&& blocks[r.0].instrs[r.1]->Phi_dest == mv.dest
            &&& 0 <= r.2 < blocks[r.0].instrs[r.1]->Phi_incoming.len()
            &&& blocks[r.0].instrs[r.1]->Phi_incoming[r.2] == (mv.value, mv.label)
        }),
    decreases blocks.len(),
{
    if blocks.len() == 0 {
        (0, 0, 0)
    } else {
        let front = blocks.drop_last();
        let before = ir_to_koopa::blocks_moves(front);
        if e < before.len() {
            let r = block_move_comes_from(front, e);
            assert(blocks[r.0] == front[r.0]);
            r
        } else {
            let r = inst_move_comes_from(blocks.last().instrs, e - before.len());
            (blocks.len() - 1, r.0, r.1)
        }
    }
}

proof fn block_move_is_there(blocks: Seq<BlockV>, d: int, i: int, k: int) -> (e: int)
    requires
        0 <= d < blocks.len(),
        0 <= i < blocks[d].instrs.len(),
        blocks[d].instrs[i] is Phi,
        0 <= k < blocks[d].instrs[i]->Phi_incoming.len(),
    ensures
        0 <= e < ir_to_koopa::blocks_moves(blocks).len(),
        ir_to_koopa::blocks_moves(blocks)[e] == (MoveV {
            label: blocks[d].instrs[i]->Phi_incoming[k].1,
            dest: blocks[d].instrs[i]->Phi_dest,
            value: blocks[d].instrs[i]->Phi_incoming[k].0,
        }),
    decreases blocks.len(),
{
    let front = blocks.drop_last();
    let before = ir_to_koopa::blocks_moves(front);
    if d < front.len() {
        assert(blocks[d] == front[d]);
        let e = block_move_is_there(front, d, i, k);
        assert(ir_to_koopa::blocks_moves(blocks)[e] == before[e]);
        e
    } else {
        before.len() + inst_move_is_there(blocks[d].instrs, i, k)
    }
}

/// The value that comes in from a block is one of those that do.
pub(crate) proof fn incoming_is_there(incoming: Seq<(IrOperand, usize)>, b: usize, k: int) -> (e: int)
    requires
        0 <= k < incoming.len(),
        incoming[k].1 == b,
    ensures
        0 <= e < incoming.len(),
        incoming[e] == (meaning::incoming_from(incoming, b), b),
    decreases incoming.len(),
{
    let n = incoming.len() - 1;
    if incoming.last().1 == b {
        n
    } else {
        assert(k < n);
        assert(incoming.drop_last()[k] == incoming[k]);
        incoming_is_there(incoming.drop_last(), b, k)
    }
}

/// A copy for a phi that takes itself leaves it as it is.
proof fn itself_copied<W>(
    m: MachineV<W>,
    blocks: Seq<BlockV>,
    b: int,
    d: int,
    j: int,
    l: usize,
    t: StateV<W>,
)
    requires
        0 <= b <= usize::MAX,
        0 <= d < blocks.len(),
        0 <= j < blocks[d].instrs.len(),
        numbering_meaning::defined_once(blocks),
        lowering_meaning::all_ways(blocks),
        numbering_meaning::defines(blocks[d].instrs[j], l),
        takes_itself(blocks[d].instrs[j], b as usize, l),
        copied(promotion::copies_to(ir_to_koopa::blocks_moves(blocks), b), l),
    ensures
        lowering_meaning::together(
            m,
            t,
            t,
            promotion::copies_to(ir_to_koopa::blocks_moves(blocks), b),
        ).locals[l] == t.locals[l],
{
    let moves = ir_to_koopa::blocks_moves(blocks);
    let copies = promotion::copies_to(moves, b);
    together_value(m, t, copies, l);
    let k = choose|k: int|
        0 <= k < copies.len() && (#[trigger] copies[k])->Arith_dest == l
            && lowering_meaning::together(m, t, t, copies).locals[l] == meaning::value(
            m,
            t,
            copies[k]->Arith_lhs,
        );
    let e = copies_come_from(moves, b, k);
    let (c, i, e4) = block_move_comes_from(blocks, e);
    assert(numbering_meaning::defines(blocks[c].instrs[i], l));
    assert(c == d && i == j);
    let incoming = blocks[d].instrs[j]->Phi_incoming;
    assert(incoming[e4].1 == b as usize);
    let e1 = incoming_is_there(incoming, b as usize, e4);
    assert(lowering_meaning::one_value(blocks[d].instrs[j]));
    assert(incoming[e1].0 == incoming[e4].0);
}

/// A way from one block to another leaves the SSA values that count there.
proof fn way_kept<W>(
    m: MachineV<W>,
    blocks: Seq<BlockV>,
    live: Seq<Set<usize>>,
    b: int,
    c: usize,
    s: StateV<W>,
    t: StateV<W>,
    u: StateV<W>,
    base: int,
)
    requires
        0 <= b < blocks.len() <= usize::MAX,
        c < blocks.len(),
        base == promotion::fresh_base(blocks),
        kept_apart(blocks, live),
        lowering_meaning::all_ways(blocks),
        numbering_meaning::defined_once(blocks),
        cfg::succs(blocks, b).contains(c),
        same_on(s, t, known_after(blocks[b].instrs, blocks[b].instrs.len() as int, live[b]), base),
        lowering_meaning::near(
            lowering_meaning::together(
                m,
                t,
                t,
                promotion::copies_to(ir_to_koopa::blocks_moves(blocks), b),
            ),
            u,
            base,
        ),
    ensures
        same_on(
            meaning::entered(m, s, blocks[c as int].instrs, b as usize),
            u,
            live[c as int],
            base,
        ),
{
    let moves = ir_to_koopa::blocks_moves(blocks);
    let copies = promotion::copies_to(moves, b);
    let target = blocks[c as int].instrs;
    let from = b as usize;
    let x = meaning::entered(m, s, target, from);
    let y = lowering_meaning::together(m, t, t, copies);
    let here = known_after(blocks[b].instrs, blocks[b].instrs.len() as int, live[b]);
    assert(handed_on(blocks, live, b, c as int));
    entered_value(m, s, target, from, 0);
    together_value(m, t, copies, 0);
    assert forall|l: usize| #[trigger] live[c as int].contains(l) && l < base implies x.locals[l]
        == u.locals[l] by {
        entered_value(m, s, target, from, l);
        together_value(m, t, copies, l);
        assert(y.locals[l] == u.locals[l]);
        if has_phi(target, l) {
            let i = choose|i: int|
                #![trigger target[i]]
                0 <= i < target.len() && (target[i] matches InstV::Phi { dest, incoming } && dest
                    == l && x.locals[l] == meaning::value(
                    m,
                    s,
                    meaning::incoming_from(incoming, from),
                ));
            let incoming = target[i]->Phi_incoming;
            let v = meaning::incoming_from(incoming, from);
            assert(lowering_meaning::brings(blocks[c as int].instrs[i], from));
            let e0 = choose|e: int| 0 <= e < incoming.len() && (#[trigger] incoming[e]).1 == from;
            let e1 = incoming_is_there(incoming, from, e0);
            let e2 = block_move_is_there(blocks, c as int, i, e1);
            let k0 = move_is_copied(moves, b, e2);
            assert(copies[k0]->Arith_dest == l);
            assert(copied(copies, l));
            let k = choose|k: int|
                0 <= k < copies.len() && (#[trigger] copies[k])->Arith_dest == l && y.locals[l]
                    == meaning::value(m, t, copies[k]->Arith_lhs);
            let e3 = copies_come_from(moves, b, k);
            let (d, j, e4) = block_move_comes_from(blocks, e3);
            assert(numbering_meaning::defines(blocks[d].instrs[j], l));
            assert(numbering_meaning::defines(blocks[c as int].instrs[i], l));
            assert(d == c && j == i);
            assert(lowering_meaning::one_value(blocks[c as int].instrs[i]));
            assert(incoming[e4].1 == from && incoming[e1].1 == from);
            assert(incoming[e4].0 == incoming[e1].0);
            assert(copies[k]->Arith_lhs == v);
            if let IrOperand::Local(w) = v {
                assert(known(blocks[b].instrs, live[b], w));
                assert(here.contains(w));
                assert(ir::inst_operands(target[i])[e1] == v);
                assert(ir::inst_operands(target[i]).contains(IrOperand::Local(w)));
                assert(promotion_values::mentions(blocks[c as int].instrs[i], w));
                promotion_values::values_below_base(blocks, c as int, i);
                assert(w < base);
            }
        } else {
            assert(known(blocks[b].instrs, live[b], l));
            assert(here.contains(l));
            if copied(copies, l) {
                let k = choose|k: int|
                    0 <= k < copies.len() && (#[trigger] copies[k])->Arith_dest == l;
                let e = copies_come_from(moves, b, k);
                let (d, j, e4) = block_move_comes_from(blocks, e);
                let phi = blocks[d].instrs[j];
                assert(phi->Phi_incoming[e4].1 == from);
                assert(lowering_meaning::brings(blocks[d].instrs[j], from));
                assert(numbering_meaning::defines(blocks[d].instrs[j], l));
                assert(out_of_use(blocks, live, b, d, j));
                if d == c {
                    assert(has_phi(target, l));
                }
                if takes_itself(phi, from, l) {
                    itself_copied(m, blocks, b, d, j, l, t);
                }
            }
        }
    }
}

/// Lowered blocks from a state that agrees with that of the function on what counts.
proof fn live_outcomes<W>(
    m: MachineV<W>,
    own: Set<usize>,
    f: FuncV,
    live: Seq<Set<usize>>,
    b: int,
    from: usize,
    s: StateV<W>,
    t: StateV<W>,
    fuel: nat,
)
    requires
        0 <= b < f.blocks.len() <= usize::MAX,
        promotion::lowering_room(f),
        forall|k: int|
            0 <= k < f.blocks.len() ==> translation_blocks::block_ends(#[trigger] f.blocks[k]),
        kept_apart(f.blocks, live),
        lowering_meaning::all_ways(f.blocks),
        numbering_meaning::defined_once(f.blocks),
        same_on(
            meaning::entered(m, s, f.blocks[b].instrs, from),
            t,
            live[b],
            promotion::fresh_base(f.blocks),
        ),
    ensures
        meaning::outcome(m, own, promotion::lowered(f).blocks, b, from, t, fuel)
            == meaning::outcome(m, own, f.blocks, b, from, s, fuel),
    decreases fuel,
{
    let blocks = f.blocks;
    let new = promotion::lowered(f).blocks;
    let base = promotion::fresh_base(blocks);
    if fuel > 0 {
        let instrs = blocks[b].instrs;
        let n = instrs.len() as int;
        let last = instrs.last();
        let moves = ir_to_koopa::blocks_moves(blocks);
        let copies = promotion::copies_to(moves, b);
        let done = promotion::copies_at(blocks, b);
        promotion::copies_at_are_arith(blocks, b);
        promotion::copies_are_fewer(moves, b);
        let s0 = meaning::entered(m, s, instrs, from);
        assert(translation_blocks::block_ends(blocks[b]));
        assert(new[b] == promotion::lowered_block(blocks[b], done));
        lowering_meaning::lowered_block_runs(m, own, t, blocks[b], done);
        promotion_meaning::no_phis_entered(m, t, new[b].instrs, from);
        lowering_meaning::block_below(blocks, b);
        assert(ready(blocks[b].instrs, live[b]));
        run_same(m, own, s0, t, instrs, n, live[b], base);
        assert(instrs.take(n) =~= instrs);
        let s1 = meaning::run(m, own, s0, instrs);
        let t0 = meaning::run(m, own, t, instrs);
        let t1 = meaning::run(m, own, t, new[b].instrs);
        let here = known_after(instrs, n, live[b]);
        copies_are_below(blocks, b, base);
        lowering_meaning::at_once_runs(m, own, t0, copies, base);
        let y = lowering_meaning::together(m, t0, t0, copies);
        assert(lowering_meaning::near(y, t1, base));
        let label = pass_meaning::next_label(m, s1, last);
        assert forall|k: int| 0 <= k < new.len() implies (#[trigger] new[k]).label
            == blocks[k].label by {}
        pass_meaning::same_positions(new, blocks, label);
        together_value(m, t0, copies, 0);
        if ir::inst_operands(last).len() > 0 {
            let op = ir::inst_operands(last)[0];
            if let IrOperand::Local(l) = op {
                assert(ir::inst_operands(last).contains(IrOperand::Local(l)));
                assert(numbering_meaning::uses(instrs[n - 1], l));
                assert(promotion_values::mentions(instrs[n - 1], l));
                assert(known_before_end(instrs, live[b], l));
                assert(here.contains(l));
                together_value(m, t0, copies, l);
                if copied(copies, l) {
                    let k = choose|k: int|
                        0 <= k < copies.len() && (#[trigger] copies[k])->Arith_dest == l;
                    let e = copies_come_from(moves, b, k);
                    let (d, j, e4) = block_move_comes_from(blocks, e);
                    assert(blocks[d].instrs[j]->Phi_incoming[e4].1 == b as usize);
                    assert(lowering_meaning::brings(blocks[d].instrs[j], b as usize));
                    assert(numbering_meaning::defines(blocks[d].instrs[j], l));
                    assert(out_of_use(blocks, live, b, d, j));
                    if takes_itself(blocks[d].instrs[j], b as usize, l) {
                        itself_copied(m, blocks, b, d, j, l, t0);
                    }
                }
                assert(y.locals[l] == t1.locals[l]);
                assert(s1.locals[l] == t1.locals[l]);
            }
            assert(meaning::value(m, s1, op) == meaning::value(m, t1, op));
        }
        if last is Jump || last is Br {
            if let Some(c) = cfg::label_position(blocks, label) {
                let labels = cfg::exits(blocks[b]);
                let at: int = if labels[0] == label {
                    0
                } else {
                    1
                };
                assert(labels[at] == label);
                promotion_meaning::position_found(blocks, labels, at);
                cfg::label_position_is_last(blocks, label);
                way_kept(m, blocks, live, b, c, s1, t0, t1, base);
                live_outcomes(m, own, f, live, c as int, b as usize, s1, t1, (fuel - 1) as nat);
            }
            assert(meaning::outcome_at(m, own, new, label, b as usize, t1, fuel)
                == meaning::outcome_at(m, own, blocks, label, b as usize, s1, fuel));
        }
    }
}

/// Whether an SSA value counts at the end of a list, before its last instruction.
spec fn known_before_end(instrs: Seq<InstV>, live: Set<usize>, l: usize) -> bool {
    live.contains(l) || gives(instrs, instrs.len() - 1, l)
}

proof fn copies_are_below(blocks: Seq<BlockV>, b: int, base: int)
    requires
        base == promotion::fresh_base(blocks),
    ensures
        lowering_meaning::copies_below(
            promotion::copies_to(ir_to_koopa::blocks_moves(blocks), b),
            base,
        ),
{
    let moves = ir_to_koopa::blocks_moves(blocks);
    assert forall|e: int| 0 <= e < moves.len() implies (#[trigger] moves[e]).dest < base
        && lowering_meaning::op_below(moves[e].value, base) by {
        let (d, i, k) = block_move_comes_from(blocks, e);
        let phi = blocks[d].instrs[i];
        promotion_values::values_below_base(blocks, d, i);
        assert(numbering_meaning::defines(phi, moves[e].dest));
        assert(promotion_values::mentions(phi, moves[e].dest));
        if let IrOperand::Local(l) = moves[e].value {
            assert(ir::inst_operands(phi)[k] == moves[e].value);
            assert(ir::inst_operands(phi).contains(IrOperand::Local(l)));
            assert(promotion_values::mentions(phi, l));
        }
    }
    lowering_meaning::moves_below(moves, b, base);
}

/// A function with its phis lowered comes to the same end as the function, in as many blocks, once
/// the block at the start has been entered: blocks end in branches or returns, phis have one value
/// from each block that leads to theirs, no SSA value is defined twice, and the copies for phis
/// overwrite nothing that counts on another way.
pub proof fn lowering_keeps_live_outcomes<W>(
    m: MachineV<W>,
    own: Set<usize>,
    f: FuncV,
    live: Seq<Set<usize>>,
    b: int,
    from: usize,
    s: StateV<W>,
    fuel: nat,
)
    requires
        0 <= b < f.blocks.len() <= usize::MAX,
        promotion::lowering_room(f),
        forall|k: int|
            0 <= k < f.blocks.len() ==> translation_blocks::block_ends(#[trigger] f.blocks[k]),
        kept_apart(f.blocks, live),
        lowering_meaning::all_ways(f.blocks),
        numbering_meaning::defined_once(f.blocks),
    ensures
        meaning::outcome(
            m,
            own,
            promotion::lowered(f).blocks,
            b,
            from,
            meaning::entered(m, s, f.blocks[b].instrs, from),
            fuel,
        ) == meaning::outcome(m, own, f.blocks, b, from, s, fuel),
{
    let t = meaning::entered(m, s, f.blocks[b].instrs, from);
    live_outcomes(m, own, f, live, b, from, s, t, fuel);
}

} // verus!

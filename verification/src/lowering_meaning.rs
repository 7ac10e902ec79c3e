//! What the lowering of phis leaves of the meaning of a function.

use crate::cfg;
use crate::ir::{self, BlockV, FuncV, InstV, IrOperand};
use crate::ir_to_koopa::{self, MoveV};
use crate::meaning::{self, MachineV, StateV};
use crate::numbering_meaning;
use crate::opt::const_fold;
use crate::pass_meaning;
use crate::promotion;
use crate::promotion_meaning;
use crate::promotion_values;
use crate::translation_blocks;
use vstd::prelude::*;

verus! {

/// Whether a phi has a value from a block.
pub open spec fn brings(i: InstV, p: usize) -> bool {
    i matches InstV::Phi { incoming, .. } && exists|e: int|
        0 <= e < incoming.len() && (#[trigger] incoming[e]).1 == p
}

/// Whether a block ends in a jump to the block at a position.
pub open spec fn jumps_to(blocks: Seq<BlockV>, p: int, b: int) -> bool {
    &&& 0 <= p < blocks.len()
    &&& blocks[p].instrs.len() > 0
    &&& blocks[p].instrs.last() matches InstV::Jump { target } && cfg::label_position(
        blocks,
        target,
    ) == Some(b as usize)
}

/// The values of phis come from blocks that go nowhere else.
pub open spec fn single_ways(blocks: Seq<BlockV>) -> bool {
    forall|b: int, i: int, p: usize|
        0 <= b < blocks.len() && 0 <= i < blocks[b].instrs.len() && #[trigger] brings(
            blocks[b].instrs[i],
            p,
        ) ==> jumps_to(blocks, p as int, b)
}

/// A phi has one value from each block that leads to its block.
pub open spec fn all_ways(blocks: Seq<BlockV>) -> bool {
    &&& forall|b: int, i: int, p: usize|
        0 <= b < blocks.len() && 0 <= i < blocks[b].instrs.len() && p < blocks.len()
            && blocks[b].instrs[i] is Phi && cfg::succs(blocks, p as int).contains(b as usize)
            ==> #[trigger] brings(blocks[b].instrs[i], p)
    &&& forall|b: int, i: int|
        0 <= b < blocks.len() && 0 <= i < blocks[b].instrs.len() ==> one_value(
            #[trigger] blocks[b].instrs[i],
        )
}

/// A phi has one value from a block.
pub open spec fn one_value(i: InstV) -> bool {
    i matches InstV::Phi { incoming, .. } ==> forall|d: int, e: int|
        0 <= d < incoming.len() && 0 <= e < incoming.len() && (#[trigger] incoming[d]).1 == (
        #[trigger] incoming[e]).1 ==> incoming[d].0 == incoming[e].0
}

// ── Copies ───────────────────────────────────────────────────────────────────

/// The copies of two lists are those of the first and those of the second.
proof fn copies_of_both(a: Seq<MoveV>, c: Seq<MoveV>, k: int)
    ensures
        promotion::copies_to(a + c, k) == promotion::copies_to(a, k) + promotion::copies_to(c, k),
    decreases c.len(),
{
    if c.len() == 0 {
        assert(a + c =~= a);
        assert(promotion::copies_to(a + c, k) =~= promotion::copies_to(a, k)
            + promotion::copies_to(c, k));
    } else {
        copies_of_both(a, c.drop_last(), k);
        assert((a + c).drop_last() =~= a + c.drop_last());
        assert((a + c).last() == c.last());
        assert(promotion::copies_to(a + c, k) =~= promotion::copies_to(a, k)
            + promotion::copies_to(c, k));
    }
}

/// A phi without a value from a block asks for no copy there.
proof fn no_value_no_copy(moves: Seq<MoveV>, p: int)
    requires
        forall|e: int| 0 <= e < moves.len() ==> (#[trigger] moves[e]).label != p,
    ensures
        promotion::copies_to(moves, p) == Seq::<InstV>::empty(),
    decreases moves.len(),
{
    if moves.len() > 0 {
        let front = moves.drop_last();
        assert forall|e: int| 0 <= e < front.len() implies (#[trigger] front[e]).label != p by {
            assert(front[e] == moves[e]);
        }
        no_value_no_copy(front, p);
        assert(moves[moves.len() - 1].label != p);
    }
}

/// A list without values from a block asks for no copies there.
proof fn no_values_no_copies(instrs: Seq<InstV>, p: usize)
    requires
        forall|i: int| 0 <= i < instrs.len() ==> !brings(#[trigger] instrs[i], p),
    ensures
        promotion::copies_to(ir_to_koopa::insts_moves(instrs), p as int) == Seq::<InstV>::empty(),
    decreases instrs.len(),
{
    if instrs.len() > 0 {
        let front = instrs.drop_last();
        let last = instrs.last();
        assert forall|i: int| 0 <= i < front.len() implies !brings(#[trigger] front[i], p) by {
            assert(front[i] == instrs[i]);
        }
        no_values_no_copies(front, p);
        let moves = ir_to_koopa::inst_moves(last);
        assert(!brings(instrs[instrs.len() - 1], p));
        assert forall|e: int| 0 <= e < moves.len() implies (#[trigger] moves[e]).label != p by {
            if let InstV::Phi { incoming, .. } = last {
                assert(incoming[e].1 == moves[e].label);
            }
        }
        no_value_no_copy(moves, p as int);
        copies_of_both(ir_to_koopa::insts_moves(front), moves, p as int);
        assert(promotion::copies_to(ir_to_koopa::insts_moves(instrs), p as int) =~= Seq::empty());
    } else {
        assert(promotion::copies_to(ir_to_koopa::insts_moves(instrs), p as int) =~= Seq::empty());
    }
}

/// Where only one block takes values from a block, the copies there are for its phis.
proof fn copies_for_one(blocks: Seq<BlockV>, n: int, c: int, p: usize)
    requires
        0 <= n <= blocks.len(),
        0 <= c < blocks.len(),
        forall|b: int, i: int|
            0 <= b < blocks.len() && 0 <= i < blocks[b].instrs.len() && #[trigger] brings(
                blocks[b].instrs[i],
                p,
            ) ==> b == c,
    ensures
        promotion::copies_to(ir_to_koopa::blocks_moves(blocks.take(n)), p as int) == if c < n {
            promotion::copies_to(ir_to_koopa::insts_moves(blocks[c].instrs), p as int)
        } else {
            Seq::<InstV>::empty()
        },
    decreases n,
{
    let all = blocks.take(n);
    if n > 0 {
        copies_for_one(blocks, n - 1, c, p);
        assert(all.drop_last() =~= blocks.take(n - 1));
        assert(all.last() == blocks[n - 1]);
        let before = ir_to_koopa::blocks_moves(blocks.take(n - 1));
        let more = ir_to_koopa::insts_moves(blocks[n - 1].instrs);
        copies_of_both(before, more, p as int);
        if n - 1 != c {
            assert forall|i: int| 0 <= i < blocks[n - 1].instrs.len() implies !brings(
                #[trigger] blocks[n - 1].instrs[i],
                p,
            ) by {}
            no_values_no_copies(blocks[n - 1].instrs, p);
        }
        assert(promotion::copies_to(ir_to_koopa::blocks_moves(all), p as int) =~= if c < n {
            promotion::copies_to(ir_to_koopa::insts_moves(blocks[c].instrs), p as int)
        } else {
            Seq::<InstV>::empty()
        });
    } else {
        assert(promotion::copies_to(ir_to_koopa::blocks_moves(all), p as int) =~= Seq::empty());
    }
}

/// The state after copies that are carried out at once: each takes a value of the first state.
pub open spec fn together<W>(
    m: MachineV<W>,
    s: StateV<W>,
    t: StateV<W>,
    copies: Seq<InstV>,
) -> StateV<W>
    decreases copies.len(),
{
    if copies.len() == 0 {
        t
    } else {
        meaning::with_local(
            together(m, s, t, copies.drop_last()),
            copies.last()->Arith_dest,
            meaning::value(m, s, copies.last()->Arith_lhs),
        )
    }
}

proof fn together_on<W>(
    m: MachineV<W>,
    s: StateV<W>,
    t: StateV<W>,
    a: Seq<InstV>,
    c: Seq<InstV>,
)
    ensures
        together(m, s, t, a + c) == together(m, s, together(m, s, t, a), c),
    decreases c.len(),
{
    if c.len() == 0 {
        assert(a + c =~= a);
    } else {
        together_on(m, s, t, a, c.drop_last());
        assert((a + c).drop_last() =~= a + c.drop_last());
        assert((a + c).last() == c.last());
    }
}

/// The copies of one phi give it the value that comes in.
proof fn phi_copied<W>(
    m: MachineV<W>,
    s: StateV<W>,
    t: StateV<W>,
    dest: usize,
    incoming: Seq<(IrOperand, usize)>,
    p: usize,
    v: IrOperand,
)
    requires
        forall|e: int|
            0 <= e < incoming.len() && (#[trigger] incoming[e]).1 == p ==> incoming[e].0 == v,
    ensures
        together(
            m,
            s,
            t,
            promotion::copies_to(
                ir_to_koopa::inst_moves(InstV::Phi { dest, incoming }),
                p as int,
            ),
        ) == if brings(InstV::Phi { dest, incoming }, p) {
            meaning::with_local(t, dest, meaning::value(m, s, v))
        } else {
            t
        },
        brings(InstV::Phi { dest, incoming }, p) ==> meaning::incoming_from(incoming, p) == v,
    decreases incoming.len(),
{
    let i = InstV::Phi { dest, incoming };
    let moves = ir_to_koopa::inst_moves(i);
    if incoming.len() > 0 {
        let front = incoming.drop_last();
        let n = incoming.len() - 1;
        let before = InstV::Phi { dest, incoming: front };
        assert forall|e: int| 0 <= e < front.len() && (#[trigger] front[e]).1
            == p implies front[e].0 == v by {
            assert(incoming[e] == front[e]);
        }
        phi_copied(m, s, t, dest, front, p, v);
        assert(moves.drop_last() =~= ir_to_koopa::inst_moves(before));
        assert(moves.last() == (MoveV { label: incoming[n].1, dest, value: incoming[n].0 }));
        let first = promotion::copies_to(moves.drop_last(), p as int);
        if brings(before, p) {
            let e = choose|e: int| 0 <= e < front.len() && (#[trigger] front[e]).1 == p;
            assert(incoming[e].1 == p);
        }
        if incoming[n].1 == p {
            let copy = const_fold::copy_of(dest, v);
            assert(promotion::copies_to(moves, p as int) == first.push(copy));
            assert(first.push(copy).drop_last() =~= first);
            let u = together(m, s, t, first);
            let w = meaning::value(m, s, v);
            let done = meaning::with_local(t, dest, w);
            assert(meaning::with_local(u, dest, w).locals =~= done.locals);
            assert(brings(i, p));
        } else {
            if brings(i, p) {
                let e = choose|e: int| 0 <= e < incoming.len() && (#[trigger] incoming[e]).1 == p;
                assert(front[e].1 == p);
            }
        }
    }
}

/// The copies for the phis of a block, carried out at once, give them the values that come in.
proof fn phis_copied<W>(m: MachineV<W>, s: StateV<W>, instrs: Seq<InstV>, k: int, p: usize)
    requires
        0 <= k <= instrs.len(),
        forall|i: int| 0 <= i < instrs.len() ==> one_value(#[trigger] instrs[i]),
        forall|i: int| 0 <= i < instrs.len() && #[trigger] instrs[i] is Phi ==> brings(instrs[i], p),
    ensures
        together(
            m,
            s,
            s,
            promotion::copies_to(ir_to_koopa::insts_moves(instrs.take(k)), p as int),
        ) == meaning::entered(m, s, instrs.take(k), p),
    decreases k,
{
    let all = instrs.take(k);
    if k > 0 {
        phis_copied(m, s, instrs, k - 1, p);
        assert(all.drop_last() =~= instrs.take(k - 1));
        let last = instrs[k - 1];
        assert(all.last() == last);
        let before = ir_to_koopa::insts_moves(instrs.take(k - 1));
        let more = ir_to_koopa::inst_moves(last);
        copies_of_both(before, more, p as int);
        let t = meaning::entered(m, s, instrs.take(k - 1), p);
        together_on(
            m,
            s,
            s,
            promotion::copies_to(before, p as int),
            promotion::copies_to(more, p as int),
        );
        if let InstV::Phi { dest, incoming } = last {
            assert(one_value(last) && brings(last, p));
            let first = choose|e: int| 0 <= e < incoming.len() && (#[trigger] incoming[e]).1 == p;
            phi_copied(m, s, t, dest, incoming, p, incoming[first].0);
        } else {
            assert(promotion::copies_to(more, p as int) =~= Seq::empty());
        }
    } else {
        assert(all =~= Seq::empty());
        assert(promotion::copies_to(ir_to_koopa::insts_moves(all), p as int) =~= Seq::empty());
    }
}

// ── Copies at once ───────────────────────────────────────────────────────────

/// Whether an operand is no SSA value from an index on.
pub open spec fn op_below(op: IrOperand, base: int) -> bool {
    op matches IrOperand::Local(l) ==> l < base
}

/// Whether copies take and define SSA values below an index.
pub open spec fn copies_below(copies: Seq<InstV>, base: int) -> bool {
    forall|k: int|
        0 <= k < copies.len() ==> #[trigger] copies[k] == const_fold::copy_of(
            copies[k]->Arith_dest,
            copies[k]->Arith_lhs,
        ) && copies[k]->Arith_dest < base && op_below(copies[k]->Arith_lhs, base)
}

/// States that agree but for SSA values from an index on.
pub open spec fn near<W>(s: StateV<W>, t: StateV<W>, base: int) -> bool {
    &&& s.vars == t.vars
    &&& s.world == t.world
    &&& forall|l: usize| l < base ==> #[trigger] s.locals[l] == t.locals[l]
}

/// What is kept is kept beside everything else.
proof fn saves_run<W>(
    m: MachineV<W>,
    own: Set<usize>,
    s: StateV<W>,
    copies: Seq<InstV>,
    n: int,
    base: int,
)
    requires
        0 <= n <= copies.len(),
        copies_below(copies, base),
        0 <= base,
        base + copies.len() <= usize::MAX,
    ensures
        ({
            let u = meaning::run(m, own, s, promotion::saves(copies, n, base));
            &&& near(s, u, base)
            &&& forall|k: int|
                0 <= k < n && #[trigger] promotion::needs_saving(copies, k)
                    ==> u.locals[(base + k) as usize] == meaning::value(
                    m,
                    s,
                    copies[k]->Arith_lhs,
                )
        }),
    decreases n,
{
    if n > 0 {
        saves_run(m, own, s, copies, n - 1, base);
        let before = promotion::saves(copies, n - 1, base);
        let u0 = meaning::run(m, own, s, before);
        if promotion::needs_saving(copies, n - 1) {
            let c = copies[n - 1];
            let all = promotion::saves(copies, n, base);
            assert(all.drop_last() =~= before);
            let v = meaning::value(m, s, c->Arith_lhs);
            assert(meaning::value(m, u0, c->Arith_lhs) == v);
            assert(v.wrapping_add(0) == v);
            let u = meaning::run(m, own, s, all);
            assert(u == meaning::with_local(u0, (base + n - 1) as usize, v));
        }
    }
}

/// Copies that are carried out at once do so with what has been kept.
proof fn settled_run<W>(
    m: MachineV<W>,
    own: Set<usize>,
    s: StateV<W>,
    u: StateV<W>,
    copies: Seq<InstV>,
    n: int,
    base: int,
)
    requires
        0 <= n <= copies.len(),
        copies_below(copies, base),
        0 <= base,
        base + copies.len() <= usize::MAX,
        near(s, u, base),
        forall|k: int|
            0 <= k < copies.len() && #[trigger] promotion::needs_saving(copies, k)
                ==> u.locals[(base + k) as usize] == meaning::value(m, s, copies[k]->Arith_lhs),
    ensures
        ({
            let v = meaning::run(
                m,
                own,
                u,
                Seq::new(n as nat, |k: int| promotion::settled(copies, k, base)),
            );
            let w = together(m, s, s, copies.take(n));
            &&& near(w, v, base)
            &&& forall|l: usize| l >= base ==> #[trigger] v.locals[l] == u.locals[l]
            &&& forall|l: usize|
                !(#[trigger] promotion::overwritten(copies.take(n), l)) ==> w.locals[l]
                    == s.locals[l]
        }),
    decreases n,
{
    let list = Seq::new(n as nat, |k: int| promotion::settled(copies, k, base));
    if n > 0 {
        settled_run(m, own, s, u, copies, n - 1, base);
        let front = Seq::new((n - 1) as nat, |k: int| promotion::settled(copies, k, base));
        assert(list.drop_last() =~= front);
        let c = copies[n - 1];
        let d = c->Arith_dest;
        let x = c->Arith_lhs;
        let v0 = meaning::run(m, own, u, front);
        let w0 = together(m, s, s, copies.take(n - 1));
        let val = meaning::value(m, s, x);
        assert(val.wrapping_add(0) == val);
        assert(copies.take(n).drop_last() =~= copies.take(n - 1));
        assert(copies.take(n).last() == c);
        assert(list.last() == promotion::settled(copies, n - 1, base));
        if promotion::needs_saving(copies, n - 1) {
            let at = (base + n - 1) as usize;
            assert(v0.locals[at] == u.locals[at]);
        } else {
            if let IrOperand::Local(l) = x {
                assert(!promotion::overwritten(copies.take(n - 1), l));
                assert(w0.locals[l] == s.locals[l]);
            }
        }
        let v = meaning::run(m, own, u, list);
        assert(v == meaning::with_local(v0, d, val));
        let w = together(m, s, s, copies.take(n));
        assert forall|l: usize|
            !(#[trigger] promotion::overwritten(copies.take(n), l)) implies w.locals[l]
            == s.locals[l] by {
            assert(!promotion::overwritten(copies.take(n - 1), l)) by {
                if promotion::overwritten(copies.take(n - 1), l) {
                    let j = choose|j: int|
                        0 <= j < n - 1 && promotion::overwrites(
                            #[trigger] copies.take(n - 1)[j],
                            l,
                        );
                    assert(promotion::overwrites(copies.take(n)[j], l));
                }
            }
            if d == l {
                assert(!promotion::overwrites(copies.take(n)[n - 1], l));
            }
        }
    } else {
        assert(copies.take(0) =~= Seq::empty());
        assert(list =~= Seq::empty());
    }
}

/// Copies that are carried out at once do the same as all of them together.
pub(crate) proof fn at_once_runs<W>(
    m: MachineV<W>,
    own: Set<usize>,
    s: StateV<W>,
    copies: Seq<InstV>,
    base: int,
)
    requires
        copies_below(copies, base),
        0 <= base,
        base + copies.len() <= usize::MAX,
    ensures
        near(
            together(m, s, s, copies),
            meaning::run(m, own, s, promotion::at_once(copies, base)),
            base,
        ),
{
    let n = copies.len() as int;
    let first = promotion::saves(copies, n, base);
    let rest = Seq::new(copies.len(), |k: int| promotion::settled(copies, k, base));
    saves_run(m, own, s, copies, n, base);
    let u = meaning::run(m, own, s, first);
    settled_run(m, own, s, u, copies, n, base);
    promotion_meaning::run_on(m, own, s, first, rest);
    assert(copies.take(n) =~= copies);
}

/// Copies from states that agree lead to states that agree.
proof fn together_near<W>(
    m: MachineV<W>,
    s: StateV<W>,
    t: StateV<W>,
    copies: Seq<InstV>,
    base: int,
)
    requires
        copies_below(copies, base),
        near(s, t, base),
    ensures
        near(together(m, s, s, copies), together(m, t, t, copies), base),
    decreases copies.len(),
{
    if copies.len() > 0 {
        let front = copies.drop_last();
        assert(copies_below(front, base)) by {
            assert forall|k: int| 0 <= k < front.len() implies #[trigger] front[k]
                == const_fold::copy_of(front[k]->Arith_dest, front[k]->Arith_lhs)
                && front[k]->Arith_dest < base && op_below(front[k]->Arith_lhs, base) by {
                assert(front[k] == copies[k]);
            }
        }
        together_near(m, s, t, front, base);
        let c = copies[copies.len() - 1];
        assert(op_below(c->Arith_lhs, base));
        let x = together(m, s, s, copies);
        let y = together(m, t, t, copies);
        assert forall|l: usize| l < base implies #[trigger] x.locals[l] == y.locals[l] by {
            assert(together(m, s, s, front).locals[l] == together(m, t, t, front).locals[l]);
        }
    }
}

/// The copies that some values ask for take and define SSA values below an index if the values do.
pub(crate) proof fn moves_below(moves: Seq<MoveV>, k: int, base: int)
    requires
        forall|e: int|
            0 <= e < moves.len() ==> (#[trigger] moves[e]).dest < base && op_below(
                moves[e].value,
                base,
            ),
    ensures
        copies_below(promotion::copies_to(moves, k), base),
    decreases moves.len(),
{
    if moves.len() > 0 {
        let front = moves.drop_last();
        assert forall|e: int| 0 <= e < front.len() implies (#[trigger] front[e]).dest < base
            && op_below(front[e].value, base) by {
            assert(front[e] == moves[e]);
        }
        moves_below(front, k, base);
        assert(moves[moves.len() - 1].dest < base);
        let before = promotion::copies_to(front, k);
        let all = promotion::copies_to(moves, k);
        assert forall|x: int| 0 <= x < all.len() implies #[trigger] all[x] == const_fold::copy_of(
            all[x]->Arith_dest,
            all[x]->Arith_lhs,
        ) && all[x]->Arith_dest < base && op_below(all[x]->Arith_lhs, base) by {
            if x < before.len() {
                assert(all[x] == before[x]);
            }
        }
    }
}

/// The values that come in to phis are below the indices of new SSA values.
proof fn phis_below(instrs: Seq<InstV>, n: int, base: int)
    requires
        0 <= n <= instrs.len(),
        insts_below(instrs, base),
    ensures
        forall|e: int|
            0 <= e < ir_to_koopa::insts_moves(instrs.take(n)).len() ==> (
            #[trigger] ir_to_koopa::insts_moves(instrs.take(n))[e]).dest < base && op_below(
                ir_to_koopa::insts_moves(instrs.take(n))[e].value,
                base,
            ),
    decreases n,
{
    let all = instrs.take(n);
    if n > 0 {
        phis_below(instrs, n - 1, base);
        assert(all.drop_last() =~= instrs.take(n - 1));
        let last = instrs[n - 1];
        assert(all.last() == last);
        let before = ir_to_koopa::insts_moves(instrs.take(n - 1));
        let more = ir_to_koopa::inst_moves(last);
        let moves = ir_to_koopa::insts_moves(all);
        assert(moves == before + more);
        assert forall|e: int| 0 <= e < moves.len() implies (#[trigger] moves[e]).dest < base
            && op_below(moves[e].value, base) by {
            if e < before.len() {
                assert(moves[e] == before[e]);
            } else {
                let d = e - before.len();
                assert(moves[e] == more[d]);
                if let InstV::Phi { dest, incoming } = last {
                    assert(numbering_meaning::defines(instrs[n - 1], dest));
                    assert(promotion_values::mentions(instrs[n - 1], dest));
                    assert(ir::inst_operands(last)[d] == incoming[d].0);
                    if let IrOperand::Local(l) = incoming[d].0 {
                        assert(ir::inst_operands(last).contains(IrOperand::Local(l)));
                        assert(promotion_values::mentions(instrs[n - 1], l));
                    }
                }
            }
        }
    } else {
        assert(all =~= Seq::empty());
    }
}

/// Whether instructions mention SSA values below an index only.
pub open spec fn insts_below(instrs: Seq<InstV>, base: int) -> bool {
    forall|i: int, l: usize|
        0 <= i < instrs.len() && #[trigger] promotion_values::mentions(instrs[i], l) ==> l < base
}

/// An operand of an instruction has the same value in states that agree.
proof fn operand_near<W>(
    m: MachineV<W>,
    s: StateV<W>,
    t: StateV<W>,
    i: InstV,
    k: int,
    base: int,
)
    requires
        near(s, t, base),
        forall|l: usize| #[trigger] promotion_values::mentions(i, l) ==> l < base,
        0 <= k < ir::inst_operands(i).len(),
    ensures
        meaning::value(m, s, ir::inst_operands(i)[k]) == meaning::value(
            m,
            t,
            ir::inst_operands(i)[k],
        ),
{
    if let IrOperand::Local(l) = ir::inst_operands(i)[k] {
        assert(ir::inst_operands(i).contains(IrOperand::Local(l)));
        assert(promotion_values::mentions(i, l));
    }
}

/// An instruction leads from states that agree to states that agree.
proof fn step_near<W>(
    m: MachineV<W>,
    own: Set<usize>,
    s: StateV<W>,
    t: StateV<W>,
    i: InstV,
    base: int,
)
    requires
        near(s, t, base),
        forall|l: usize| #[trigger] promotion_values::mentions(i, l) ==> l < base,
    ensures
        near(meaning::step(m, own, s, i), meaning::step(m, own, t, i), base),
{
    let ops = ir::inst_operands(i);
    if ops.len() > 0 {
        operand_near(m, s, t, i, 0, base);
    }
    if ops.len() > 1 {
        operand_near(m, s, t, i, 1, base);
    }
    if let InstV::Call { args, .. } = i {
        assert(meaning::values(m, s, args) =~= meaning::values(m, t, args)) by {
            assert forall|k: int| 0 <= k < args.len() implies #[trigger] meaning::value(
                m,
                s,
                args[k],
            ) == meaning::value(m, t, args[k]) by {
                assert(ops[k] == args[k]);
                operand_near(m, s, t, i, k, base);
            }
        }
    }
}

/// Instructions lead from states that agree to states that agree.
pub(crate) proof fn run_near<W>(
    m: MachineV<W>,
    own: Set<usize>,
    s: StateV<W>,
    t: StateV<W>,
    instrs: Seq<InstV>,
    base: int,
)
    requires
        near(s, t, base),
        insts_below(instrs, base),
    ensures
        near(meaning::run(m, own, s, instrs), meaning::run(m, own, t, instrs), base),
    decreases instrs.len(),
{
    if instrs.len() > 0 {
        let front = instrs.drop_last();
        assert forall|i: int, l: usize|
            0 <= i < front.len() && #[trigger] promotion_values::mentions(front[i], l) implies l
            < base by {
            assert(promotion_values::mentions(instrs[i], l));
        }
        run_near(m, own, s, t, front, base);
        assert forall|l: usize| #[trigger]
            promotion_values::mentions(instrs.last(), l) implies l < base by {
            assert(promotion_values::mentions(instrs[instrs.len() - 1], l));
        }
        step_near(
            m,
            own,
            meaning::run(m, own, s, front),
            meaning::run(m, own, t, front),
            instrs.last(),
            base,
        );
    }
}

// ── Lowered blocks ───────────────────────────────────────────────────────────

/// The end of a block is where it is split.
proof fn split_at_end(instrs: Seq<InstV>, n: int)
    requires
        0 <= n <= instrs.len(),
        forall|i: int| 0 <= i < n ==> !ir::terminator(#[trigger] instrs[i]),
    ensures
        promotion::split_at(instrs.take(n)) == n,
    decreases n,
{
    if n > 0 {
        split_at_end(instrs, n - 1);
        assert(instrs.take(n).drop_last() =~= instrs.take(n - 1));
        assert(instrs.take(n).last() == instrs[n - 1]);
    }
}

/// Phis do nothing in a block, so that it does the same without them.
proof fn runs_without_phis<W>(m: MachineV<W>, own: Set<usize>, s: StateV<W>, instrs: Seq<InstV>)
    ensures
        meaning::run(m, own, s, ir_to_koopa::without_phis(instrs)) == meaning::run(
            m,
            own,
            s,
            instrs,
        ),
        forall|i: int|
            0 <= i < ir_to_koopa::without_phis(instrs).len()
                ==> !(#[trigger] ir_to_koopa::without_phis(instrs)[i] is Phi),
    decreases instrs.len(),
{
    reveal(Seq::filter);
    if instrs.len() > 0 {
        let front = instrs.drop_last();
        runs_without_phis(m, own, s, front);
        let before = ir_to_koopa::without_phis(front);
        let all = ir_to_koopa::without_phis(instrs);
        if !(instrs.last() is Phi) {
            assert(all == before.push(instrs.last()));
            assert(all.drop_last() =~= before);
        }
        assert forall|i: int| 0 <= i < all.len() implies !(#[trigger] all[i] is Phi) by {
            if i < before.len() {
                assert(all[i] == before[i]);
            }
        }
    }
}

/// A lowered block does what the block does, and then the copies at its end.
pub(crate) proof fn lowered_block_runs<W>(
    m: MachineV<W>,
    own: Set<usize>,
    s: StateV<W>,
    b: BlockV,
    copies: Seq<InstV>,
)
    requires
        translation_blocks::block_ends(b),
        forall|i: int| 0 <= i < copies.len() ==> #[trigger] copies[i] is Arith,
    ensures
        ({
            let new = promotion::lowered_block(b, copies).instrs;
            &&& new.len() > 0
            &&& new.last() == b.instrs.last()
            &&& meaning::run(m, own, s, new) == meaning::run(
                m,
                own,
                meaning::run(m, own, s, b.instrs),
                copies,
            )
            &&& forall|i: int| 0 <= i < new.len() ==> !(#[trigger] new[i] is Phi)
        }),
{
    let instrs = b.instrs;
    let n = instrs.len() - 1;
    let last = instrs.last();
    split_at_end(instrs, n);
    assert(instrs.drop_last() =~= instrs.take(n));
    assert(ir::terminator(instrs[n]));
    assert(promotion::split_at(instrs) == n);
    let first = ir_to_koopa::without_phis(instrs.take(n));
    let end = ir_to_koopa::without_phis(instrs.skip(n));
    assert(instrs.skip(n) =~= seq![last]);
    assert(end =~= seq![last]) by {
        reveal(Seq::filter);
        assert(seq![last].drop_last() =~= Seq::empty());
        assert(ir_to_koopa::without_phis(Seq::empty()) =~= Seq::empty());
    }
    let new = promotion::lowered_block(b, copies).instrs;
    assert(new =~= (first + copies).push(last));
    assert(new.drop_last() =~= first + copies);
    runs_without_phis(m, own, s, instrs.take(n));
    promotion_meaning::run_on(m, own, s, first, copies);
    assert forall|i: int| 0 <= i < new.len() implies !(#[trigger] new[i] is Phi) by {
        if i < first.len() {
            assert(new[i] == first[i]);
        } else if i < first.len() + copies.len() {
            assert(new[i] == copies[i - first.len()]);
        }
    }
}

/// Lowered blocks from a state that agrees with that of the function.
pub(crate) proof fn lowered_outcomes<W>(
    m: MachineV<W>,
    own: Set<usize>,
    f: FuncV,
    b: int,
    from: usize,
    s: StateV<W>,
    t: StateV<W>,
    fuel: nat,
)
    requires
        0 <= b < f.blocks.len() <= usize::MAX,
        promotion::lowering_room(f) || ir_to_koopa::blocks_moves(f.blocks).len() == 0,
        forall|k: int|
            0 <= k < f.blocks.len() ==> translation_blocks::block_ends(#[trigger] f.blocks[k]),
        single_ways(f.blocks),
        all_ways(f.blocks),
        near(
            meaning::entered(m, s, f.blocks[b].instrs, from),
            t,
            promotion::fresh_base(f.blocks),
        ),
    ensures
        meaning::outcome(m, own, promotion::lowered(f).blocks, b, from, t, fuel)
            == meaning::outcome(m, own, f.blocks, b, from, s, fuel),
    decreases fuel,
{
    let blocks = f.blocks;
    let new = promotion::lowered(f).blocks;
    let base = promotion::fresh_base(blocks);
    if fuel > 0 {
        let instrs = blocks[b].instrs;
        let last = instrs.last();
        let moves = ir_to_koopa::blocks_moves(blocks);
        let copies = promotion::copies_to(moves, b);
        let done = promotion::copies_at(blocks, b);
        promotion::copies_at_are_arith(blocks, b);
        promotion::copies_are_fewer(moves, b);
        let s0 = meaning::entered(m, s, instrs, from);
        assert(translation_blocks::block_ends(blocks[b]));
        assert(new[b] == promotion::lowered_block(blocks[b], done));
        lowered_block_runs(m, own, t, blocks[b], done);
        promotion_meaning::no_phis_entered(m, t, new[b].instrs, from);
        block_below(blocks, b);
        run_near(m, own, s0, t, instrs, base);
        let s1 = meaning::run(m, own, s0, instrs);
        let t0 = meaning::run(m, own, t, instrs);
        let t1 = meaning::run(m, own, t, new[b].instrs);
        assert(blocks.take(blocks.len() as int) =~= blocks);
        let label = pass_meaning::next_label(m, s1, last);
        assert forall|k: int| 0 <= k < new.len() implies (#[trigger] new[k]).label
            == blocks[k].label by {}
        pass_meaning::same_positions(new, blocks, label);
        if ir::inst_operands(last).len() > 0 {
            assert forall|l: usize| #[trigger]
                promotion_values::mentions(last, l) implies l < base by {
                assert(promotion_values::mentions(instrs[instrs.len() - 1], l));
            }
            operand_near(m, s1, t0, last, 0, base);
        }
        if !(last is Jump) {
            assert(copies =~= Seq::empty()) by {
                assert forall|c: int, i: int|
                    0 <= c < blocks.len() && 0 <= i < blocks[c].instrs.len() && #[trigger] brings(
                        blocks[c].instrs[i],
                        b as usize,
                    ) implies c == b by {
                    assert(jumps_to(blocks, b, c));
                }
                copies_for_one(blocks, blocks.len() as int, b, b as usize);
                assert forall|i: int| 0 <= i < instrs.len() implies !brings(
                    #[trigger] instrs[i],
                    b as usize,
                ) by {
                    if brings(blocks[b].instrs[i], b as usize) {
                        assert(jumps_to(blocks, b, b));
                    }
                }
                no_values_no_copies(instrs, b as usize);
            }
            promotion::nothing_saved(copies, base);
            assert(done =~= Seq::empty());
            assert(t1 == t0);
        }
        if last is Jump || last is Br {
            if let Some(c) = cfg::label_position(blocks, label) {
                let labels = cfg::exits(blocks[b]);
                let at: int = if labels[0] == label {
                    0
                } else {
                    1
                };
                assert(labels[at] == label);
                promotion_meaning::position_found(blocks, labels, at);
                cfg::label_position_is_last(blocks, label);
                let target = blocks[c as int].instrs;
                let size = target.len() as int;
                assert forall|i: int| 0 <= i < target.len() && #[trigger] target[i] is Phi implies brings(
                    target[i],
                    b as usize,
                ) by {
                    assert(brings(blocks[c as int].instrs[i], b as usize));
                }
                assert(target.take(size) =~= target);
                if last is Jump {
                    assert forall|d: int, i: int|
                        0 <= d < blocks.len() && 0 <= i < blocks[d].instrs.len()
                            && #[trigger] brings(blocks[d].instrs[i], b as usize) implies d
                        == c by {
                        assert(jumps_to(blocks, b, d));
                    }
                    copies_for_one(blocks, blocks.len() as int, c as int, b as usize);
                    assert forall|i: int| 0 <= i < target.len() implies one_value(
                        #[trigger] target[i],
                    ) by {
                        assert(one_value(blocks[c as int].instrs[i]));
                    }
                    block_below(blocks, c as int);
                    phis_below(target, size, base);
                    moves_below(ir_to_koopa::insts_moves(target), b, base);
                    phis_copied(m, s1, target, size, b as usize);
                    together_near(m, s1, t0, copies, base);
                    if copies.len() > 0 {
                        at_once_runs(m, own, t0, copies, base);
                    } else {
                        promotion::nothing_saved(copies, base);
                        assert(done =~= Seq::empty());
                    }
                } else {
                    assert forall|i: int| 0 <= i < target.len() implies !(
                    #[trigger] target[i] is Phi) by {
                        if target[i] is Phi {
                            assert(brings(blocks[c as int].instrs[i], b as usize));
                            assert(jumps_to(blocks, b, c as int));
                        }
                    }
                    promotion_meaning::no_phis_entered(m, s1, target, b as usize);
                }
                assert(near(meaning::entered(m, s1, target, b as usize), t1, base));
                lowered_outcomes(
                    m,
                    own,
                    f,
                    c as int,
                    b as usize,
                    s1,
                    t1,
                    (fuel - 1) as nat,
                );
            }
            assert(meaning::outcome_at(m, own, new, label, b as usize, t1, fuel)
                == meaning::outcome_at(m, own, blocks, label, b as usize, s1, fuel));
        }
    }
}

/// The SSA values of a block are below those for what is new.
pub(crate) proof fn block_below(blocks: Seq<BlockV>, b: int)
    requires
        0 <= b < blocks.len(),
    ensures
        insts_below(blocks[b].instrs, promotion::fresh_base(blocks)),
{
    assert forall|i: int, l: usize|
        0 <= i < blocks[b].instrs.len() && #[trigger] promotion_values::mentions(
            blocks[b].instrs[i],
            l,
        ) implies l < promotion::fresh_base(blocks) by {
        promotion_values::values_below_base(blocks, b, i);
    }
}

/// A function with its phis lowered comes to the same end as the function, in as many blocks,
/// once the block at the start has been entered: blocks end in branches or returns, phis have one
/// value from each block that leads to theirs, and such blocks lead nowhere else. Phis of a block
/// may exchange their values.
pub proof fn lowering_keeps_outcomes<W>(
    m: MachineV<W>,
    own: Set<usize>,
    f: FuncV,
    b: int,
    from: usize,
    s: StateV<W>,
    fuel: nat,
)
    requires
        0 <= b < f.blocks.len() <= usize::MAX,
        promotion::lowering_room(f),
        forall|k: int|
            0 <= k < f.blocks.len() ==> translation_blocks::block_ends(#[trigger] f.blocks[k]),
        single_ways(f.blocks),
        all_ways(f.blocks),
    ensures
        meaning::outcome(
            m,
            own,
            promotion::lowered(f).blocks,
            b,
            from,
            meaning::entered(m, s, f.blocks[b].instrs, from),
            fuel,
        ) == meaning::outcome(m, own, f.blocks, b, from, s, fuel),
{
    lowered_outcomes(
        m,
        own,
        f,
        b,
        from,
        s,
        meaning::entered(m, s, f.blocks[b].instrs, from),
        fuel,
    );
}

/// Where there are no phis, no values come in.
pub(crate) proof fn no_phis_no_moves(blocks: Seq<BlockV>, n: int)
    requires
        0 <= n <= blocks.len(),
        translation_blocks::no_phis(blocks),
    ensures
        ir_to_koopa::blocks_moves(blocks.take(n)).len() == 0,
    decreases n,
{
    if n > 0 {
        no_phis_no_moves(blocks, n - 1);
        assert(blocks.take(n).drop_last() =~= blocks.take(n - 1));
        no_phis_no_moves_in(blocks, n - 1, blocks[n - 1].instrs.len() as int);
        assert(blocks[n - 1].instrs.take(blocks[n - 1].instrs.len() as int)
            =~= blocks[n - 1].instrs);
    } else {
        assert(blocks.take(0) =~= Seq::empty());
    }
}

proof fn no_phis_no_moves_in(blocks: Seq<BlockV>, b: int, n: int)
    requires
        0 <= b < blocks.len(),
        0 <= n <= blocks[b].instrs.len(),
        translation_blocks::no_phis(blocks),
    ensures
        ir_to_koopa::insts_moves(blocks[b].instrs.take(n)).len() == 0,
    decreases n,
{
    let instrs = blocks[b].instrs;
    if n > 0 {
        no_phis_no_moves_in(blocks, b, n - 1);
        assert(instrs.take(n).drop_last() =~= instrs.take(n - 1));
        assert(!(blocks[b].instrs[n - 1] is Phi));
    } else {
        assert(instrs.take(0) =~= Seq::empty());
    }
}

} // verus!

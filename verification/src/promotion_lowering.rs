//! The promotion of variables followed by the lowering of phis leaves the meaning of a function.

use crate::cfg;
use crate::domtree;
use crate::ir::{self, BlockV, FuncV, InstV, IrOperand};
use crate::ir_to_koopa::{self, MoveV};
use crate::lowering_meaning;
use crate::meaning::{self, MachineV, StateV};
use crate::numbering_meaning;
use crate::opt::const_fold;
use crate::pass_meaning;
use crate::promotion::{self, Env};
use crate::promotion_meaning;
use crate::promotion_phis;
use crate::promotion_rename;
use crate::promotion_tree;
use crate::promotion_values;
use crate::translation_blocks;
use vstd::prelude::*;

verus! {

// ── Copies and phis ──────────────────────────────────────────────────────────

/// Whether a copy is for a value that a phi has from a block.
spec fn move_of(i: InstV, e: int, m: MoveV) -> bool {
    i matches InstV::Phi { dest, incoming } && 0 <= e < incoming.len() && m == (MoveV {
        label: incoming[e].1,
        dest,
        value: incoming[e].0,
    })
}

/// Whether a phi of a list asks for a copy.
spec fn asked_in(instrs: Seq<InstV>, m: MoveV) -> bool {
    exists|i: int, e: int| 0 <= i < instrs.len() && #[trigger] move_of(instrs[i], e, m)
}

/// Whether a phi of some blocks asks for a copy.
spec fn asked_by(blocks: Seq<BlockV>, m: MoveV) -> bool {
    exists|b: int, i: int, e: int|
        0 <= b < blocks.len() && 0 <= i < blocks[b].instrs.len() && #[trigger] move_of(
            blocks[b].instrs[i],
            e,
            m,
        )
}

/// Whether an instruction is a copy among some that belongs to a block.
spec fn copied_from(moves: Seq<MoveV>, k: int, c: InstV) -> bool {
    exists|i: int|
        0 <= i < moves.len() && (#[trigger] moves[i]).label == k && c == const_fold::copy_of(
            moves[i].dest,
            moves[i].value,
        )
}

/// The copies that a list asks for are those for the values of its phis.
proof fn insts_moves_are(instrs: Seq<InstV>)
    ensures
        forall|x: int|
            0 <= x < ir_to_koopa::insts_moves(instrs).len() ==> asked_in(
                instrs,
                #[trigger] ir_to_koopa::insts_moves(instrs)[x],
            ),
        forall|i: int, e: int, m: MoveV|
            0 <= i < instrs.len() && #[trigger] move_of(instrs[i], e, m)
                ==> ir_to_koopa::insts_moves(instrs).contains(m),
    decreases instrs.len(),
{
    if instrs.len() > 0 {
        let front = instrs.drop_last();
        let last = instrs.last();
        let n = instrs.len() - 1;
        insts_moves_are(front);
        let before = ir_to_koopa::insts_moves(front);
        let more = ir_to_koopa::inst_moves(last);
        let all = ir_to_koopa::insts_moves(instrs);
        assert(all == before + more);
        assert forall|x: int| 0 <= x < all.len() implies asked_in(instrs, #[trigger] all[x]) by {
            if x < before.len() {
                assert(all[x] == before[x]);
                let (i, e) = choose|i: int, e: int|
                    0 <= i < front.len() && #[trigger] move_of(front[i], e, before[x]);
                assert(move_of(instrs[i], e, all[x]));
            } else {
                assert(all[x] == more[x - before.len()]);
                assert(move_of(instrs[n], x - before.len(), all[x]));
            }
        }
        assert forall|i: int, e: int, m: MoveV|
            0 <= i < instrs.len() && #[trigger] move_of(instrs[i], e, m) implies all.contains(
            m,
        ) by {
            if i < n {
                assert(move_of(front[i], e, m));
                let x = choose|x: int| 0 <= x < before.len() && before[x] == m;
                assert(all[x] == m);
            } else {
                assert(more[e] == m);
                assert(all[before.len() + e] == m);
            }
        }
    }
}

/// The copies that some blocks ask for are those for the values of their phis.
proof fn blocks_moves_are(blocks: Seq<BlockV>)
    ensures
        forall|x: int|
            0 <= x < ir_to_koopa::blocks_moves(blocks).len() ==> asked_by(
                blocks,
                #[trigger] ir_to_koopa::blocks_moves(blocks)[x],
            ),
        forall|b: int, i: int, e: int, m: MoveV|
            0 <= b < blocks.len() && 0 <= i < blocks[b].instrs.len() && #[trigger] move_of(
                blocks[b].instrs[i],
                e,
                m,
            ) ==> ir_to_koopa::blocks_moves(blocks).contains(m),
    decreases blocks.len(),
{
    if blocks.len() > 0 {
        let front = blocks.drop_last();
        let n = blocks.len() - 1;
        let instrs = blocks[n].instrs;
        blocks_moves_are(front);
        insts_moves_are(instrs);
        let before = ir_to_koopa::blocks_moves(front);
        let more = ir_to_koopa::insts_moves(instrs);
        let all = ir_to_koopa::blocks_moves(blocks);
        assert(all == before + more);
        assert forall|x: int| 0 <= x < all.len() implies asked_by(blocks, #[trigger] all[x]) by {
            if x < before.len() {
                assert(all[x] == before[x]);
                let (b, i, e) = choose|b: int, i: int, e: int|
                    0 <= b < front.len() && 0 <= i < front[b].instrs.len() && #[trigger] move_of(
                        front[b].instrs[i],
                        e,
                        before[x],
                    );
                assert(move_of(blocks[b].instrs[i], e, all[x]));
            } else {
                assert(all[x] == more[x - before.len()]);
                let (i, e) = choose|i: int, e: int|
                    0 <= i < instrs.len() && #[trigger] move_of(
                        instrs[i],
                        e,
                        more[x - before.len()],
                    );
                assert(move_of(blocks[n].instrs[i], e, all[x]));
            }
        }
        assert forall|b: int, i: int, e: int, m: MoveV|
            0 <= b < blocks.len() && 0 <= i < blocks[b].instrs.len() && #[trigger] move_of(
                blocks[b].instrs[i],
                e,
                m,
            ) implies all.contains(m) by {
            if b < n {
                assert(move_of(front[b].instrs[i], e, m));
                let x = choose|x: int| 0 <= x < before.len() && before[x] == m;
                assert(all[x] == m);
            } else {
                assert(move_of(instrs[i], e, m));
                let x = choose|x: int| 0 <= x < more.len() && more[x] == m;
                assert(all[before.len() + x] == m);
            }
        }
    }
}

/// The copies at a block are those that belong to it.
proof fn copies_to_are(moves: Seq<MoveV>, k: int)
    ensures
        forall|x: int|
            0 <= x < promotion::copies_to(moves, k).len() ==> copied_from(
                moves,
                k,
                #[trigger] promotion::copies_to(moves, k)[x],
            ),
        forall|i: int|
            0 <= i < moves.len() && (#[trigger] moves[i]).label == k ==> promotion::copies_to(
                moves,
                k,
            ).contains(const_fold::copy_of(moves[i].dest, moves[i].value)),
    decreases moves.len(),
{
    if moves.len() > 0 {
        let front = moves.drop_last();
        let n = moves.len() - 1;
        copies_to_are(front, k);
        let before = promotion::copies_to(front, k);
        let all = promotion::copies_to(moves, k);
        assert forall|x: int| 0 <= x < all.len() implies copied_from(
            moves,
            k,
            #[trigger] all[x],
        ) by {
            if x < before.len() {
                assert(all[x] == before[x]);
                let i = choose|i: int|
                    0 <= i < front.len() && (#[trigger] front[i]).label == k && before[x]
                        == const_fold::copy_of(front[i].dest, front[i].value);
                assert(moves[i] == front[i]);
            } else {
                assert(moves[n].label == k);
            }
        }
        assert forall|i: int| 0 <= i < moves.len() && (#[trigger] moves[i]).label
            == k implies all.contains(const_fold::copy_of(moves[i].dest, moves[i].value)) by {
            if i < n {
                assert(front[i] == moves[i]);
                let x = choose|x: int|
                    0 <= x < before.len() && before[x] == const_fold::copy_of(
                        front[i].dest,
                        front[i].value,
                    );
                assert(all[x] == before[x]);
            } else {
                assert(all[before.len() as int] == const_fold::copy_of(moves[i].dest, moves[i].value));
            }
        }
    }
}

// ── Copies at the end of a block ─────────────────────────────────────────────

/// Whether an instruction gives a phi for a variable the value of the variable.
spec fn gives(f: FuncV, env: Env, b: int, k: int, i: InstV) -> bool {
    &&& 0 <= b < f.blocks.len()
    &&& 0 <= k < promotion_meaning::input(f).phis[b].len()
    &&& i == const_fold::copy_of(
        promotion_meaning::input(f).phis[b][k].1,
        promotion::value_of(env, promotion_meaning::input(f).phis[b][k].0),
    )
}

/// Whether an instruction gives some phi the value of its variable.
spec fn given(f: FuncV, env: Env, i: InstV) -> bool {
    exists|b: int, k: int| #[trigger] gives(f, env, b, k, i)
}

/// Copies of the values of variables to phis for them leave all values of variables, and the phis
/// have the values.
proof fn copies_carry<W>(
    m: MachineV<W>,
    own: Set<usize>,
    f: FuncV,
    p: int,
    kp: nat,
    copies: Seq<InstV>,
    s: StateV<W>,
    t: StateV<W>,
)
    requires
        promotion_values::plain(f),
        promotion::promotable(f.blocks).len() > 0,
        0 <= p < f.blocks.len(),
        promotion_tree::at_depth(promotion::func_idom(f.blocks), p, kp),
        promotion_meaning::carries(
            m,
            promotion_meaning::input(f).promoted,
            promotion::fresh_base(f.blocks),
            promotion_rename::env_end(
                promotion_meaning::input(f),
                promotion::func_idom(f.blocks),
                p,
            ),
            s,
            t,
        ),
        forall|x: int|
            0 <= x < copies.len() ==> given(
                f,
                promotion_rename::env_end(
                    promotion_meaning::input(f),
                    promotion::func_idom(f.blocks),
                    p,
                ),
                #[trigger] copies[x],
            ),
    ensures
        ({
            let r = promotion_meaning::input(f);
            let env = promotion_rename::env_end(r, promotion::func_idom(f.blocks), p);
            let t1 = meaning::run(m, own, t, copies);
            &&& promotion_meaning::carries(
                m,
                r.promoted,
                promotion::fresh_base(f.blocks),
                env,
                s,
                t1,
            )
            &&& forall|b: int, k: int, x: int|
                0 <= x < copies.len() && #[trigger] gives(f, env, b, k, copies[x])
                    ==> t1.locals[r.phis[b][k].1] == s.vars[r.phis[b][k].0]
        }),
    decreases copies.len(),
{
    let r = promotion_meaning::input(f);
    let idom = promotion::func_idom(f.blocks);
    let base = promotion::fresh_base(f.blocks);
    let env = promotion_rename::env_end(r, idom, p);
    let (phi, simple) = promotion_values::chosen(f);
    promotion_values::setting_is_prepared(f);
    if copies.len() > 0 {
        let front = copies.drop_last();
        let n = copies.len() - 1;
        let last = copies[n];
        assert forall|x: int| 0 <= x < front.len() implies given(f, env, #[trigger] front[x]) by {
            assert(front[x] == copies[x]);
        }
        copies_carry(m, own, f, p, kp, front, s, t);
        let t0 = meaning::run(m, own, t, front);
        let t1 = meaning::run(m, own, t, copies);
        assert(given(f, env, copies[n]));
        let (b, k) = choose|b: int, k: int| #[trigger] gives(f, env, b, k, copies[n]);
        let (g, dest) = r.phis[b][k];
        let v = promotion::value_of(env, g);
        assert(promotion_phis::has_phi(r.phis, b, g)) by {
            assert(r.phis[b][k].0 == g);
        }
        assert(r.promoted.contains(g)) by {
            let q = choose|q: int| 0 <= q < phi.len() && phi[q] == g;
            assert(r.promoted[q] == g);
        }
        let w = meaning::value(m, t0, v);
        assert(w == s.vars[g]);
        assert(w.wrapping_add(0) == w);
        assert(t1 == meaning::with_local(t0, dest, w));
        assert(r.phis[b][k].1 >= base);
        assert forall|l: usize| l < base implies #[trigger] s.locals[l] == t1.locals[l] by {
            assert(s.locals[l] == t0.locals[l]);
        }
        assert forall|h: usize| !r.promoted.contains(h) implies #[trigger] s.vars[h]
            == t1.vars[h] by {
            assert(s.vars[h] == t0.vars[h]);
        }
        assert forall|h: usize| #[trigger] r.promoted.contains(h) implies s.vars[h]
            == meaning::value(m, t1, promotion::value_of(env, h)) by {
            if promotion::value_of(env, h) == IrOperand::Local(dest) {
                phi_value_is_own(f, p, kp, h, dest);
                let (x, q) = choose|x: int, q: int|
                    0 <= x < r.phis.len() && 0 <= q < r.phis[x].len() && #[trigger] r.phis[x][q] == (
                        h,
                        dest,
                    );
                assert(r.phis[x][q].1 == r.phis[b][k].1);
            }
        }
        assert forall|c: int, j: int, x: int|
            0 <= x < copies.len() && #[trigger] gives(
                f,
                env,
                c,
                j,
                copies[x],
            ) implies t1.locals[r.phis[c][j].1] == s.vars[r.phis[c][j].0] by {
            if r.phis[c][j].1 == dest {
                assert(r.phis[c][j].1 == r.phis[b][k].1);
            } else if x < n {
                assert(gives(f, env, c, j, front[x]));
            }
        }
    }
}

/// No copy of the value of a variable to a phi takes what another has changed.
proof fn nothing_changed(f: FuncV, p: int, kp: nat, copies: Seq<InstV>)
    requires
        promotion_values::plain(f),
        promotion::promotable(f.blocks).len() > 0,
        0 <= p < f.blocks.len(),
        promotion_tree::at_depth(promotion::func_idom(f.blocks), p, kp),
        forall|x: int|
            0 <= x < copies.len() ==> given(
                f,
                promotion_rename::env_end(
                    promotion_meaning::input(f),
                    promotion::func_idom(f.blocks),
                    p,
                ),
                #[trigger] copies[x],
            ),
    ensures
        forall|k: int| 0 <= k < copies.len() ==> !(#[trigger] promotion::needs_saving(copies, k)),
{
    let r = promotion_meaning::input(f);
    let idom = promotion::func_idom(f.blocks);
    let env = promotion_rename::env_end(r, idom, p);
    let (phi, simple) = promotion_values::chosen(f);
    promotion_values::setting_is_prepared(f);
    assert forall|k: int| 0 <= k < copies.len() implies !(#[trigger] promotion::needs_saving(
        copies,
        k,
    )) by {
        if promotion::needs_saving(copies, k) {
            let l = copies[k]->Arith_lhs->Local_0;
            let front = copies.take(k);
            let j = choose|j: int|
                0 <= j < front.len() && promotion::overwrites(#[trigger] front[j], l);
            assert(front[j] == copies[j]);
            assert(given(f, env, copies[j]) && given(f, env, copies[k]));
            let (b, q) = choose|b: int, q: int| #[trigger] gives(f, env, b, q, copies[j]);
            let (c, x) = choose|c: int, x: int| #[trigger] gives(f, env, c, x, copies[k]);
            let (g, dest) = r.phis[b][q];
            let h = r.phis[c][x].0;
            assert(dest == l);
            assert(promotion_phis::has_phi(r.phis, c, h)) by {
                assert(r.phis[c][x].0 == h);
            }
            assert(r.promoted.contains(h)) by {
                let i = choose|i: int| 0 <= i < phi.len() && phi[i] == h;
                assert(r.promoted[i] == h);
            }
            assert(r.phis[b][q].1 >= promotion::fresh_base(f.blocks));
            phi_value_is_own(f, p, kp, h, dest);
            let (y, z) = choose|y: int, z: int|
                0 <= y < r.phis.len() && 0 <= z < r.phis[y].len() && #[trigger] r.phis[y][z] == (
                    h,
                    dest,
                );
            assert(r.phis[y][z].1 == r.phis[b][q].1);
            assert(g == h);
        }
    }
}

/// A value of a variable that is not an SSA value of the function before is that of a phi for the
/// variable.
proof fn phi_value_is_own(f: FuncV, p: int, kp: nat, g: usize, l: usize)
    requires
        promotion_values::plain(f),
        promotion::promotable(f.blocks).len() > 0,
        0 <= p < f.blocks.len(),
        promotion_tree::at_depth(promotion::func_idom(f.blocks), p, kp),
        l >= promotion::fresh_base(f.blocks),
        promotion::value_of(
            promotion_rename::env_end(
                promotion_meaning::input(f),
                promotion::func_idom(f.blocks),
                p,
            ),
            g,
        ) == IrOperand::Local(l),
    ensures
        promotion_meaning::is_phi_of(promotion_meaning::input(f).phis, g, l),
{
    let r = promotion_meaning::input(f);
    let idom = promotion::func_idom(f.blocks);
    promotion_values::setting_is_prepared(f);
    promotion_rename::depth_is(idom, p, kp);
    promotion_meaning::start_sourced(r, idom, p, kp);
    let n = r.blocks[p].instrs.len() as int;
    promotion_meaning::block_sourced(
        r,
        idom,
        p,
        n,
        promotion_rename::env_start(r, idom, p, kp),
    );
    assert(r.blocks[p].instrs.take(n) =~= r.blocks[p].instrs);
    let env = promotion_rename::env_end(r, idom, p);
    promotion_values::value_is_entry(env, g);
    let t = choose|t: int|
        0 <= t < env.len() && #[trigger] env[t] == (g, promotion::value_of(env, g));
    assert(promotion_meaning::entry_sourced(r, idom, p, n, env[t]));
    if promotion_meaning::used_above(r.blocks, idom, p, n, l) {
        let (c, w) = choose|c: int, w: int|
            0 <= c < r.blocks.len() && 0 <= w < r.blocks[c].instrs.len()
                && #[trigger] numbering_meaning::uses(r.blocks[c].instrs[w], l) && ((c == p && w < n)
                || promotion_meaning::strictly_above(idom, c, p));
        assert(r.blocks[c].instrs == f.blocks[c].instrs);
        promotion_values::values_below_base(f.blocks, c, w);
        assert(promotion_values::mentions(f.blocks[c].instrs[w], l));
    }
}

// ── Lowered blocks ───────────────────────────────────────────────────────────

/// Whether one of some copies gives a phi the value of its variable.
spec fn gets(f: FuncV, env: Env, copies: Seq<InstV>, b: int, k: int) -> bool {
    exists|x: int| 0 <= x < copies.len() && #[trigger] gives(f, env, b, k, copies[x])
}

/// The blocks of a function after promotion.
pub open spec fn promoted_code(f: FuncV) -> Seq<BlockV> {
    promotion::promoted_blocks(
        f,
        promotion_values::chosen(f).0,
        promotion_values::chosen(f).1,
    )
}

/// The blocks of a function after renaming.
pub open spec fn renamed_code(f: FuncV) -> Seq<BlockV> {
    let r = promotion_meaning::input(f);
    promotion::rename(
        r,
        0,
        Seq::empty(),
        promotion::with_phis(r.blocks, r.phis),
        r.blocks.len(),
    )
}

/// The phis of a function after promotion are those of renaming.
pub(crate) proof fn promoted_phis_are(f: FuncV, b: int, i: int)
    requires
        promotion_values::plain(f),
        promotion::promotable(f.blocks).len() > 0,
        0 <= b < f.blocks.len(),
        0 <= i < promoted_code(f)[b].instrs.len(),
        promoted_code(f)[b].instrs[i] is Phi,
    ensures
        i < promotion_meaning::input(f).phis[b].len(),
        promoted_code(f)[b].instrs[i] == renamed_code(f)[b].instrs[i],
        renamed_code(f).len() == f.blocks.len(),
        promotion_rename::block_renamed(
            promotion_meaning::input(f),
            promotion::func_idom(f.blocks),
            promotion_rename::subtree(promotion::func_idom(f.blocks), 0),
            -1,
            0,
            b,
            renamed_code(f)[b],
        ),
{
    let r = promotion_meaning::input(f);
    let idom = promotion::func_idom(f.blocks);
    let v = promotion_rename::subtree(idom, 0);
    let (phi, simple) = promotion_values::chosen(f);
    let mid = renamed_code(f)[b];
    let n = r.phis[b].len() as int;
    promotion_values::setting_is_prepared(f);
    promotion_rename::renaming_fills(r, idom);
    assert(promotion_rename::block_renamed(r, idom, v, -1, 0, b, mid));
    assert(promoted_code(f)[b] == promotion::cleaned(mid, simple, r.promoted));
    if v.contains(b) {
        let k = choose|k: nat| #[trigger] promotion_tree::below(idom, 0, b, k);
        assert(promotion_tree::at_depth(idom, 0, 0));
        promotion_tree::below_depth(idom, 0, b, k, 0);
        promotion_meaning::promoted_block_is(f, b, k, mid);
        let out = promotion_rename::renamed_block(r, idom, b, k).1;
        assert(r.blocks[b].instrs == f.blocks[b].instrs);
        promotion_meaning::renamed_shape(
            r.promoted,
            r.blocks[b].instrs,
            promotion_rename::env_start(r, idom, b, k),
        );
        promotion_meaning::staying_shape(out, r.promoted);
        if i >= n {
            assert(promoted_code(f)[b].instrs[i] == promotion_meaning::staying(
                out,
                r.promoted,
            )[i - n]);
        } else {
            assert(promoted_code(f)[b].instrs[i] == mid.instrs.take(n)[i]);
        }
    } else {
        assert(mid.instrs.skip(n) =~= Seq::empty());
        assert(mid.instrs.skip(n).len() == mid.instrs.len() - n);
        assert forall|j: int| 0 <= j < mid.instrs.len() implies #[trigger] mid.instrs[j] is Phi by {
            assert(promotion_rename::phi_filled(r, idom, v, -1, 0, b, j, mid.instrs[j]));
        }
        promotion_meaning::no_loads_replaced(mid.instrs, simple, 0);
        promotion_meaning::phis_stay(mid.instrs, r.promoted);
    }
}

/// The copies at a block after promotion give phis the values of their variables there; those of
/// the blocks that it leads to all get theirs.
proof fn promoted_copies(f: FuncV, p: int, kp: nat)
    requires
        promotion_values::plain(f),
        promotion::promotable(f.blocks).len() > 0,
        0 <= p < f.blocks.len(),
        promotion_tree::at_depth(promotion::func_idom(f.blocks), p, kp),
    ensures
        ({
            let env = promotion_rename::env_end(
                promotion_meaning::input(f),
                promotion::func_idom(f.blocks),
                p,
            );
            let copies = promotion::copies_to(ir_to_koopa::blocks_moves(promoted_code(f)), p);
            &&& forall|x: int| 0 <= x < copies.len() ==> given(f, env, #[trigger] copies[x])
            &&& forall|c: int, kc: nat, k: int|
                0 <= c < f.blocks.len() && cfg::preds(f.blocks, c).contains(p as usize)
                    && #[trigger] promotion_tree::at_depth(
                    promotion::func_idom(f.blocks),
                    c,
                    kc,
                ) && 0 <= k < promotion_meaning::input(f).phis[c].len() ==> #[trigger] gets(
                    f,
                    env,
                    copies,
                    c,
                    k,
                )
        }),
{
    let r = promotion_meaning::input(f);
    let idom = promotion::func_idom(f.blocks);
    let preds = promotion::func_preds(f.blocks);
    let v = promotion_rename::subtree(idom, 0);
    let env = promotion_rename::env_end(r, idom, p);
    let code = promoted_code(f);
    let moves = ir_to_koopa::blocks_moves(code);
    let copies = promotion::copies_to(moves, p);
    let (phi, simple) = promotion_values::chosen(f);
    promotion_values::setting_is_prepared(f);
    promotion_rename::renaming_fills(r, idom);
    blocks_moves_are(code);
    copies_to_are(moves, p);
    assert(code.len() == f.blocks.len());
    assert forall|x: int| 0 <= x < copies.len() implies given(f, env, #[trigger] copies[x]) by {
        assert(copied_from(moves, p, copies[x]));
        let i = choose|i: int|
            0 <= i < moves.len() && (#[trigger] moves[i]).label == p && copies[x]
                == const_fold::copy_of(moves[i].dest, moves[i].value);
        assert(asked_by(code, moves[i]));
        let (b, j, e) = choose|b: int, j: int, e: int|
            0 <= b < code.len() && 0 <= j < code[b].instrs.len() && #[trigger] move_of(
                code[b].instrs[j],
                e,
                moves[i],
            );
        promoted_phis_are(f, b, j);
        assert(promotion_rename::phi_filled(
            r,
            idom,
            v,
            -1,
            0,
            b,
            j,
            renamed_code(f)[b].instrs[j],
        ));
        assert(gives(f, env, b, j, copies[x]));
    }
    assert forall|c: int, kc: nat, k: int|
        0 <= c < f.blocks.len() && cfg::preds(f.blocks, c).contains(p as usize)
            && #[trigger] promotion_tree::at_depth(idom, c, kc) && 0 <= k
            < r.phis[c].len() implies #[trigger] gets(f, env, copies, c, k) by {
        let mid = renamed_code(f)[c];
        assert(promotion_rename::block_renamed(r, idom, v, -1, 0, c, mid));
        promotion_meaning::promoted_block_is(f, c, kc, mid);
        assert(code[c] == promotion::cleaned(mid, simple, r.promoted));
        let n = r.phis[c].len() as int;
        assert(code[c].instrs[k] == mid.instrs.take(n)[k]);
        assert(code[c].instrs[k] == mid.instrs[k]);
        assert(promotion_rename::phi_filled(r, idom, v, -1, 0, c, k, mid.instrs[k]));
        promotion_meaning::depth_is_below(idom, p, kp);
        assert(preds[c] == cfg::preds(f.blocks, c));
        assert(promotion_rename::leads_to(r, -1, 0, p, c));
        let incoming = mid.instrs[k]->Phi_incoming;
        let e = choose|e: int| 0 <= e < incoming.len() && (#[trigger] incoming[e]).1 == p;
        let m = MoveV { label: incoming[e].1, dest: r.phis[c][k].1, value: incoming[e].0 };
        assert(move_of(code[c].instrs[k], e, m));
        assert(moves.contains(m));
        let i = choose|i: int| 0 <= i < moves.len() && moves[i] == m;
        assert(moves[i].label == p);
        let copy = const_fold::copy_of(m.dest, m.value);
        assert(copies.contains(copy));
        let x = choose|x: int| 0 <= x < copies.len() && copies[x] == copy;
        assert(gives(f, env, c, k, copies[x]));
    }
}

/// From states that belong together after the copies at the end of a block, a block that it leads
/// to starts in states that belong together.
proof fn lowered_entry<W>(
    m: MachineV<W>,
    f: FuncV,
    p: int,
    b: int,
    k: nat,
    s: StateV<W>,
    t: StateV<W>,
)
    requires
        promotion_values::plain(f),
        promotion::promotable(f.blocks).len() > 0,
        0 <= p < f.blocks.len(),
        0 <= b < f.blocks.len(),
        cfg::preds(f.blocks, b).contains(p as usize),
        domtree::reachable(promotion::func_preds(f.blocks), p),
        domtree::reachable(promotion::func_preds(f.blocks), b),
        promotion_tree::at_depth(promotion::func_idom(f.blocks), b, k),
        promotion_meaning::carries(
            m,
            promotion_meaning::input(f).promoted,
            promotion::fresh_base(f.blocks),
            promotion_rename::env_end(
                promotion_meaning::input(f),
                promotion::func_idom(f.blocks),
                p,
            ),
            s,
            t,
        ),
        forall|i: int|
            0 <= i < promotion_meaning::input(f).phis[b].len() ==> t.locals[(
            #[trigger] promotion_meaning::input(f).phis[b][i]).1]
                == s.vars[promotion_meaning::input(f).phis[b][i].0],
    ensures
        promotion_meaning::carries(
            m,
            promotion_meaning::input(f).promoted,
            promotion::fresh_base(f.blocks),
            promotion_rename::env_start(
                promotion_meaning::input(f),
                promotion::func_idom(f.blocks),
                b,
                k,
            ),
            s,
            t,
        ),
{
    let r = promotion_meaning::input(f);
    let idom = promotion::func_idom(f.blocks);
    let start = promotion_rename::env_start(r, idom, b, k);
    promotion_values::setting_is_prepared(f);
    assert forall|g: usize| #[trigger] r.promoted.contains(g) implies s.vars[g] == meaning::value(
        m,
        t,
        promotion::value_of(start, g),
    ) by {
        if promotion_phis::has_phi(r.phis, b, g) {
            let i = choose|i: int| 0 <= i < r.phis[b].len() && (#[trigger] r.phis[b][i]).0 == g;
            let values = promotion::phi_values(r.phis[b]);
            assert forall|q: int| 0 <= q < values.len() && (#[trigger] values[q]).0
                == values[i].0 implies q == i by {
                assert(r.phis[b][q].0 == r.phis[b][i].0);
            }
            promotion_values::only_entry_counts(
                promotion_rename::env_above(r, idom, b, k),
                values,
                i,
            );
            assert(values[i] == (g, IrOperand::Local(r.phis[b][i].1)));
        } else {
            promotion_meaning::value_comes_along(f, p, b, k, g);
        }
    }
}

/// Renaming makes no branches or returns.
proof fn renamed_goes_through(promoted: Seq<usize>, instrs: Seq<InstV>, env: Env)
    requires
        forall|i: int| 0 <= i < instrs.len() ==> !ir::terminator(#[trigger] instrs[i]),
    ensures
        ({
            let out = promotion::renamed(promoted, instrs, (env, Seq::empty())).1;
            let kept = promotion_meaning::staying(out, promoted);
            &&& forall|i: int| 0 <= i < out.len() ==> !ir::terminator(#[trigger] out[i])
            &&& forall|i: int| 0 <= i < kept.len() ==> !ir::terminator(#[trigger] kept[i])
        }),
    decreases instrs.len(),
{
    let out = promotion::renamed(promoted, instrs, (env, Seq::empty())).1;
    let kept = promotion_meaning::staying(out, promoted);
    if instrs.len() > 0 {
        let front = instrs.drop_last();
        assert forall|i: int| 0 <= i < front.len() implies !ir::terminator(#[trigger] front[i]) by {
            assert(front[i] == instrs[i]);
        }
        renamed_goes_through(promoted, front, env);
        assert(!ir::terminator(instrs[instrs.len() - 1]));
        let before = promotion::renamed(promoted, front, (env, Seq::empty())).1;
        let stayed = promotion_meaning::staying(before, promoted);
        if out != before {
            assert(out =~= before.push(out.last()));
            promotion_meaning::staying_push(before, promoted, out.last());
        }
        assert forall|i: int| 0 <= i < out.len() implies !ir::terminator(#[trigger] out[i]) by {
            if i < before.len() {
                assert(out[i] == before[i]);
            }
        }
        assert forall|i: int| 0 <= i < kept.len() implies !ir::terminator(#[trigger] kept[i]) by {
            if i < stayed.len() {
                assert(kept[i] == stayed[i]);
            }
        }
    } else {
        assert(kept =~= Seq::empty()) by {
            reveal(Seq::filter);
        }
    }
}

/// A block that can be reached has its form after promotion: its phis, what stays of its
/// instructions, and its end.
pub(crate) proof fn promoted_block_ends(f: FuncV, b: int, k: nat)
    requires
        promotion_values::plain(f),
        promotion::promotable(f.blocks).len() > 0,
        0 <= b < f.blocks.len(),
        translation_blocks::block_ends(f.blocks[b]),
        promotion_tree::at_depth(promotion::func_idom(f.blocks), b, k),
    ensures
        ({
            let r = promotion_meaning::input(f);
            let n = r.phis[b].len() as int;
            let new = promoted_code(f)[b];
            let kept = promotion_meaning::staying(
                promotion_rename::renamed_block(r, promotion::func_idom(f.blocks), b, k).1,
                r.promoted,
            );
            &&& translation_blocks::block_ends(new)
            &&& new.instrs.last() == f.blocks[b].instrs.last()
            &&& new.label == f.blocks[b].label
            &&& new.instrs == renamed_code(f)[b].instrs.take(n) + kept
            &&& forall|i: int|
                0 <= i < n ==> #[trigger] renamed_code(f)[b].instrs.take(n)[i] is Phi
        }),
{
    let r = promotion_meaning::input(f);
    let idom = promotion::func_idom(f.blocks);
    let (phi, simple) = promotion_values::chosen(f);
    let n = r.phis[b].len() as int;
    let mid = renamed_code(f)[b];
    let new = promoted_code(f)[b];
    let instrs = f.blocks[b].instrs;
    let start = promotion_rename::env_start(r, idom, b, k);
    promotion_values::setting_is_prepared(f);
    promotion_rename::renaming_fills(r, idom);
    assert(promotion_rename::block_renamed(
        r,
        idom,
        promotion_rename::subtree(idom, 0),
        -1,
        0,
        b,
        mid,
    ));
    assert(new == promotion::cleaned(mid, simple, r.promoted));
    promotion_meaning::promoted_block_is(f, b, k, mid);
    assert(r.blocks[b].instrs == instrs && r.blocks[b].label == f.blocks[b].label);
    let front = instrs.drop_last();
    let last = instrs.last();
    assert(ir::terminator(instrs[instrs.len() - 1]));
    assert forall|i: int| 0 <= i < front.len() implies !ir::terminator(#[trigger] front[i]) by {
        assert(!ir::terminator(instrs[i]));
    }
    promotion_meaning::renamed_shape(r.promoted, instrs, start);
    renamed_goes_through(r.promoted, front, start);
    let before = promotion::renamed(r.promoted, front, (start, Seq::empty())).1;
    promotion_meaning::staying_push(before, r.promoted, last);
    let stayed = promotion_meaning::staying(before, r.promoted);
    let first = mid.instrs.take(n);
    assert(new.instrs =~= (first + stayed).push(last));
    assert forall|i: int| 0 <= i < new.instrs.len() implies (ir::terminator(
        #[trigger] new.instrs[i],
    ) <==> i == new.instrs.len() - 1) by {
        if i < n {
            assert(new.instrs[i] == first[i]);
        } else if i < n + stayed.len() {
            assert(new.instrs[i] == stayed[i - n]);
        }
    }
}

proof fn lowered_outcomes<W>(
    m: MachineV<W>,
    own: Set<usize>,
    f: FuncV,
    b: int,
    k: nat,
    from: usize,
    s: StateV<W>,
    t: StateV<W>,
    fuel: nat,
)
    requires
        promotion_values::plain(f),
        promotion::promotable(f.blocks).len() > 0,
        forall|x: int|
            0 <= x < f.blocks.len() ==> translation_blocks::block_ends(#[trigger] f.blocks[x]),
        forall|g: usize| #[trigger]
            promotion_meaning::input(f).promoted.contains(g) ==> own.contains(g),
        0 <= b < f.blocks.len(),
        domtree::reachable(promotion::func_preds(f.blocks), b),
        promotion_tree::at_depth(promotion::func_idom(f.blocks), b, k),
        promotion_meaning::carries(
            m,
            promotion_meaning::input(f).promoted,
            promotion::fresh_base(f.blocks),
            promotion_rename::env_start(
                promotion_meaning::input(f),
                promotion::func_idom(f.blocks),
                b,
                k,
            ),
            s,
            t,
        ),
    ensures
        meaning::outcome(
            m,
            own,
            promotion::lowered(FuncV { blocks: promoted_code(f), ..f }).blocks,
            b,
            from,
            t,
            fuel,
        ) == meaning::outcome(m, own, f.blocks, b, from, s, fuel),
    decreases fuel,
{
    let r = promotion_meaning::input(f);
    let idom = promotion::func_idom(f.blocks);
    let preds = promotion::func_preds(f.blocks);
    let base = promotion::fresh_base(f.blocks);
    let code = promoted_code(f);
    let new = promotion::lowered(FuncV { blocks: code, ..f }).blocks;
    if fuel > 0 {
        promotion_values::setting_is_prepared(f);
        promotion_rename::renaming_fills(r, idom);
        assert(code.len() == f.blocks.len());
        let moves = ir_to_koopa::blocks_moves(code);
        let copies = promotion::copies_to(moves, b);
        let instrs = f.blocks[b].instrs;
        let last = instrs.last();
        let size = instrs.len() as int;
        let n = r.phis[b].len() as int;
        assert(translation_blocks::block_ends(f.blocks[b]));
        promoted_block_ends(f, b, k);
        promotion::copies_are_arith(moves, b);
        promoted_copies(f, b, k);
        nothing_changed(f, b, k, copies);
        promotion::nothing_saved(copies, promotion::fresh_base(code));
        assert(new[b] == promotion::lowered_block(code[b], copies));
        lowering_meaning::lowered_block_runs(m, own, t, code[b], copies);
        promotion_meaning::no_phis_entered(m, t, new[b].instrs, from);
        // The block itself.
        let first = renamed_code(f)[b].instrs.take(n);
        let (env, out) = promotion_rename::renamed_block(r, idom, b, k);
        let kept = promotion_meaning::staying(out, r.promoted);
        promotion_meaning::no_phis_entered(m, s, instrs, from);
        promotion_meaning::promoted_runs(m, own, f, b, k, size, s, t);
        assert(instrs.take(size) =~= instrs);
        assert(r.blocks[b].instrs == instrs);
        promotion_meaning::run_on(m, own, t, first, kept);
        promotion_meaning::phis_run(m, own, t, first);
        let s1 = meaning::run(m, own, s, instrs);
        let t0 = meaning::run(m, own, t, code[b].instrs);
        assert(promotion_meaning::carries(m, r.promoted, base, env, s1, t0));
        // The copies at its end.
        promotion_rename::depth_is(idom, b, k);
        promoted_copies(f, b, k);
        copies_carry(m, own, f, b, k, copies, s1, t0);
        let t1 = meaning::run(m, own, t, new[b].instrs);
        assert(promotion_meaning::carries(m, r.promoted, base, env, s1, t1));
        promotion_values::values_below_base(f.blocks, b, size - 1);
        let ops = ir::inst_operands(last);
        if ops.len() > 0 {
            if let IrOperand::Local(l) = ops[0] {
                assert(ops.contains(ops[0]));
                assert(promotion_values::mentions(f.blocks[b].instrs[size - 1], l));
                assert(s1.locals[l] == t1.locals[l]);
            }
            assert(meaning::value(m, s1, ops[0]) == meaning::value(m, t1, ops[0]));
        }
        let label = pass_meaning::next_label(m, s1, last);
        assert forall|x: int| 0 <= x < new.len() implies (#[trigger] new[x]).label
            == f.blocks[x].label by {
            assert(promotion_rename::block_renamed(
                r,
                idom,
                promotion_rename::subtree(idom, 0),
                -1,
                0,
                x,
                renamed_code(f)[x],
            ));
            assert(r.blocks[x].label == f.blocks[x].label);
        }
        pass_meaning::same_positions(new, f.blocks, label);
        assert(ir::terminator(instrs[size - 1]));
        if last is Jump || last is Br {
            if let Some(c) = cfg::label_position(f.blocks, label) {
                let labels = cfg::exits(f.blocks[b]);
                let at: int = if labels[0] == label {
                    0
                } else {
                    1
                };
                assert(labels[at] == label);
                assert(labels.contains(label));
                promotion_meaning::branch_is_edge(f.blocks, b, label, c);
                assert(preds[c as int] == cfg::preds(f.blocks, c as int));
                promotion_meaning::reached_on(preds, b, c as int);
                let kc = promotion_tree::reachable_in_tree(preds, c as int);
                assert forall|i: int| 0 <= i < r.phis[c as int].len() implies t1.locals[(
                #[trigger] r.phis[c as int][i]).1] == s1.vars[r.phis[c as int][i].0] by {
                    assert(promotion_tree::at_depth(idom, c as int, kc));
                    assert(gets(f, env, copies, c as int, i));
                    let x = choose|x: int|
                        0 <= x < copies.len() && #[trigger] gives(f, env, c as int, i, copies[x]);
                    assert(gives(f, env, c as int, i, copies[x]));
                }
                lowered_entry(m, f, b, c as int, kc, s1, t1);
                lowered_outcomes(
                    m,
                    own,
                    f,
                    c as int,
                    kc,
                    b as usize,
                    s1,
                    t1,
                    (fuel - 1) as nat,
                );
            }
            assert(meaning::outcome_at(m, own, new, label, b as usize, t1, fuel)
                == meaning::outcome_at(m, own, f.blocks, label, b as usize, s1, fuel));
        }
    }
}

/// A function of several blocks comes to the same end after its variables have been promoted and
/// the phis of that have been lowered, in as many blocks, under the conditions of promotion alone.
pub proof fn promotion_with_lowering_keeps_outcomes<W>(
    m: MachineV<W>,
    own: Set<usize>,
    f: FuncV,
    from: usize,
    s: StateV<W>,
    fuel: nat,
)
    requires
        promotion_values::plain(f),
        forall|x: int|
            0 <= x < f.blocks.len() ==> translation_blocks::block_ends(#[trigger] f.blocks[x]),
        forall|g: usize| #[trigger]
            promotion::promotable(f.blocks).contains(g) ==> own.contains(g) && s.vars[g] == m.undef,
    ensures
        meaning::outcome(
            m,
            own,
            promotion::lowered(promotion::promoted(f).0).blocks,
            0,
            from,
            s,
            fuel,
        ) == meaning::outcome(m, own, f.blocks, 0, from, s, fuel),
{
    let names = promotion::promotable(f.blocks);
    let (phi, simple) = promotion_values::chosen(f);
    let p = promotion::promoted(f).0;
    if names.len() == 0 || (phi.len() == 0 && simple.len() == 0) {
        assert forall|b: int| 0 <= b < p.blocks.len() implies (#[trigger] p.blocks[b]).instrs
            == f.blocks[b].instrs && p.blocks[b].label == f.blocks[b].label by {}
        assert forall|b: int| 0 <= b < p.blocks.len() implies translation_blocks::block_ends(
            #[trigger] p.blocks[b],
        ) by {
            assert(translation_blocks::block_ends(f.blocks[b]));
        }
        assert forall|b: int, i: int|
            0 <= b < p.blocks.len() && 0 <= i < p.blocks[b].instrs.len() implies !(
        #[trigger] p.blocks[b].instrs[i] is Phi) by {
            assert(!(f.blocks[b].instrs[i] is Phi));
        }
        lowering_meaning::no_phis_no_moves(p.blocks, p.blocks.len() as int);
        assert(p.blocks.take(p.blocks.len() as int) =~= p.blocks);
        promotion_meaning::no_phis_entered(m, s, p.blocks[0].instrs, from);
        lowering_meaning::lowered_outcomes(m, own, p, 0, from, s, s, fuel);
        promotion_meaning::same_code_same_outcome(m, own, p.blocks, f.blocks, 0, from, s, fuel);
    } else {
        let r = promotion_meaning::input(f);
        let idom = promotion::func_idom(f.blocks);
        let preds = promotion::func_preds(f.blocks);
        promotion_values::setting_is_prepared(f);
        assert(domtree::avoids(preds, -1, 0, 0));
        assert(promotion_tree::at_depth(idom, 0, 0));
        assert(r.phis[0].len() == 0);
        let start = promotion_rename::env_start(r, idom, 0, 0);
        assert(start =~= Seq::empty());
        lowered_outcomes(m, own, f, 0, 0, from, s, s, fuel);
    }
}

} // verus!

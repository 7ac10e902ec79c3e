//! What the promotion of variables leaves of the meaning of a function of several blocks.

use crate::cfg;
use crate::domtree;
use crate::ir::{self, BlockV, FuncV, InstV, IrOperand};
use crate::meaning::{self, MachineV, StateV};
use crate::numbering_meaning;
use crate::opt::const_fold;
use crate::pass_meaning;
use crate::promotion::{self, Env, Phis, RenameV};
use crate::promotion_phis;
use crate::promotion_rename;
use crate::promotion_tree;
use crate::promotion_values;
use crate::ssa;
use vstd::prelude::*;

verus! {

// ── Where values come from ───────────────────────────────────────────────────

/// Whether a block is above another in the tree, and not the same.
pub open spec fn strictly_above(idom: Seq<usize>, c: int, b: int) -> bool {
    exists|q: nat| q > 0 && #[trigger] promotion_tree::below(idom, c, b, q)
}

/// Whether an SSA value is used above a block, or in it before the `j`th instruction.
pub open spec fn used_above(blocks: Seq<BlockV>, idom: Seq<usize>, b: int, j: int, l: usize) -> bool {
    exists|c: int, i: int|
        0 <= c < blocks.len() && 0 <= i < blocks[c].instrs.len()
            && #[trigger] numbering_meaning::uses(blocks[c].instrs[i], l) && ((c == b && i < j)
            || strictly_above(idom, c, b))
}

/// Whether an SSA value is that of a phi for a variable.
pub open spec fn is_phi_of(phis: Seq<Phis>, g: usize, l: usize) -> bool {
    exists|x: int, k: int|
        0 <= x < phis.len() && 0 <= k < phis[x].len() && #[trigger] phis[x][k] == (g, l)
}

/// Whether the value of a variable at a point of a block comes from a use above that point or from
/// a phi.
pub open spec fn entry_sourced(r: RenameV, idom: Seq<usize>, b: int, j: int, e: (usize, IrOperand)) -> bool {
    e.1 matches IrOperand::Local(l) ==> used_above(r.blocks, idom, b, j, l) || is_phi_of(
        r.phis,
        e.0,
        l,
    )
}

/// Whether the values of all variables at a point of a block do.
pub open spec fn sourced(r: RenameV, idom: Seq<usize>, b: int, j: int, env: Env) -> bool {
    forall|t: int| 0 <= t < env.len() ==> entry_sourced(r, idom, b, j, #[trigger] env[t])
}

/// What is above a point is above a later one.
pub(crate) proof fn sourced_later(r: RenameV, idom: Seq<usize>, b: int, j: int, env: Env)
    requires
        sourced(r, idom, b, j, env),
    ensures
        sourced(r, idom, b, j + 1, env),
{
    assert forall|t: int| 0 <= t < env.len() implies entry_sourced(
        r,
        idom,
        b,
        j + 1,
        #[trigger] env[t],
    ) by {
        assert(entry_sourced(r, idom, b, j, env[t]));
        if let IrOperand::Local(l) = env[t].1 {
            if used_above(r.blocks, idom, b, j, l) {
                let (c, i) = choose|c: int, i: int|
                    0 <= c < r.blocks.len() && 0 <= i < r.blocks[c].instrs.len()
                        && #[trigger] numbering_meaning::uses(r.blocks[c].instrs[i], l) && ((c == b
                        && i < j) || strictly_above(idom, c, b));
                assert(numbering_meaning::uses(r.blocks[c].instrs[i], l));
                assert(used_above(r.blocks, idom, b, j + 1, l));
            }
        }
    }
}

/// The values in a block come from above.
pub(crate) proof fn block_sourced(r: RenameV, idom: Seq<usize>, b: int, j: int, start: Env)
    requires
        0 <= b < r.blocks.len(),
        0 <= j <= r.blocks[b].instrs.len(),
        sourced(r, idom, b, 0, start),
    ensures
        sourced(
            r,
            idom,
            b,
            j,
            promotion::renamed(
                r.promoted,
                r.blocks[b].instrs.take(j),
                (start, Seq::empty()),
            ).0,
        ),
    decreases j,
{
    let instrs = r.blocks[b].instrs;
    if j > 0 {
        block_sourced(r, idom, b, j - 1, start);
        assert(instrs.take(j).drop_last() =~= instrs.take(j - 1));
        let before = promotion::renamed(r.promoted, instrs.take(j - 1), (start, Seq::empty())).0;
        let after = promotion::renamed(r.promoted, instrs.take(j), (start, Seq::empty())).0;
        sourced_later(r, idom, b, j - 1, before);
        let i = instrs[j - 1];
        assert(instrs.take(j).last() == i);
        if let InstV::Store { value, ptr: IrOperand::Global(g) } = i {
            if r.promoted.contains(g) {
                assert(after == before.push((g, value)));
                assert forall|t: int| 0 <= t < after.len() implies entry_sourced(
                    r,
                    idom,
                    b,
                    j,
                    #[trigger] after[t],
                ) by {
                    if t < before.len() {
                        assert(after[t] == before[t]);
                    } else if let IrOperand::Local(l) = value {
                        assert(ir::inst_operands(i)[0] == value);
                        assert(numbering_meaning::uses(r.blocks[b].instrs[j - 1], l));
                    }
                }
            }
        }
    } else {
        assert(instrs.take(0) =~= Seq::empty());
    }
}

/// The values at the start of a block come from above.
pub(crate) proof fn start_sourced(r: RenameV, idom: Seq<usize>, b: int, k: nat)
    requires
        r.blocks.len() == idom.len(),
        r.phis.len() == idom.len(),
        idom.len() > 0,
        promotion_tree::at_depth(idom, b, k),
    ensures
        sourced(r, idom, b, 0, promotion_rename::env_start(r, idom, b, k)),
    decreases k,
{
    promotion_tree::depth_bound(idom, b, k);
    let above = promotion_rename::env_above(r, idom, b, k);
    let values = promotion::phi_values(r.phis[b]);
    assert(sourced(r, idom, b, 0, above)) by {
        if k > 0 {
            let u = idom[b] as int;
            start_sourced(r, idom, u, (k - 1) as nat);
            promotion_tree::depth_bound(idom, u, (k - 1) as nat);
            let instrs = r.blocks[u].instrs;
            let n = instrs.len() as int;
            block_sourced(r, idom, u, n, promotion_rename::env_start(r, idom, u, (k - 1) as nat));
            assert(instrs.take(n) =~= instrs);
            assert forall|t: int| 0 <= t < above.len() implies entry_sourced(
                r,
                idom,
                b,
                0,
                #[trigger] above[t],
            ) by {
                assert(entry_sourced(r, idom, u, n, above[t]));
                if let IrOperand::Local(l) = above[t].1 {
                    if used_above(r.blocks, idom, u, n, l) {
                        let (c, i) = choose|c: int, i: int|
                            0 <= c < r.blocks.len() && 0 <= i < r.blocks[c].instrs.len()
                                && #[trigger] numbering_meaning::uses(r.blocks[c].instrs[i], l) && ((
                            c == u && i < n) || strictly_above(idom, c, u));
                        if c == u {
                            assert(promotion_tree::below(idom, u, idom[b] as int, 0));
                            assert(promotion_tree::below(idom, u, b, 1));
                        } else {
                            let q = choose|q: nat|
                                q > 0 && #[trigger] promotion_tree::below(idom, c, u, q);
                            assert(promotion_tree::below(idom, c, b, q + 1));
                        }
                        assert(strictly_above(idom, c, b));
                        assert(numbering_meaning::uses(r.blocks[c].instrs[i], l));
                    }
                }
            }
        }
    }
    let all = above + values;
    assert forall|t: int| 0 <= t < all.len() implies entry_sourced(
        r,
        idom,
        b,
        0,
        #[trigger] all[t],
    ) by {
        if t < above.len() {
            assert(all[t] == above[t]);
        } else {
            let q = t - above.len();
            assert(all[t] == values[q]);
            assert(r.phis[b][q] == (all[t].0, r.phis[b][q].1));
        }
    }
}

/// What promotion of a function works on.
pub open spec fn input(f: FuncV) -> RenameV {
    promotion_values::setting(
        f,
        promotion_values::chosen(f).0,
        promotion_values::chosen(f).1,
    )
}

/// No instruction redefines the value of a variable at its point.
pub(crate) proof fn not_redefined(f: FuncV, b: int, k: nat, j: int, env: Env, l: usize, g: usize)
    requires
        promotion_values::plain(f),
        promotion::promotable(f.blocks).len() > 0,
        0 <= b < f.blocks.len(),
        0 <= j < f.blocks[b].instrs.len(),
        domtree::reachable(promotion::func_preds(f.blocks), b),
        promotion_tree::at_depth(promotion::func_idom(f.blocks), b, k),
        sourced(input(f), promotion::func_idom(f.blocks), b, j, env),
        numbering_meaning::defines(f.blocks[b].instrs[j], l),
    ensures
        promotion::value_of(env, g) != IrOperand::Local(l),
{
    let r = input(f);
    let idom = promotion::func_idom(f.blocks);
    let preds = promotion::func_preds(f.blocks);
    promotion_values::setting_is_prepared(f);
    promotion_values::value_is_entry(env, g);
    if promotion::value_of(env, g) == IrOperand::Local(l) {
        let t = choose|t: int|
            0 <= t < env.len() && #[trigger] env[t] == (g, promotion::value_of(env, g));
        assert(entry_sourced(r, idom, b, j, env[t]));
        if is_phi_of(r.phis, g, l) {
            let (x, q) = choose|x: int, q: int|
                0 <= x < r.phis.len() && 0 <= q < r.phis[x].len() && #[trigger] r.phis[x][q] == (
                    g,
                    l,
                );
            promotion_values::values_below_base(f.blocks, b, j);
            assert(promotion_values::mentions(f.blocks[b].instrs[j], l));
        } else {
            let (c, i) = choose|c: int, i: int|
                0 <= c < r.blocks.len() && 0 <= i < r.blocks[c].instrs.len()
                    && #[trigger] numbering_meaning::uses(r.blocks[c].instrs[i], l) && ((c == b && i
                    < j) || strictly_above(idom, c, b));
            assert(r.blocks[c].instrs == f.blocks[c].instrs);
            assert(numbering_meaning::uses(f.blocks[c].instrs[i], l));
            if strictly_above(idom, c, b) {
                let q = choose|q: nat| q > 0 && #[trigger] promotion_tree::below(idom, c, b, q);
                if c == b {
                    promotion_tree::below_depth(idom, c, b, q, k);
                    promotion_tree::depth_unique(idom, b, k, q + k);
                }
                assert(domtree::dominates(preds, b, c));
                if c == 0 {
                    assert(domtree::avoids(preds, b, 0, 0));
                } else {
                    promotion_tree::above_dominates(preds, c, b, q);
                    let w = choose|w: nat| #[trigger] domtree::avoids(preds, -1, b, w);
                    domtree::mutual_is_same(preds, c, b, w);
                }
            }
        }
    }
}

// ── States ───────────────────────────────────────────────────────────────────

/// Whether a state without promoted variables has their values as SSA values.
pub open spec fn carries<W>(
    m: MachineV<W>,
    promoted: Seq<usize>,
    base: int,
    env: Env,
    s: StateV<W>,
    t: StateV<W>,
) -> bool {
    &&& s.world == t.world
    &&& forall|l: usize| l < base ==> #[trigger] s.locals[l] == t.locals[l]
    &&& forall|h: usize| !promoted.contains(h) ==> #[trigger] s.vars[h] == t.vars[h]
    &&& forall|g: usize| #[trigger]
        promoted.contains(g) ==> s.vars[g] == meaning::value(m, t, promotion::value_of(env, g))
}

/// Whether an instruction loads or stores a promoted variable.
pub open spec fn moves_promoted(promoted: Seq<usize>, i: InstV) -> bool {
    match i {
        InstV::Store { ptr: IrOperand::Global(g), .. } => promoted.contains(g),
        InstV::Load { src: IrOperand::Global(g), .. } => promoted.contains(g),
        _ => false,
    }
}

/// An instruction that does not load or store a promoted variable does the same in both states.
proof fn other_step<W>(
    m: MachineV<W>,
    own: Set<usize>,
    promoted: Seq<usize>,
    base: int,
    env: Env,
    s: StateV<W>,
    t: StateV<W>,
    i: InstV,
)
    requires
        carries(m, promoted, base, env, s, t),
        !(i is Phi),
        !moves_promoted(promoted, i),
        forall|g: usize| #[trigger] promoted.contains(g) ==> own.contains(g),
        forall|l: usize| #[trigger] promotion_values::mentions(i, l) ==> l < base,
        forall|g: usize, l: usize| #[trigger]
            numbering_meaning::defines(i, l) ==> #[trigger] promotion::value_of(env, g)
                != IrOperand::Local(l),
    ensures
        carries(m, promoted, base, env, meaning::step(m, own, s, i), meaning::step(m, own, t, i)),
{
    let ops = ir::inst_operands(i);
    let s1 = meaning::step(m, own, s, i);
    let t1 = meaning::step(m, own, t, i);
    assert forall|k: int| 0 <= k < ops.len() implies meaning::value(m, s, #[trigger] ops[k])
        == meaning::value(m, t, ops[k]) by {
        if let IrOperand::Local(l) = ops[k] {
            assert(ops.contains(ops[k]));
            assert(promotion_values::mentions(i, l));
            assert(s.locals[l] == t.locals[l]);
        }
    }
    if ops.len() > 0 {
        assert(meaning::value(m, s, ops[0]) == meaning::value(m, t, ops[0]));
    }
    if ops.len() > 1 {
        assert(meaning::value(m, s, ops[1]) == meaning::value(m, t, ops[1]));
    }
    if let InstV::Call { args, .. } = i {
        assert(meaning::values(m, s, args) =~= meaning::values(m, t, args)) by {
            assert forall|k: int| 0 <= k < args.len() implies meaning::values(m, s, args)[k]
                == meaning::values(m, t, args)[k] by {
                assert(ops[k] == args[k]);
            }
        }
    }
    if let InstV::Load { src: IrOperand::Global(h), .. } = i {
        assert(s.vars[h] == t.vars[h]);
    }
    assert forall|l: usize| l < base implies #[trigger] s1.locals[l] == t1.locals[l] by {
        assert(s.locals[l] == t.locals[l]);
    }
    assert forall|h: usize| !promoted.contains(h) implies #[trigger] s1.vars[h] == t1.vars[h] by {
        assert(s.vars[h] == t.vars[h]);
    }
    assert forall|g: usize| #[trigger] promoted.contains(g) implies s1.vars[g] == meaning::value(
        m,
        t1,
        promotion::value_of(env, g),
    ) by {
        assert(s1.vars[g] == s.vars[g]);
        if let IrOperand::Local(l) = promotion::value_of(env, g) {
            assert(!numbering_meaning::defines(i, l));
            numbering_meaning::step_leaves(m, own, t, i, l);
        }
    }
}

/// What stays of the instructions of a block.
pub open spec fn staying(instrs: Seq<InstV>, promoted: Seq<usize>) -> Seq<InstV> {
    instrs.filter(|i: InstV| promotion::remains(i, promoted))
}

pub(crate) proof fn staying_push(instrs: Seq<InstV>, promoted: Seq<usize>, i: InstV)
    ensures
        staying(instrs.push(i), promoted) == if promotion::remains(i, promoted) {
            staying(instrs, promoted).push(i)
        } else {
            staying(instrs, promoted)
        },
{
    reveal(Seq::filter);
    assert(instrs.push(i).drop_last() =~= instrs);
}

/// An instruction, and what promotion makes of it, lead from states that belong together to states
/// that belong together.
proof fn promoted_step<W>(
    m: MachineV<W>,
    own: Set<usize>,
    promoted: Seq<usize>,
    base: int,
    env: Env,
    out: Seq<InstV>,
    s: StateV<W>,
    t0: StateV<W>,
    i: InstV,
)
    requires
        carries(m, promoted, base, env, s, meaning::run(m, own, t0, staying(out, promoted))),
        !(i is Phi),
        forall|g: usize| #[trigger] promoted.contains(g) ==> own.contains(g),
        forall|l: usize| #[trigger] promotion_values::mentions(i, l) ==> l < base,
        forall|g: usize, l: usize| #[trigger]
            numbering_meaning::defines(i, l) ==> #[trigger] promotion::value_of(env, g)
                != IrOperand::Local(l),
    ensures
        ({
            let (env1, out1) = promotion::renamed_inst(promoted, (env, out), i);
            carries(
                m,
                promoted,
                base,
                env1,
                meaning::step(m, own, s, i),
                meaning::run(m, own, t0, staying(out1, promoted)),
            )
        }),
{
    let (env1, out1) = promotion::renamed_inst(promoted, (env, out), i);
    let t = meaning::run(m, own, t0, staying(out, promoted));
    let s1 = meaning::step(m, own, s, i);
    let t1 = meaning::run(m, own, t0, staying(out1, promoted));
    if moves_promoted(promoted, i) {
        if let InstV::Store { value, ptr: IrOperand::Global(g) } = i {
            assert(env1 == env.push((g, value)));
            assert(env1.drop_last() =~= env);
            assert(out1 == out);
            assert(ir::inst_operands(i)[0] == value);
            if let IrOperand::Local(l) = value {
                assert(ir::inst_operands(i).contains(value));
                assert(promotion_values::mentions(i, l));
                assert(s.locals[l] == t.locals[l]);
            }
            assert(meaning::value(m, s, value) == meaning::value(m, t, value));
            assert forall|h: usize| !promoted.contains(h) implies #[trigger] s1.vars[h]
                == t1.vars[h] by {
                assert(s.vars[h] == t.vars[h]);
            }
            assert forall|l: usize| l < base implies #[trigger] s1.locals[l] == t1.locals[l] by {
                assert(s.locals[l] == t.locals[l]);
            }
        } else if let InstV::Load { dest, src: IrOperand::Global(g) } = i {
            let v = promotion::value_of(env, g);
            let copy = const_fold::copy_of(dest, v);
            assert(out1 == out.push(copy));
            staying_push(out, promoted, copy);
            assert(staying(out1, promoted).drop_last() =~= staying(out, promoted));
            assert(t1 == meaning::step(m, own, t, copy));
            let w = meaning::value(m, t, v);
            assert(w.wrapping_add(0) == w);
            assert(s1.locals[dest] == w && t1.locals[dest] == w);
            assert(numbering_meaning::defines(i, dest));
            assert forall|l: usize| l < base implies #[trigger] s1.locals[l] == t1.locals[l] by {
                assert(s.locals[l] == t.locals[l]);
            }
            assert forall|h: usize| !promoted.contains(h) implies #[trigger] s1.vars[h]
                == t1.vars[h] by {
                assert(s.vars[h] == t.vars[h]);
            }
            assert forall|h: usize| #[trigger] promoted.contains(h) implies s1.vars[h]
                == meaning::value(m, t1, promotion::value_of(env, h)) by {
                assert(promotion::value_of(env, h) != IrOperand::Local(dest));
            }
        }
    } else {
        assert(env1 == env && out1 == out.push(i));
        other_step(m, own, promoted, base, env, s, t, i);
        staying_push(out, promoted, i);
        if promotion::remains(i, promoted) {
            assert(staying(out1, promoted).drop_last() =~= staying(out, promoted));
        } else {
            assert(i is Alloc);
        }
    }
}

// ── Blocks ───────────────────────────────────────────────────────────────────

/// The first instructions of a block, and what promotion makes of them, lead from states that
/// belong together to states that belong together.
pub(crate) proof fn promoted_runs<W>(
    m: MachineV<W>,
    own: Set<usize>,
    f: FuncV,
    b: int,
    k: nat,
    j: int,
    s: StateV<W>,
    t: StateV<W>,
)
    requires
        promotion_values::plain(f),
        promotion::promotable(f.blocks).len() > 0,
        forall|g: usize| #[trigger] input(f).promoted.contains(g) ==> own.contains(g),
        0 <= b < f.blocks.len(),
        0 <= j <= f.blocks[b].instrs.len(),
        domtree::reachable(promotion::func_preds(f.blocks), b),
        promotion_tree::at_depth(promotion::func_idom(f.blocks), b, k),
        carries(
            m,
            input(f).promoted,
            promotion::fresh_base(f.blocks),
            promotion_rename::env_start(input(f), promotion::func_idom(f.blocks), b, k),
            s,
            t,
        ),
    ensures
        ({
            let promoted = input(f).promoted;
            let start = promotion_rename::env_start(
                input(f),
                promotion::func_idom(f.blocks),
                b,
                k,
            );
            let (env, out) = promotion::renamed(
                promoted,
                f.blocks[b].instrs.take(j),
                (start, Seq::empty()),
            );
            carries(
                m,
                promoted,
                promotion::fresh_base(f.blocks),
                env,
                meaning::run(m, own, s, f.blocks[b].instrs.take(j)),
                meaning::run(m, own, t, staying(out, promoted)),
            )
        }),
    decreases j,
{
    let r = input(f);
    let idom = promotion::func_idom(f.blocks);
    let base = promotion::fresh_base(f.blocks);
    let instrs = f.blocks[b].instrs;
    let start = promotion_rename::env_start(r, idom, b, k);
    promotion_values::setting_is_prepared(f);
    assert(r.blocks[b].instrs == instrs);
    if j > 0 {
        promoted_runs(m, own, f, b, k, j - 1, s, t);
        let i = instrs[j - 1];
        assert(instrs.take(j).drop_last() =~= instrs.take(j - 1));
        assert(instrs.take(j).last() == i);
        let (env, out) = promotion::renamed(r.promoted, instrs.take(j - 1), (start, Seq::empty()));
        start_sourced(r, idom, b, k);
        block_sourced(r, idom, b, j - 1, start);
        assert forall|g: usize, l: usize| #[trigger]
            numbering_meaning::defines(i, l) implies #[trigger] promotion::value_of(env, g)
            != IrOperand::Local(l) by {
            not_redefined(f, b, k, j - 1, env, l, g);
        }
        promotion_values::values_below_base(f.blocks, b, j - 1);
        promoted_step(
            m,
            own,
            r.promoted,
            base,
            env,
            out,
            meaning::run(m, own, s, instrs.take(j - 1)),
            t,
            i,
        );
    } else {
        assert(instrs.take(0) =~= Seq::empty());
        assert(staying(Seq::empty(), r.promoted) =~= Seq::empty()) by {
            reveal(Seq::filter);
        }
    }
}

/// A variable without a phi in a block has there the value that it has at the end of every block
/// that leads to it.
pub(crate) proof fn value_comes_along(f: FuncV, p: int, b: int, k: nat, g: usize)
    requires
        promotion_values::plain(f),
        promotion::promotable(f.blocks).len() > 0,
        0 <= p < f.blocks.len(),
        0 <= b < f.blocks.len(),
        cfg::preds(f.blocks, b).contains(p as usize),
        domtree::reachable(promotion::func_preds(f.blocks), p),
        domtree::reachable(promotion::func_preds(f.blocks), b),
        promotion_tree::at_depth(promotion::func_idom(f.blocks), b, k),
        input(f).promoted.contains(g),
        !promotion_phis::has_phi(input(f).phis, b, g),
    ensures
        promotion::value_of(
            promotion_rename::env_start(input(f), promotion::func_idom(f.blocks), b, k),
            g,
        ) == promotion::value_of(
            promotion_rename::env_end(input(f), promotion::func_idom(f.blocks), p),
            g,
        ),
{
    let r = input(f);
    let idom = promotion::func_idom(f.blocks);
    let preds = promotion::func_preds(f.blocks);
    let (phi, simple) = promotion_values::chosen(f);
    promotion_values::setting_is_prepared(f);
    assert(preds[b] == cfg::preds(f.blocks, b));
    assert(preds[0] == cfg::preds(f.blocks, 0));
    let at = choose|at: int| 0 <= at < preds[b].len() && preds[b][at] == p as usize;
    assert(b != 0);
    let kp = promotion_tree::reachable_in_tree(preds, p);
    promotion_rename::depth_is(idom, p, kp);
    let d = domtree::idom_of(preds, b) as int;
    assert(idom[b] == d);
    let j = promotion_tree::idom_above_preds(preds, p, b, at, kp);
    promotion_tree::below_is_climb(idom, d, p, j);
    promotion_tree::climb_depth(idom, p, kp, j);
    promotion_tree::depth_unique(idom, d, (k - 1) as nat, (kp - j) as nat);
    assert forall|i: nat| i < j implies !promotion_phis::sets(
        r.blocks,
        r.phis,
        #[trigger] ssa::climb(idom, p, i),
        g,
    ) by {
        let x = ssa::climb(idom, p, i);
        promotion_tree::between_is_on_way(idom, d, p, j, kp, i);
        if preds[b].len() >= 2 {
            assert(ssa::on_way(idom, preds[b][at] as int, idom[b] as int, x));
            assert(ssa::in_frontier(preds, idom, x, b));
        } else {
            promotion_tree::only_pred_is_idom(preds, p, b);
            promotion_tree::below_depth(idom, d, p, j, kp);
            promotion_tree::depth_unique(idom, p, kp, j + kp);
        }
        let at_g = choose|q: int| 0 <= q < r.promoted.len() && r.promoted[q] == g;
        if at_g < phi.len() {
            assert(phi[at_g] == g);
            assert(phi.contains(g));
            assert(promotion_phis::enough(r.blocks, preds, idom, r.phis, g));
        } else {
            assert(promotion::firsts(simple)[at_g - phi.len()] == g);
            assert(promotion::firsts(simple).contains(g));
            promotion_phis::def_blocks_are(r.blocks, g, r.blocks.len() as int);
            let defs = promotion::def_blocks(r.blocks, g, r.blocks.len() as int);
            assert(defs.len() == 1 && defs[0] == 0);
            if promotion::has_store(r.blocks[x].instrs, g) {
                assert(defs.contains(x as usize));
            }
            if promotion_phis::has_phi(r.phis, x, g) {
                assert(phi.contains(g));
            }
        }
    }
    promotion_values::unset_between(r, idom, d, p, j, kp, g);
    let values = promotion::phi_values(r.phis[b]);
    assert forall|t: int| 0 <= t < values.len() implies (#[trigger] values[t]).0 != g by {
        assert(r.phis[b][t].0 == values[t].0);
    }
    promotion_values::no_entry_no_change(
        promotion_rename::env_above(r, idom, b, k),
        values,
        g,
    );
}

/// A value that comes in from a block is one of those from it.
pub(crate) proof fn incoming_is_from(incoming: Seq<(IrOperand, usize)>, from: usize)
    requires
        exists|e: int| 0 <= e < incoming.len() && (#[trigger] incoming[e]).1 == from,
    ensures
        exists|e: int|
            0 <= e < incoming.len() && (#[trigger] incoming[e]).1 == from && incoming[e].0
                == meaning::incoming_from(incoming, from),
    decreases incoming.len(),
{
    let n = incoming.len() - 1;
    if incoming[n].1 != from {
        let front = incoming.drop_last();
        let e = choose|e: int| 0 <= e < incoming.len() && (#[trigger] incoming[e]).1 == from;
        assert(front[e].1 == from);
        incoming_is_from(front, from);
        let d = choose|d: int|
            0 <= d < front.len() && (#[trigger] front[d]).1 == from && front[d].0
                == meaning::incoming_from(front, from);
        assert(incoming[d] == front[d]);
    }
}

/// Phis at the start of a block take the values that come in, and change nothing else.
proof fn phis_take_values<W>(m: MachineV<W>, t: StateV<W>, phis: Phis, instrs: Seq<InstV>, k: int, from: usize)
    requires
        0 <= k <= phis.len() <= instrs.len(),
        forall|i: int|
            0 <= i < phis.len() ==> (#[trigger] instrs[i] matches InstV::Phi { dest, .. } && dest
                == phis[i].1),
        forall|i: int, j: int|
            0 <= i < phis.len() && 0 <= j < phis.len() && (#[trigger] phis[i]).1 == (
            #[trigger] phis[j]).1 ==> i == j,
    ensures
        ({
            let t1 = meaning::entered(m, t, instrs.take(k), from);
            &&& t1.world == t.world
            &&& t1.vars == t.vars
            &&& forall|i: int|
                0 <= i < k ==> t1.locals[(#[trigger] phis[i]).1] == meaning::value(
                    m,
                    t,
                    meaning::incoming_from(instrs[i]->Phi_incoming, from),
                )
            &&& forall|l: usize|
                (forall|i: int| 0 <= i < k ==> (#[trigger] phis[i]).1 != l)
                    ==> #[trigger] t1.locals[l] == t.locals[l]
        }),
    decreases k,
{
    if k > 0 {
        phis_take_values(m, t, phis, instrs, k - 1, from);
        assert(instrs.take(k).drop_last() =~= instrs.take(k - 1));
        assert(instrs.take(k).last() == instrs[k - 1]);
        let t0 = meaning::entered(m, t, instrs.take(k - 1), from);
        let t1 = meaning::entered(m, t, instrs.take(k), from);
        assert(instrs[k - 1] is Phi);
        assert forall|i: int| 0 <= i < k implies t1.locals[(#[trigger] phis[i]).1]
            == meaning::value(
            m,
            t,
            meaning::incoming_from(instrs[i]->Phi_incoming, from),
        ) by {
            if i < k - 1 {
                assert(phis[i].1 != phis[k - 1].1);
            }
        }
        assert forall|l: usize|
            (forall|i: int| 0 <= i < k ==> (#[trigger] phis[i]).1 != l) implies #[trigger] t1.locals[l]
            == t.locals[l] by {
            assert(phis[k - 1].1 != l);
            assert(t0.locals[l] == t.locals[l]);
        }
    } else {
        assert(instrs.take(0) =~= Seq::empty());
    }
}

/// From states that belong together at the end of a block, a block that it leads to is entered in
/// states that belong together.
proof fn entry_carries<W>(
    m: MachineV<W>,
    f: FuncV,
    p: int,
    b: int,
    k: nat,
    new: BlockV,
    s: StateV<W>,
    t: StateV<W>,
)
    requires
        promotion_values::plain(f),
        promotion::promotable(f.blocks).len() > 0,
        0 <= p < f.blocks.len(),
        0 <= b < f.blocks.len(),
        cfg::preds(f.blocks, b).contains(p as usize),
        domtree::reachable(promotion::func_preds(f.blocks), p),
        domtree::reachable(promotion::func_preds(f.blocks), b),
        promotion_tree::at_depth(promotion::func_idom(f.blocks), b, k),
        promotion_rename::block_renamed(
            input(f),
            promotion::func_idom(f.blocks),
            promotion_rename::subtree(promotion::func_idom(f.blocks), 0),
            -1,
            0,
            b,
            new,
        ),
        carries(
            m,
            input(f).promoted,
            promotion::fresh_base(f.blocks),
            promotion_rename::env_end(input(f), promotion::func_idom(f.blocks), p),
            s,
            t,
        ),
    ensures
        carries(
            m,
            input(f).promoted,
            promotion::fresh_base(f.blocks),
            promotion_rename::env_start(input(f), promotion::func_idom(f.blocks), b, k),
            s,
            meaning::entered(
                m,
                t,
                new.instrs.take(input(f).phis[b].len() as int),
                p as usize,
            ),
        ),
{
    let r = input(f);
    let idom = promotion::func_idom(f.blocks);
    let preds = promotion::func_preds(f.blocks);
    let base = promotion::fresh_base(f.blocks);
    let v = promotion_rename::subtree(idom, 0);
    let phis = r.phis[b];
    let n = phis.len() as int;
    let end = promotion_rename::env_end(r, idom, p);
    let start = promotion_rename::env_start(r, idom, b, k);
    promotion_values::setting_is_prepared(f);
    assert(preds[b] == cfg::preds(f.blocks, b));
    assert(promotion_rename::leads_to(r, -1, 0, p, b));
    let kp = promotion_tree::reachable_in_tree(preds, p);
    assert(v.contains(p)) by {
        depth_is_below(idom, p, kp);
    }
    assert forall|i: int| 0 <= i < n implies (#[trigger] new.instrs[i] matches InstV::Phi {
        dest,
        ..
    } && dest == phis[i].1) by {
        assert(promotion_rename::phi_filled(r, idom, v, -1, 0, b, i, new.instrs[i]));
    }
    assert forall|i: int, j: int|
        0 <= i < phis.len() && 0 <= j < phis.len() && (#[trigger] phis[i]).1 == (
        #[trigger] phis[j]).1 implies i == j by {
        assert(r.phis[b][i].1 == r.phis[b][j].1);
    }
    phis_take_values(m, t, phis, new.instrs, n, p as usize);
    let t1 = meaning::entered(m, t, new.instrs.take(n), p as usize);
    assert forall|l: usize| l < base implies #[trigger] s.locals[l] == t1.locals[l] by {
        assert forall|i: int| 0 <= i < n implies (#[trigger] phis[i]).1 != l by {
            assert(r.phis[b][i].1 >= base);
        }
        assert(t1.locals[l] == t.locals[l]);
    }
    assert forall|g: usize| #[trigger] r.promoted.contains(g) implies s.vars[g] == meaning::value(
        m,
        t1,
        promotion::value_of(start, g),
    ) by {
        if promotion_phis::has_phi(r.phis, b, g) {
            let i = choose|i: int| 0 <= i < r.phis[b].len() && (#[trigger] r.phis[b][i]).0 == g;
            let incoming = new.instrs[i]->Phi_incoming;
            assert(promotion_rename::phi_filled(r, idom, v, -1, 0, b, i, new.instrs[i]));
            incoming_is_from(incoming, p as usize);
            let e = choose|e: int|
                0 <= e < incoming.len() && (#[trigger] incoming[e]).1 == p as usize && incoming[e].0
                    == meaning::incoming_from(incoming, p as usize);
            assert(incoming[e].0 == promotion::value_of(end, g));
            assert(phis[i].0 == g);
            let values = promotion::phi_values(phis);
            assert forall|q: int| 0 <= q < values.len() && (#[trigger] values[q]).0
                == values[i].0 implies q == i by {
                assert(r.phis[b][q].0 == r.phis[b][i].0);
            }
            promotion_values::only_entry_counts(
                promotion_rename::env_above(r, idom, b, k),
                values,
                i,
            );
            assert(values[i] == (g, IrOperand::Local(phis[i].1)));
            assert(t1.locals[phis[i].1] == meaning::value(m, t, promotion::value_of(end, g)));
        } else {
            value_comes_along(f, p, b, k, g);
            promotion_rename::depth_is(idom, p, kp);
            value_not_of_phi(f, p, kp, b, g);
            if let IrOperand::Local(l) = promotion::value_of(end, g) {
                assert forall|i: int| 0 <= i < n implies (#[trigger] phis[i]).1 != l by {}
                assert(t1.locals[l] == t.locals[l]);
            }
        }
    }
    assert forall|h: usize| !r.promoted.contains(h) implies #[trigger] s.vars[h] == t1.vars[h] by {
        assert(s.vars[h] == t.vars[h]);
    }
}

/// A block of the tree is below the entry.
pub(crate) proof fn depth_is_below(idom: Seq<usize>, x: int, k: nat)
    requires
        promotion_tree::at_depth(idom, x, k),
    ensures
        promotion_tree::below(idom, 0, x, k),
        promotion_rename::subtree(idom, 0).contains(x),
    decreases k,
{
    if k > 0 {
        depth_is_below(idom, idom[x] as int, (k - 1) as nat);
    }
}

/// The value of a variable without a phi in a block is not that of a phi of the block.
pub(crate) proof fn value_not_of_phi(f: FuncV, p: int, kp: nat, b: int, g: usize)
    requires
        promotion_values::plain(f),
        promotion::promotable(f.blocks).len() > 0,
        0 <= p < f.blocks.len(),
        0 <= b < f.blocks.len(),
        promotion_tree::at_depth(promotion::func_idom(f.blocks), p, kp),
        !promotion_phis::has_phi(input(f).phis, b, g),
    ensures
        promotion::value_of(
            promotion_rename::env_end(input(f), promotion::func_idom(f.blocks), p),
            g,
        ) matches IrOperand::Local(l) ==> forall|i: int|
            0 <= i < input(f).phis[b].len() ==> (#[trigger] input(f).phis[b][i]).1 != l,
{
    let r = input(f);
    let idom = promotion::func_idom(f.blocks);
    promotion_values::setting_is_prepared(f);
    promotion_rename::depth_is(idom, p, kp);
    start_sourced(r, idom, p, kp);
    let n = r.blocks[p].instrs.len() as int;
    block_sourced(r, idom, p, n, promotion_rename::env_start(r, idom, p, kp));
    assert(r.blocks[p].instrs.take(n) =~= r.blocks[p].instrs);
    let env = promotion_rename::env_end(r, idom, p);
    promotion_values::value_is_entry(env, g);
    if let IrOperand::Local(l) = promotion::value_of(env, g) {
        let t = choose|t: int|
            0 <= t < env.len() && #[trigger] env[t] == (g, promotion::value_of(env, g));
        assert(entry_sourced(r, idom, p, n, env[t]));
        assert forall|i: int| 0 <= i < r.phis[b].len() implies (#[trigger] r.phis[b][i]).1 != l by {
            if r.phis[b][i].1 == l {
                if is_phi_of(r.phis, g, l) {
                    let (x, q) = choose|x: int, q: int|
                        0 <= x < r.phis.len() && 0 <= q < r.phis[x].len() && #[trigger] r.phis[x][q]
                            == (g, l);
                    assert(r.phis[x][q].1 == r.phis[b][i].1);
                    assert(r.phis[b][i].0 == g);
                } else {
                    let (c, w) = choose|c: int, w: int|
                        0 <= c < r.blocks.len() && 0 <= w < r.blocks[c].instrs.len()
                            && #[trigger] numbering_meaning::uses(r.blocks[c].instrs[w], l) && ((c
                            == p && w < n) || strictly_above(idom, c, p));
                    assert(r.blocks[c].instrs == f.blocks[c].instrs);
                    promotion_values::values_below_base(f.blocks, c, w);
                    assert(promotion_values::mentions(f.blocks[c].instrs[w], l));
                    assert(r.phis[b][i].1 >= promotion::fresh_base(f.blocks));
                }
            }
        }
    }
}

// ── Promoted blocks ──────────────────────────────────────────────────────────

/// Renamed instructions have no phis and do not load promoted variables; the end of a block stays
/// its end.
pub(crate) proof fn renamed_shape(promoted: Seq<usize>, instrs: Seq<InstV>, env: Env)
    requires
        forall|i: int| 0 <= i < instrs.len() ==> !(#[trigger] instrs[i] is Phi),
    ensures
        ({
            let out = promotion::renamed(promoted, instrs, (env, Seq::empty())).1;
            &&& forall|i: int| 0 <= i < out.len() ==> !(#[trigger] out[i] is Phi)
            &&& forall|i: int|
                0 <= i < out.len() && #[trigger] out[i] is Load ==> !moves_promoted(promoted, out[i])
            &&& instrs.len() > 0 && ir::terminator(instrs.last()) ==> out == promotion::renamed(
                promoted,
                instrs.drop_last(),
                (env, Seq::empty()),
            ).1.push(instrs.last())
        }),
    decreases instrs.len(),
{
    if instrs.len() > 0 {
        let front = instrs.drop_last();
        assert forall|i: int| 0 <= i < front.len() implies !(#[trigger] front[i] is Phi) by {
            assert(front[i] == instrs[i]);
        }
        renamed_shape(promoted, front, env);
        let before = promotion::renamed(promoted, front, (env, Seq::empty())).1;
        let out = promotion::renamed(promoted, instrs, (env, Seq::empty())).1;
        assert(!(instrs[instrs.len() - 1] is Phi));
        assert forall|i: int| 0 <= i < out.len() implies !(#[trigger] out[i] is Phi) by {
            if i < before.len() {
                assert(out[i] == before[i]);
            }
        }
        assert forall|i: int|
            0 <= i < out.len() && #[trigger] out[i] is Load implies !moves_promoted(
            promoted,
            out[i],
        ) by {
            if i < before.len() {
                assert(out[i] == before[i]);
            }
        }
    }
}

/// Instructions without loads of some variables stay as they are when these are replaced.
pub(crate) proof fn no_loads_replaced(instrs: Seq<InstV>, simple: Seq<(usize, IrOperand)>, k: int)
    requires
        0 <= k <= simple.len(),
        forall|i: int, q: int|
            0 <= i < instrs.len() && 0 <= q < simple.len() ==> !(
            #[trigger] instrs[i] matches InstV::Load { src, .. } && src == IrOperand::Global(
                (#[trigger] simple[q]).0,
            )),
    ensures
        promotion::loads_of(instrs, simple, k) == instrs,
    decreases simple.len() - k,
{
    if k < simple.len() {
        let next = instrs.map_values(
            |i: InstV| promotion::load_of(i, simple[k].0, simple[k].1),
        );
        assert(next =~= instrs) by {
            assert forall|i: int| 0 <= i < instrs.len() implies #[trigger] next[i] == instrs[i] by {
                assert(!(instrs[i] matches InstV::Load { src, .. } && src == IrOperand::Global(
                    simple[k].0,
                )));
            }
        }
        no_loads_replaced(instrs, simple, k + 1);
    }
}

/// Phis all stay.
pub(crate) proof fn phis_stay(instrs: Seq<InstV>, promoted: Seq<usize>)
    requires
        forall|i: int| 0 <= i < instrs.len() ==> #[trigger] instrs[i] is Phi,
    ensures
        staying(instrs, promoted) == instrs,
    decreases instrs.len(),
{
    reveal(Seq::filter);
    if instrs.len() > 0 {
        let front = instrs.drop_last();
        assert forall|i: int| 0 <= i < front.len() implies #[trigger] front[i] is Phi by {
            assert(front[i] == instrs[i]);
        }
        phis_stay(front, promoted);
        assert(instrs[instrs.len() - 1] is Phi);
        assert(staying(instrs, promoted) =~= instrs);
    } else {
        assert(staying(instrs, promoted) =~= instrs);
    }
}

/// A promoted block is its phis, and what stays of its renamed instructions.
pub(crate) proof fn promoted_block_is(f: FuncV, b: int, k: nat, new: BlockV)
    requires
        promotion_values::plain(f),
        promotion::promotable(f.blocks).len() > 0,
        0 <= b < f.blocks.len(),
        promotion_tree::at_depth(promotion::func_idom(f.blocks), b, k),
        promotion_rename::block_renamed(
            input(f),
            promotion::func_idom(f.blocks),
            promotion_rename::subtree(promotion::func_idom(f.blocks), 0),
            -1,
            0,
            b,
            new,
        ),
    ensures
        ({
            let r = input(f);
            let n = r.phis[b].len() as int;
            &&& promotion::cleaned(new, promotion_values::chosen(f).1, r.promoted).instrs
                == new.instrs.take(n) + staying(
                promotion_rename::renamed_block(r, promotion::func_idom(f.blocks), b, k).1,
                r.promoted,
            )
            &&& forall|i: int| 0 <= i < n ==> #[trigger] new.instrs.take(n)[i] is Phi
        }),
{
    let r = input(f);
    let idom = promotion::func_idom(f.blocks);
    let (phi, simple) = promotion_values::chosen(f);
    let v = promotion_rename::subtree(idom, 0);
    let n = r.phis[b].len() as int;
    promotion_values::setting_is_prepared(f);
    promotion_rename::depth_is(idom, b, k);
    depth_is_below(idom, b, k);
    let first = new.instrs.take(n);
    let rest = new.instrs.skip(n);
    assert(new.instrs =~= first + rest);
    assert forall|i: int| 0 <= i < n implies #[trigger] first[i] is Phi by {
        assert(promotion_rename::phi_filled(r, idom, v, -1, 0, b, i, new.instrs[i]));
    }
    assert(r.blocks[b].instrs == f.blocks[b].instrs);
    renamed_shape(
        r.promoted,
        r.blocks[b].instrs,
        promotion_rename::env_start(r, idom, b, k),
    );
    assert forall|i: int, q: int|
        0 <= i < new.instrs.len() && 0 <= q < simple.len() implies !(
    #[trigger] new.instrs[i] matches InstV::Load { src, .. } && src == IrOperand::Global(
        (#[trigger] simple[q]).0,
    )) by {
        if i < n {
            assert(first[i] is Phi);
        } else {
            assert(rest[i - n] == new.instrs[i]);
            let g = simple[q].0;
            assert(r.promoted[phi.len() + q] == g);
            assert(r.promoted.contains(g));
        }
    }
    no_loads_replaced(new.instrs, simple, 0);
    Seq::filter_distributes_over_add(
        first,
        rest,
        |i: InstV| promotion::remains(i, r.promoted),
    );
    phis_stay(first, r.promoted);
}

/// Instructions after others start where these end.
pub(crate) proof fn run_on<W>(m: MachineV<W>, own: Set<usize>, t: StateV<W>, a: Seq<InstV>, c: Seq<InstV>)
    ensures
        meaning::run(m, own, t, a + c) == meaning::run(m, own, meaning::run(m, own, t, a), c),
    decreases c.len(),
{
    if c.len() == 0 {
        assert(a + c =~= a);
    } else {
        run_on(m, own, t, a, c.drop_last());
        assert((a + c).drop_last() =~= a + c.drop_last());
        assert((a + c).last() == c.last());
    }
}

/// Phis do nothing once a block has been entered.
pub(crate) proof fn phis_run<W>(m: MachineV<W>, own: Set<usize>, t: StateV<W>, a: Seq<InstV>)
    requires
        forall|i: int| 0 <= i < a.len() ==> #[trigger] a[i] is Phi,
    ensures
        meaning::run(m, own, t, a) == t,
    decreases a.len(),
{
    if a.len() > 0 {
        let front = a.drop_last();
        assert forall|i: int| 0 <= i < front.len() implies #[trigger] front[i] is Phi by {
            assert(front[i] == a[i]);
        }
        phis_run(m, own, t, front);
        assert(a[a.len() - 1] is Phi);
    }
}

/// Only phis matter when a block is entered.
proof fn entered_by_phis<W>(m: MachineV<W>, t: StateV<W>, a: Seq<InstV>, c: Seq<InstV>, from: usize)
    requires
        forall|i: int| 0 <= i < c.len() ==> !(#[trigger] c[i] is Phi),
    ensures
        meaning::entered(m, t, a + c, from) == meaning::entered(m, t, a, from),
    decreases c.len(),
{
    if c.len() == 0 {
        assert(a + c =~= a);
    } else {
        let front = c.drop_last();
        assert forall|i: int| 0 <= i < front.len() implies !(#[trigger] front[i] is Phi) by {
            assert(front[i] == c[i]);
        }
        entered_by_phis(m, t, a, front, from);
        assert((a + c).drop_last() =~= a + front);
        assert((a + c).last() == c.last());
        assert(!(c[c.len() - 1] is Phi));
    }
}

/// What stays has no phis where there are none.
pub(crate) proof fn staying_shape(out: Seq<InstV>, promoted: Seq<usize>)
    requires
        forall|i: int| 0 <= i < out.len() ==> !(#[trigger] out[i] is Phi),
    ensures
        forall|i: int|
            0 <= i < staying(out, promoted).len() ==> !(#[trigger] staying(out, promoted)[i] is Phi),
    decreases out.len(),
{
    reveal(Seq::filter);
    if out.len() > 0 {
        let front = out.drop_last();
        assert forall|i: int| 0 <= i < front.len() implies !(#[trigger] front[i] is Phi) by {
            assert(front[i] == out[i]);
        }
        staying_shape(front, promoted);
        assert(!(out[out.len() - 1] is Phi));
        assert forall|i: int| 0 <= i < staying(out, promoted).len() implies !(
        #[trigger] staying(out, promoted)[i] is Phi) by {
            if i < staying(front, promoted).len() {
                assert(staying(out, promoted)[i] == staying(front, promoted)[i]);
            }
        }
    }
}

/// A block that a block ends in a branch to has it among its predecessors.
pub(crate) proof fn branch_is_edge(blocks: Seq<BlockV>, p: int, label: usize, b: usize)
    requires
        0 <= p < blocks.len() <= usize::MAX,
        blocks[p].instrs.len() > 0,
        cfg::exits(blocks[p]).contains(label),
        cfg::label_position(blocks, label) == Some(b),
    ensures
        b < blocks.len(),
        cfg::preds(blocks, b as int).contains(p as usize),
{
    cfg::label_position_is_last(blocks, label);
    let labels = cfg::exits(blocks[p]);
    let i = choose|i: int| 0 <= i < labels.len() && labels[i] == label;
    position_found(blocks, labels, i);
    cfg::edges_have_two_ends(blocks, blocks.len() as int, p as usize, b);
}

pub(crate) proof fn position_found(blocks: Seq<BlockV>, labels: Seq<usize>, i: int)
    requires
        0 <= i < labels.len(),
    ensures
        cfg::label_position(blocks, labels[i]) matches Some(b) ==> cfg::positions(
            blocks,
            labels,
        ).contains(b),
    decreases labels.len(),
{
    let front = labels.drop_last();
    let before = cfg::positions(blocks, front);
    let all = cfg::positions(blocks, labels);
    if let Some(b) = cfg::label_position(blocks, labels[i]) {
        if i < front.len() {
            position_found(blocks, front, i);
            let k = choose|k: int| 0 <= k < before.len() && before[k] == b;
            assert(all[k] == b);
        } else {
            assert(all[before.len() as int] == b);
        }
    }
}

/// What a block that can be reached leads to can be reached.
pub(crate) proof fn reached_on(preds: Seq<Seq<usize>>, p: int, b: int)
    requires
        0 <= b < preds.len(),
        domtree::reachable(preds, p),
        preds[b].contains(p as usize),
        0 <= p <= usize::MAX,
    ensures
        domtree::reachable(preds, b),
{
    let k = choose|k: nat| #[trigger] domtree::avoids(preds, -1, p, k);
    let i = choose|i: int| 0 <= i < preds[b].len() && preds[b][i] == p as usize;
    assert(domtree::avoids(preds, -1, preds[b][i] as int, k));
    assert(domtree::avoids(preds, -1, b, k + 1));
}

proof fn promoted_outcomes<W>(
    m: MachineV<W>,
    own: Set<usize>,
    f: FuncV,
    b: int,
    k: nat,
    from: usize,
    s: StateV<W>,
    t: StateV<W>,
    fuel: nat,
)
    requires
        promotion_values::plain(f),
        promotion::promotable(f.blocks).len() > 0,
        forall|x: int|
            0 <= x < f.blocks.len() ==> (#[trigger] f.blocks[x]).instrs.len() > 0
                && ir::terminator(f.blocks[x].instrs.last()),
        forall|g: usize| #[trigger] input(f).promoted.contains(g) ==> own.contains(g),
        0 <= b < f.blocks.len(),
        domtree::reachable(promotion::func_preds(f.blocks), b),
        promotion_tree::at_depth(promotion::func_idom(f.blocks), b, k),
        carries(
            m,
            input(f).promoted,
            promotion::fresh_base(f.blocks),
            promotion_rename::env_start(input(f), promotion::func_idom(f.blocks), b, k),
            s,
            meaning::entered(
                m,
                t,
                promotion::promoted_blocks(
                    f,
                    promotion_values::chosen(f).0,
                    promotion_values::chosen(f).1,
                )[b].instrs,
                from,
            ),
        ),
    ensures
        meaning::outcome(
            m,
            own,
            promotion::promoted_blocks(
                f,
                promotion_values::chosen(f).0,
                promotion_values::chosen(f).1,
            ),
            b,
            from,
            t,
            fuel,
        ) == meaning::outcome(m, own, f.blocks, b, from, s, fuel),
    decreases fuel,
{
    let r = input(f);
    let idom = promotion::func_idom(f.blocks);
    let preds = promotion::func_preds(f.blocks);
    let base = promotion::fresh_base(f.blocks);
    let (phi, simple) = promotion_values::chosen(f);
    let new = promotion::promoted_blocks(f, phi, simple);
    let mid = promotion::rename(
        r,
        0,
        Seq::empty(),
        promotion::with_phis(r.blocks, r.phis),
        r.blocks.len(),
    );
    if fuel > 0 {
        promotion_values::setting_is_prepared(f);
        promotion_rename::renaming_fills(r, idom);
        assert(new.len() == mid.len());
        assert(new[b] == promotion::cleaned(mid[b], simple, r.promoted));
        promoted_block_is(f, b, k, mid[b]);
        let instrs = f.blocks[b].instrs;
        let last = instrs.last();
        let start = promotion_rename::env_start(r, idom, b, k);
        let n = r.phis[b].len() as int;
        let first = mid[b].instrs.take(n);
        assert(r.blocks[b].instrs == instrs);
        renamed_shape(r.promoted, instrs, start);
        let (env, out) = promotion_rename::renamed_block(r, idom, b, k);
        let before = promotion::renamed(r.promoted, instrs.drop_last(), (start, Seq::empty())).1;
        staying_push(before, r.promoted, last);
        staying_shape(out, r.promoted);
        let kept = staying(out, r.promoted);
        assert(new[b].instrs == first + kept);
        assert(new[b].instrs.last() == last);
        let t0 = meaning::entered(m, t, new[b].instrs, from);
        // The block itself.
        no_phis_entered(m, s, instrs, from);
        let size = instrs.len() as int;
        promoted_runs(m, own, f, b, k, size, s, t0);
        assert(instrs.take(size) =~= instrs);
        run_on(m, own, t0, first, kept);
        phis_run(m, own, t0, first);
        let s1 = meaning::run(m, own, s, instrs);
        let t1 = meaning::run(m, own, t0, new[b].instrs);
        assert(carries(m, r.promoted, base, env, s1, t1));
        // Its end.
        promotion_values::values_below_base(f.blocks, b, size - 1);
        let ops = ir::inst_operands(last);
        if ops.len() > 0 {
            if let IrOperand::Local(l) = ops[0] {
                assert(ops.contains(ops[0]));
                assert(promotion_values::mentions(f.blocks[b].instrs[size - 1], l));
                assert(s1.locals[l] == t1.locals[l]);
            }
            assert(meaning::value(m, s1, ops[0]) == meaning::value(m, t1, ops[0]));
        }
        let label = pass_meaning::next_label(m, s1, last);
        assert forall|x: int| 0 <= x < new.len() implies (#[trigger] new[x]).label
            == f.blocks[x].label by {
            assert(promotion_rename::block_renamed(
                r,
                idom,
                promotion_rename::subtree(idom, 0),
                -1,
                0,
                x,
                mid[x],
            ));
            assert(r.blocks[x].label == f.blocks[x].label);
        }
        pass_meaning::same_positions(new, f.blocks, label);
        if last is Jump || last is Br {
            if let Some(c) = cfg::label_position(f.blocks, label) {
                let labels = cfg::exits(f.blocks[b]);
                assert(labels.contains(label)) by {
                    if last is Jump {
                        assert(labels[0] == label);
                    } else if labels[0] == label {
                        assert(labels.contains(label));
                    } else {
                        assert(labels[1] == label);
                    }
                }
                branch_is_edge(f.blocks, b, label, c);
                assert(preds[c as int] == cfg::preds(f.blocks, c as int));
                reached_on(preds, b, c as int);
                let kc = promotion_tree::reachable_in_tree(preds, c as int);
                promotion_rename::depth_is(idom, b, k);
                entry_carries(m, f, b, c as int, kc, mid[c as int], s1, t1);
                promoted_block_is(f, c as int, kc, mid[c as int]);
                assert(new[c as int] == promotion::cleaned(mid[c as int], simple, r.promoted));
                let rest = promotion_rename::renamed_block(r, idom, c as int, kc).1;
                assert(r.blocks[c as int].instrs == f.blocks[c as int].instrs);
                renamed_shape(
                    r.promoted,
                    f.blocks[c as int].instrs,
                    promotion_rename::env_start(r, idom, c as int, kc),
                );
                staying_shape(rest, r.promoted);
                entered_by_phis(
                    m,
                    t1,
                    mid[c as int].instrs.take(r.phis[c as int].len() as int),
                    staying(rest, r.promoted),
                    b as usize,
                );
                promoted_outcomes(
                    m,
                    own,
                    f,
                    c as int,
                    kc,
                    b as usize,
                    s1,
                    t1,
                    (fuel - 1) as nat,
                );
            }
            assert(meaning::outcome_at(m, own, new, label, b as usize, t1, fuel)
                == meaning::outcome_at(m, own, f.blocks, label, b as usize, s1, fuel));
        }
    }
}

/// A block without phis is entered as it is left to.
pub(crate) proof fn no_phis_entered<W>(m: MachineV<W>, s: StateV<W>, instrs: Seq<InstV>, from: usize)
    requires
        forall|i: int| 0 <= i < instrs.len() ==> !(#[trigger] instrs[i] is Phi),
    ensures
        meaning::entered(m, s, instrs, from) == s,
{
    let none = Seq::<InstV>::empty();
    entered_by_phis(m, s, none, instrs, from);
    assert(none + instrs =~= instrs);
}

/// Functions with the same labels and instructions come to the same end.
pub(crate) proof fn same_code_same_outcome<W>(
    m: MachineV<W>,
    own: Set<usize>,
    x: Seq<BlockV>,
    y: Seq<BlockV>,
    b: int,
    from: usize,
    s: StateV<W>,
    fuel: nat,
)
    requires
        x.len() == y.len(),
        forall|k: int|
            0 <= k < x.len() ==> (#[trigger] x[k]).label == y[k].label && x[k].instrs
                == y[k].instrs,
    ensures
        meaning::outcome(m, own, x, b, from, s, fuel) == meaning::outcome(
            m,
            own,
            y,
            b,
            from,
            s,
            fuel,
        ),
    decreases fuel,
{
    if fuel > 0 && 0 <= b < x.len() && x[b].instrs.len() > 0 {
        let instrs = x[b].instrs;
        assert(y[b].instrs == instrs);
        let t = meaning::run(m, own, meaning::entered(m, s, instrs, from), instrs);
        let label = pass_meaning::next_label(m, t, instrs.last());
        pass_meaning::same_positions(x, y, label);
        if let Some(k) = cfg::label_position(x, label) {
            same_code_same_outcome(m, own, x, y, k as int, b as usize, t, (fuel - 1) as nat);
        }
        assert(meaning::outcome_at(m, own, x, label, b as usize, t, fuel) == meaning::outcome_at(
            m,
            own,
            y,
            label,
            b as usize,
            t,
            fuel,
        ));
    } else if fuel > 0 && 0 <= b < x.len() {
        assert(y[b].instrs.len() == 0);
    }
}

/// A function of several blocks comes to the same end after promotion, in as many blocks: its
/// blocks end in branches or returns, it has no phis before, its entry is entered only from
/// outside, SSA values are used where their definitions dominate, and the variables that are
/// promoted are out of reach from outside and start with no value.
pub proof fn promotion_keeps_outcomes<W>(
    m: MachineV<W>,
    own: Set<usize>,
    f: FuncV,
    from: usize,
    s: StateV<W>,
    fuel: nat,
)
    requires
        promotion_values::plain(f),
        forall|x: int|
            0 <= x < f.blocks.len() ==> (#[trigger] f.blocks[x]).instrs.len() > 0
                && ir::terminator(f.blocks[x].instrs.last()),
        forall|g: usize| #[trigger]
            promotion::promotable(f.blocks).contains(g) ==> own.contains(g) && s.vars[g] == m.undef,
    ensures
        meaning::outcome(m, own, promotion::promoted(f).0.blocks, 0, from, s, fuel)
            == meaning::outcome(m, own, f.blocks, 0, from, s, fuel),
{
    let names = promotion::promotable(f.blocks);
    let (phi, simple) = promotion_values::chosen(f);
    if names.len() == 0 {
    } else if phi.len() == 0 && simple.len() == 0 {
        let new = cfg::with_preds(f).blocks;
        assert forall|k: int| 0 <= k < new.len() implies (#[trigger] new[k]).label
            == f.blocks[k].label && new[k].instrs == f.blocks[k].instrs by {}
        same_code_same_outcome(m, own, new, f.blocks, 0, from, s, fuel);
    } else {
        let r = input(f);
        let idom = promotion::func_idom(f.blocks);
        let preds = promotion::func_preds(f.blocks);
        let v = promotion_rename::subtree(idom, 0);
        promotion_values::setting_is_prepared(f);
        promotion_rename::renaming_fills(r, idom);
        let mid = promotion::rename(
            r,
            0,
            Seq::empty(),
            promotion::with_phis(r.blocks, r.phis),
            r.blocks.len(),
        );
        let new = promotion::promoted_blocks(f, phi, simple);
        assert(domtree::avoids(preds, -1, 0, 0));
        assert(promotion_tree::at_depth(idom, 0, 0));
        assert(new[0] == promotion::cleaned(mid[0], simple, r.promoted));
        assert(promotion_rename::block_renamed(r, idom, v, -1, 0, 0, mid[0]));
        promoted_block_is(f, 0, 0, mid[0]);
        assert(r.phis[0].len() == 0);
        assert(r.blocks[0].instrs == f.blocks[0].instrs);
        let start = promotion_rename::env_start(r, idom, 0, 0);
        renamed_shape(r.promoted, f.blocks[0].instrs, start);
        staying_shape(promotion_rename::renamed_block(r, idom, 0, 0).1, r.promoted);
        assert(new[0].instrs =~= staying(
            promotion_rename::renamed_block(r, idom, 0, 0).1,
            r.promoted,
        ));
        no_phis_entered(m, s, new[0].instrs, from);
        assert(start =~= Seq::empty());
        promoted_outcomes(m, own, f, 0, 0, from, s, s, fuel);
    }
}

} // verus!

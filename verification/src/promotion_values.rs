//! The values that promotion has for variables, and where they come from.

use crate::cfg;
use crate::codegen;
use crate::domtree;
use crate::ir::{self, BlockV, FuncV, InstV, IrOperand};
use crate::numbering_meaning;
use crate::promotion::{self, Env, RenameV};
use crate::promotion_phis;
use crate::promotion_rename;
use crate::promotion_tree;
use crate::ssa;
use vstd::prelude::*;

verus! {

// ── What promotion works on ──────────────────────────────────────────────────

/// What renaming works from, for some variables of a function.
pub open spec fn setting(f: FuncV, phi: Seq<usize>, simple: Seq<(usize, IrOperand)>) -> RenameV {
    let n = f.blocks.len();
    let blocks = cfg::with_preds(f).blocks;
    let preds = promotion::func_preds(f.blocks);
    let idom = promotion::func_idom(f.blocks);
    let (phis, _) = promotion::place_all(
        blocks,
        preds,
        idom,
        phi,
        0,
        Seq::new(n, |i: int| Seq::empty()),
        promotion::fresh_base(f.blocks) as usize,
    );
    RenameV {
        blocks,
        children: Seq::new(n, |p: int| ssa::children_below(idom, n as int, p)),
        succ: Seq::new(n, |p: int| promotion::succ_from(preds, p, n as int)),
        phis,
        promoted: phi + promotion::firsts(simple),
    }
}

/// Whether every use of an SSA value comes after its definition in the block of the definition, or
/// is in a block that this block dominates.
pub open spec fn used_below(blocks: Seq<BlockV>) -> bool {
    forall|b: int, j: int, c: int, i: int, l: usize|
        0 <= b < blocks.len() && 0 <= j < blocks[b].instrs.len() && 0 <= c < blocks.len() && 0 <= i
            < blocks[c].instrs.len() && #[trigger] numbering_meaning::defines(
            blocks[b].instrs[j],
            l,
        ) && #[trigger] numbering_meaning::uses(blocks[c].instrs[i], l) ==> (b == c && j < i) || (b
            != c && domtree::dominates(promotion::func_preds(blocks), b, c))
}

/// Whether a function is as promotion takes it: it has no phis, its entry is entered only from
/// outside, and SSA values are used below their definitions.
pub open spec fn plain(f: FuncV) -> bool {
    &&& f.blocks.len() >= 2
    &&& f.blocks.len() <= usize::MAX
    &&& promotion::room(f)
    &&& cfg::preds(f.blocks, 0).len() == 0
    &&& used_below(f.blocks)
    &&& forall|b: int, i: int|
        0 <= b < f.blocks.len() && 0 <= i < f.blocks[b].instrs.len()
            ==> !(#[trigger] f.blocks[b].instrs[i] is Phi)
}

/// The variables that a function of several blocks has promoted.
pub open spec fn chosen(f: FuncV) -> (Seq<usize>, Seq<(usize, IrOperand)>) {
    let names = promotion::promotable(f.blocks);
    let idom = promotion::func_idom(f.blocks);
    (
        promotion::phi_vars(cfg::with_preds(f).blocks, idom, names),
        promotion::simple_vars(cfg::with_preds(f).blocks, idom, names),
    )
}

/// The variables with phis are those planned for them.
proof fn phi_vars_are(blocks: Seq<BlockV>, idom: Seq<usize>, names: Seq<usize>)
    ensures
        promotion::phi_vars(blocks, idom, names).len() <= names.len(),
        forall|g: usize| #[trigger]
            promotion::phi_vars(blocks, idom, names).contains(g) ==> promotion::plan(
                blocks,
                idom,
                g,
            ) is Phi && names.contains(g),
    decreases names.len(),
{
    if names.len() > 0 {
        let front = names.drop_last();
        phi_vars_are(blocks, idom, front);
        let before = promotion::phi_vars(blocks, idom, front);
        let all = promotion::phi_vars(blocks, idom, names);
        assert forall|g: usize| #[trigger] all.contains(g) implies promotion::plan(
            blocks,
            idom,
            g,
        ) is Phi && names.contains(g) by {
            let i = choose|i: int| 0 <= i < all.len() && all[i] == g;
            if i < before.len() {
                assert(before[i] == g);
                assert(before.contains(g));
                let k = choose|k: int| 0 <= k < front.len() && front[k] == g;
                assert(names[k] == g);
            } else {
                assert(names[names.len() - 1] == g);
            }
        }
    }
}

/// The variables of one value are those planned to be.
proof fn simple_vars_are(blocks: Seq<BlockV>, idom: Seq<usize>, names: Seq<usize>)
    ensures
        forall|g: usize| #[trigger]
            promotion::firsts(promotion::simple_vars(blocks, idom, names)).contains(g)
                ==> promotion::plan(blocks, idom, g) is Simple && names.contains(g),
    decreases names.len(),
{
    if names.len() > 0 {
        let front = names.drop_last();
        simple_vars_are(blocks, idom, front);
        let before = promotion::firsts(promotion::simple_vars(blocks, idom, front));
        let all = promotion::firsts(promotion::simple_vars(blocks, idom, names));
        assert forall|g: usize| #[trigger] all.contains(g) implies promotion::plan(
            blocks,
            idom,
            g,
        ) is Simple && names.contains(g) by {
            let i = choose|i: int| 0 <= i < all.len() && all[i] == g;
            if i < before.len() {
                assert(before[i] == g);
                assert(before.contains(g));
                let k = choose|k: int| 0 <= k < front.len() && front[k] == g;
                assert(names[k] == g);
            } else {
                assert(names[names.len() - 1] == g);
            }
        }
    }
}

/// A block leads to another just where it is among the blocks that lead to the other.
proof fn succ_from_is(preds: Seq<Seq<usize>>, p: usize, n: int)
    requires
        0 <= n <= preds.len() <= usize::MAX,
    ensures
        forall|b: int|
            0 <= b < n && (#[trigger] preds[b]).contains(p) ==> promotion::succ_from(
                preds,
                p as int,
                n,
            ).contains(b as usize),
    decreases n,
{
    if n > 0 {
        succ_from_is(preds, p, n - 1);
        let before = promotion::succ_from(preds, p as int, n - 1);
        let more = cfg::repeated(preds[n - 1], p, (n - 1) as usize);
        let all = promotion::succ_from(preds, p as int, n);
        cfg::repeated_is(preds[n - 1], p, (n - 1) as usize);
        assert forall|b: int| 0 <= b < n && (#[trigger] preds[b]).contains(p) implies all.contains(
            b as usize,
        ) by {
            if b == n - 1 {
                assert(more[0] == b as usize);
                assert(all[before.len() as int] == b as usize);
            } else {
                let i = choose|i: int| 0 <= i < before.len() && before[i] == b as usize;
                assert(all[i] == b as usize);
            }
        }
    }
}

/// What promotion works on is prepared, has enough phis, and keeps them apart.
pub(crate) proof fn setting_is_prepared(f: FuncV)
    requires
        plain(f),
        promotion::promotable(f.blocks).len() > 0,
    ensures
        ({
            let (phi, simple) = chosen(f);
            let r = setting(f, phi, simple);
            let preds = promotion::func_preds(f.blocks);
            let idom = promotion::func_idom(f.blocks);
            let base = promotion::fresh_base(f.blocks);
            &&& base <= usize::MAX
            &&& idom == promotion_tree::idoms(preds)
            &&& promotion_rename::prepared(r, idom)
            &&& promotion_phis::apart(preds, r.phis, base, usize::MAX + 1)
            &&& forall|x: int, g: usize|
                0 <= x < preds.len() && #[trigger] promotion_phis::has_phi(r.phis, x, g)
                    ==> phi.contains(g)
            &&& forall|g: usize| #[trigger]
                phi.contains(g) ==> promotion_phis::enough(r.blocks, preds, idom, r.phis, g)
            &&& forall|g: usize| #[trigger]
                phi.contains(g) ==> promotion::plan(r.blocks, idom, g) is Phi
            &&& forall|g: usize| #[trigger]
                promotion::firsts(simple).contains(g) ==> promotion::plan(
                    r.blocks,
                    idom,
                    g,
                ) is Simple
            &&& forall|g: usize| #[trigger]
                r.promoted.contains(g) ==> promotion::promotable(f.blocks).contains(g)
            &&& forall|b: int| 0 <= b < r.blocks.len() ==> (#[trigger] r.blocks[b]).instrs
                == f.blocks[b].instrs && r.blocks[b].label == f.blocks[b].label
            &&& forall|p: int, b: int|
                0 <= p < preds.len() && 0 <= b < preds.len() && preds[b].contains(p as usize)
                    ==> #[trigger] promotion_rename::leads_to(r, -1, 0, p, b)
            &&& preds[0].len() == 0
        }),
{
    let (phi, simple) = chosen(f);
    let names = promotion::promotable(f.blocks);
    let n = f.blocks.len();
    let blocks = cfg::with_preds(f).blocks;
    let preds = promotion::func_preds(f.blocks);
    let idom = promotion::func_idom(f.blocks);
    let base = promotion::fresh_base(f.blocks);
    let r = setting(f, phi, simple);
    assert(idom =~= promotion_tree::idoms(preds));
    phi_vars_are(blocks, idom, names);
    simple_vars_are(blocks, idom, names);
    assert(base + n * phi.len() <= usize::MAX) by (nonlinear_arith)
        requires
            base + n * names.len() <= usize::MAX,
            phi.len() <= names.len(),
            n >= 0,
    ;
    assert(base <= usize::MAX && base >= 0) by (nonlinear_arith)
        requires
            base + n * names.len() <= usize::MAX,
            n >= 0,
            names.len() >= 0,
            base >= 1000,
    ;
    promotion_phis::phis_are_enough(blocks, preds, idom, phi, base as usize);
    assert(Seq::new(n, |i: int| Seq::<(usize, usize)>::empty()) =~= Seq::new(
        preds.len(),
        |i: int| Seq::<(usize, usize)>::empty(),
    ));
    assert forall|p: int, i: int| 0 <= p < n && 0 <= i < r.succ[p].len() implies #[trigger] r.succ[p][i]
        < n by {
        ssa::succ_in_range(preds, p, n as int);
    }
    assert forall|g: usize| #[trigger] phi.contains(g) implies promotion_phis::enough(
        r.blocks,
        preds,
        idom,
        r.phis,
        g,
    ) by {
        let i = choose|i: int| 0 <= i < phi.len() && phi[i] == g;
        assert(promotion_phis::enough(blocks, preds, idom, r.phis, phi[i]));
    }
    assert forall|g: usize| #[trigger] r.promoted.contains(g) implies names.contains(g) by {
        let i = choose|i: int| 0 <= i < r.promoted.len() && r.promoted[i] == g;
        if i < phi.len() {
            assert(phi[i] == g);
            assert(phi.contains(g));
        } else {
            assert(promotion::firsts(simple)[i - phi.len()] == g);
            assert(promotion::firsts(simple).contains(g));
        }
    }
    assert forall|p: int, b: int|
        0 <= p < preds.len() && 0 <= b < preds.len() && preds[b].contains(
            p as usize,
        ) implies #[trigger] promotion_rename::leads_to(r, -1, 0, p, b) by {
        succ_from_is(preds, p as usize, n as int);
        assert(r.succ[p] == promotion::succ_from(preds, p, n as int));
    }
    assert(promotion_rename::prepared(r, idom)) by {
        assert forall|b: int, k: int, j: int|
            0 <= b < n && 0 <= k < r.phis[b].len() && 0 <= j < r.phis[b].len() && (
            #[trigger] r.phis[b][k]).1 == (#[trigger] r.phis[b][j]).1 implies k == j by {}
    }
}

// ── Indices ──────────────────────────────────────────────────────────────────

/// Whether an instruction defines or uses an SSA value.
pub open spec fn mentions(i: InstV, l: usize) -> bool {
    numbering_meaning::defines(i, l) || numbering_meaning::uses(i, l)
}

proof fn ops_max_covers(ops: Seq<IrOperand>, least: int, k: int)
    requires
        0 <= k < ops.len(),
    ensures
        ops[k] matches IrOperand::Local(l) ==> l <= promotion::ops_max(ops, least),
    decreases ops.len(),
{
    if k < ops.len() - 1 {
        ops_max_covers(ops.drop_last(), least, k);
    }
}

proof fn insts_max_bounds(instrs: Seq<InstV>, least: int, i: int)
    requires
        0 <= i < instrs.len(),
    ensures
        forall|l: usize|
            #[trigger] mentions(instrs[i], l) ==> l <= promotion::insts_max(instrs, least),
    decreases instrs.len(),
{
    let front = instrs.drop_last();
    let before = promotion::insts_max(front, least);
    let last = instrs.last();
    let ops = ir::inst_operands(last);
    let low = match ir::inst_dest(last) {
        Some(d) => promotion::greater(before, d as int),
        None => before,
    };
    codegen::ops_max_grows(ops, low);
    if i < front.len() {
        insts_max_bounds(front, least, i);
        assert(front[i] == instrs[i]);
    } else {
        assert forall|l: usize|
            #[trigger] mentions(last, l) implies l <= promotion::insts_max(instrs, least) by {
            if numbering_meaning::uses(last, l) {
                let k = choose|k: int| 0 <= k < ops.len() && ops[k] == IrOperand::Local(l);
                ops_max_covers(ops, low, k);
            }
        }
    }
}

proof fn blocks_max_bounds(blocks: Seq<BlockV>, least: int, b: int, i: int)
    requires
        0 <= b < blocks.len(),
        0 <= i < blocks[b].instrs.len(),
    ensures
        forall|l: usize|
            #[trigger] mentions(blocks[b].instrs[i], l) ==> l <= promotion::blocks_max(blocks, least),
    decreases blocks.len(),
{
    let front = blocks.drop_last();
    let before = promotion::blocks_max(front, least);
    if b < front.len() {
        assert(front[b] == blocks[b]);
        blocks_max_bounds(front, least, b, i);
        codegen::insts_max_grows(blocks.last().instrs, before);
    } else {
        insts_max_bounds(blocks.last().instrs, before, i);
    }
}

/// The SSA values of a function are below those of the phis.
pub(crate) proof fn values_below_base(blocks: Seq<BlockV>, b: int, i: int)
    requires
        0 <= b < blocks.len(),
        0 <= i < blocks[b].instrs.len(),
    ensures
        forall|l: usize|
            #[trigger] mentions(blocks[b].instrs[i], l) ==> l < promotion::fresh_base(blocks),
{
    blocks_max_bounds(blocks, 0, b, i);
}

// ── Values of variables ──────────────────────────────────────────────────────

/// The value of a variable is in an entry, or there is none for the variable.
pub(crate) proof fn value_is_entry(env: Env, g: usize)
    ensures
        promotion::value_of(env, g) == IrOperand::Undef || exists|t: int|
            0 <= t < env.len() && #[trigger] env[t] == (g, promotion::value_of(env, g)),
    decreases env.len(),
{
    if env.len() > 0 {
        if env.last().0 == g {
            assert(env[env.len() - 1] == (g, promotion::value_of(env, g)));
        } else {
            let front = env.drop_last();
            value_is_entry(front, g);
            if promotion::value_of(front, g) != IrOperand::Undef {
                let t = choose|t: int|
                    0 <= t < front.len() && #[trigger] front[t] == (g, promotion::value_of(front, g));
                assert(env[t] == front[t]);
            }
        }
    }
}

/// What has no entry for a variable leaves its value.
pub(crate) proof fn no_entry_no_change(a: Env, b: Env, g: usize)
    requires
        forall|t: int| 0 <= t < b.len() ==> (#[trigger] b[t]).0 != g,
    ensures
        promotion::value_of(a + b, g) == promotion::value_of(a, g),
    decreases b.len(),
{
    if b.len() == 0 {
        assert(a + b =~= a);
    } else {
        let front = b.drop_last();
        assert forall|t: int| 0 <= t < front.len() implies (#[trigger] front[t]).0 != g by {
            assert(front[t] == b[t]);
        }
        no_entry_no_change(a, front, g);
        assert((a + b).drop_last() =~= a + front);
        assert((a + b).last() == b.last());
        assert(b[b.len() - 1].0 != g);
    }
}

/// A variable that has one entry in the second part of some has its value there.
pub(crate) proof fn only_entry_counts(a: Env, b: Env, k: int)
    requires
        0 <= k < b.len(),
        forall|t: int| 0 <= t < b.len() && (#[trigger] b[t]).0 == b[k].0 ==> t == k,
    ensures
        promotion::value_of(a + b, b[k].0) == b[k].1,
    decreases b.len(),
{
    let front = b.drop_last();
    assert((a + b).drop_last() =~= a + front);
    assert((a + b).last() == b.last());
    if k < b.len() - 1 {
        assert(b[b.len() - 1].0 != b[k].0);
        assert forall|t: int| 0 <= t < front.len() && (#[trigger] front[t]).0
            == front[k].0 implies t == k by {
            assert(front[t] == b[t]);
        }
        only_entry_counts(a, front, k);
    }
}

/// Instructions that do not store to a variable leave its value.
pub(crate) proof fn no_store_no_change(
    promoted: Seq<usize>,
    instrs: Seq<InstV>,
    s: (Env, Seq<InstV>),
    g: usize,
)
    requires
        !promotion::has_store(instrs, g),
    ensures
        promotion::value_of(promotion::renamed(promoted, instrs, s).0, g) == promotion::value_of(
            s.0,
            g,
        ),
    decreases instrs.len(),
{
    if instrs.len() > 0 {
        let front = instrs.drop_last();
        let last = instrs.last();
        assert(!promotion::has_store(front, g)) by {
            if promotion::has_store(front, g) {
                let i = choose|i: int|
                    0 <= i < front.len() && promotion::stores_to(#[trigger] front[i], g);
                assert(promotion::stores_to(instrs[i], g));
            }
        }
        assert(!promotion::stores_to(instrs[instrs.len() - 1], g));
        no_store_no_change(promoted, front, s, g);
        let before = promotion::renamed(promoted, front, s);
        let after = promotion::renamed(promoted, instrs, s);
        if after.0 != before.0 {
            assert(after.0.drop_last() =~= before.0);
        }
    }
}

/// A variable that no block sets between a block and one above it has at the end of the block the
/// value that it has at the end of the one above.
pub(crate) proof fn unset_between(
    r: RenameV,
    idom: Seq<usize>,
    d: int,
    p: int,
    j: nat,
    k: nat,
    g: usize,
)
    requires
        promotion_tree::at_depth(idom, p, k),
        promotion_tree::below(idom, d, p, j),
        j <= k,
        forall|i: nat|
            i < j ==> !promotion_phis::sets(
                r.blocks,
                r.phis,
                #[trigger] ssa::climb(idom, p, i),
                g,
            ),
    ensures
        promotion::value_of(promotion_rename::renamed_block(r, idom, p, k).0, g)
            == promotion::value_of(
            promotion_rename::renamed_block(r, idom, d, (k - j) as nat).0,
            g,
        ),
    decreases j,
{
    if j > 0 {
        let u = idom[p] as int;
        assert(ssa::climb(idom, p, 0) == p);
        assert(!promotion_phis::sets(r.blocks, r.phis, p, g));
        no_store_no_change(
            r.promoted,
            r.blocks[p].instrs,
            (promotion_rename::env_start(r, idom, p, k), Seq::empty()),
            g,
        );
        let values = promotion::phi_values(r.phis[p]);
        assert forall|t: int| 0 <= t < values.len() implies (#[trigger] values[t]).0 != g by {
            assert(r.phis[p][t].0 == values[t].0);
        }
        no_entry_no_change(promotion_rename::env_above(r, idom, p, k), values, g);
        assert forall|i: nat| i < j - 1 implies !promotion_phis::sets(
            r.blocks,
            r.phis,
            #[trigger] ssa::climb(idom, u, i),
            g,
        ) by {
            promotion_tree::climb_shift(idom, p, i);
        }
        unset_between(r, idom, d, u, (j - 1) as nat, (k - 1) as nat, g);
    }
}

} // verus!

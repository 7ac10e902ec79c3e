//! The form that the promotion of variables leaves: the one that passes take.

use crate::cfg;
use crate::domtree;
use crate::forwarding_meaning;
use crate::ir::{self, BlockV, FuncV, InstV, IrOperand};
use crate::live_lowering;
use crate::lowering_meaning;
use crate::meaning;
use crate::numbering_meaning;
use crate::opt::const_fold;
use crate::promotion::{self, Env, Phis};
use crate::promotion_lowering;
use crate::promotion_meaning;
use crate::promotion_phis;
use crate::promotion_rename;
use crate::promotion_tree;
use crate::promotion_values;
use crate::thinning;
use crate::translation_blocks;
use vstd::prelude::*;

verus! {

// ── What promotion takes ─────────────────────────────────────────────────────

/// Whether all blocks of a function can be reached.
pub open spec fn all_reachable(f: FuncV) -> bool {
    forall|b: int|
        0 <= b < f.blocks.len() ==> #[trigger] domtree::reachable(
            promotion::func_preds(f.blocks),
            b,
        )
}

/// Whether a function is as promotion takes it to leave the form that passes take.
pub open spec fn well_formed(f: FuncV) -> bool {
    &&& promotion_values::plain(f)
    &&& numbering_meaning::defined_once(f.blocks)
    &&& forall|b: int|
        0 <= b < f.blocks.len() ==> translation_blocks::block_ends(#[trigger] f.blocks[b])
    &&& all_reachable(f)
}

// ── Promoted blocks ──────────────────────────────────────────────────────────

/// The values of variables at the start of a block.
spec fn start_env(f: FuncV, b: int) -> Env {
    let idom = promotion::func_idom(f.blocks);
    promotion_rename::env_start(
        promotion_meaning::input(f),
        idom,
        b,
        promotion_rename::depth_of(idom, b),
    )
}

/// The values of variables before an instruction of a block.
#[verifier::opaque]
spec fn env_at(f: FuncV, b: int, j: int) -> Env {
    promotion::renamed(
        promotion_meaning::input(f).promoted,
        f.blocks[b].instrs.take(j),
        (start_env(f, b), Seq::empty()),
    ).0
}

/// What promotion makes of an instruction that stays.
spec fn made_of(f: FuncV, b: int, j: int) -> InstV {
    match f.blocks[b].instrs[j] {
        InstV::Load { dest, src: IrOperand::Global(g) } => if promotion_meaning::input(
            f,
        ).promoted.contains(g) {
            const_fold::copy_of(dest, promotion::value_of(env_at(f, b, j), g))
        } else {
            f.blocks[b].instrs[j]
        },
        i => i,
    }
}

/// Marks the instructions of a block that stay.
spec fn stay(f: FuncV, b: int) -> spec_fn(int) -> bool {
    |j: int| promotion::remains(f.blocks[b].instrs[j], promotion_meaning::input(f).promoted)
}

/// What stays of the first instructions of a block.
proof fn kept_are(f: FuncV, b: int, j: int)
    requires
        0 <= j <= f.blocks[b].instrs.len(),
    ensures
        ({
            let at = thinning::marked(j, stay(f, b));
            let promoted = promotion_meaning::input(f).promoted;
            promotion_meaning::staying(
                promotion::renamed(
                    promoted,
                    f.blocks[b].instrs.take(j),
                    (start_env(f, b), Seq::empty()),
                ).1,
                promoted,
            ) =~= Seq::new(at.len(), |q: int| made_of(f, b, at[q]))
        }),
    decreases j,
{
    let promoted = promotion_meaning::input(f).promoted;
    let a = f.blocks[b].instrs;
    let start = (start_env(f, b), Seq::<InstV>::empty());
    if j > 0 {
        kept_are(f, b, j - 1);
        assert(a.take(j).drop_last() =~= a.take(j - 1));
        assert(a.take(j).last() == a[j - 1]);
        let before = promotion::renamed(promoted, a.take(j - 1), start);
        assert(before.0 == env_at(f, b, j - 1)) by {
            reveal(env_at);
        }
        promotion_meaning::staying_push(before.1, promoted, made_of(f, b, j - 1));
    } else {
        assert(a.take(0) =~= Seq::empty());
        reveal(Seq::filter);
    }
}

/// The values before an instruction, from those before the last.
proof fn env_step(f: FuncV, b: int, j: int)
    requires
        0 <= j < f.blocks[b].instrs.len(),
    ensures
        env_at(f, b, j + 1) == match f.blocks[b].instrs[j] {
            InstV::Store { value, ptr: IrOperand::Global(g) } => if promotion_meaning::input(
                f,
            ).promoted.contains(g) {
                env_at(f, b, j).push((g, value))
            } else {
                env_at(f, b, j)
            },
            _ => env_at(f, b, j),
        },
        env_at(f, b, 0) == start_env(f, b),
{
    reveal(env_at);
    let a = f.blocks[b].instrs;
    assert(a.take(j + 1).drop_last() =~= a.take(j));
    assert(a.take(j + 1).last() == a[j]);
    assert(a.take(0) =~= Seq::empty());
}

proof fn env_ends(f: FuncV, b: int)
    requires
        well_formed(f),
        promotion::promotable(f.blocks).len() > 0,
        0 <= b < f.blocks.len(),
    ensures
        env_at(f, b, f.blocks[b].instrs.len() as int) == promotion_rename::env_end(
            promotion_meaning::input(f),
            promotion::func_idom(f.blocks),
            b,
        ),
{
    reveal(env_at);
    let a = f.blocks[b].instrs;
    promotion_values::setting_is_prepared(f);
    assert(promotion_meaning::input(f).blocks[b].instrs == a);
    assert(a.take(a.len() as int) =~= a);
}

/// A new value of a variable before an instruction is the one at the start of the block.
proof fn new_value_from_start(f: FuncV, b: int, j: int, g: usize, l: usize)
    requires
        0 <= b < f.blocks.len(),
        0 <= j <= f.blocks[b].instrs.len(),
        f.blocks[b].instrs.len() > 0,
        promotion::value_of(env_at(f, b, j), g) == IrOperand::Local(l),
        l >= promotion::fresh_base(f.blocks),
    ensures
        promotion::value_of(start_env(f, b), g) == IrOperand::Local(l),
    decreases j,
{
    if j > 0 {
        env_step(f, b, j - 1);
        let before = env_at(f, b, j - 1);
        let i = f.blocks[b].instrs[j - 1];
        if let InstV::Store { value, ptr: IrOperand::Global(h) } = i {
            if promotion_meaning::input(f).promoted.contains(h) {
                assert(before.push((h, value)).drop_last() =~= before);
                if h == g {
                    assert(ir::inst_operands(i)[0] == value);
                    assert(ir::inst_operands(i).contains(IrOperand::Local(l)));
                    assert(promotion_values::mentions(i, l));
                    promotion_values::values_below_base(f.blocks, b, j - 1);
                }
            }
        }
        new_value_from_start(f, b, j - 1, g, l);
    } else {
        env_step(f, b, 0);
    }
}

/// The values before an instruction come from above it.
proof fn env_sourced(f: FuncV, b: int, j: int, k: int)
    requires
        well_formed(f),
        promotion::promotable(f.blocks).len() > 0,
        0 <= b < f.blocks.len(),
        0 <= j <= k <= f.blocks[b].instrs.len(),
    ensures
        promotion_meaning::sourced(
            promotion_meaning::input(f),
            promotion::func_idom(f.blocks),
            b,
            k,
            env_at(f, b, j),
        ),
    decreases k - j,
{
    let r = promotion_meaning::input(f);
    let idom = promotion::func_idom(f.blocks);
    if j < k {
        env_sourced(f, b, j, k - 1);
        promotion_meaning::sourced_later(r, idom, b, k - 1, env_at(f, b, j));
    } else {
        promotion_values::setting_is_prepared(f);
        let d = depth(f, b);
        promotion_meaning::start_sourced(r, idom, b, d);
        assert(r.blocks[b].instrs == f.blocks[b].instrs);
        promotion_meaning::block_sourced(r, idom, b, j, start_env(f, b));
        reveal(env_at);
    }
}

/// Blocks are in the tree.
proof fn depth(f: FuncV, b: int) -> (k: nat)
    requires
        well_formed(f),
        promotion::promotable(f.blocks).len() > 0,
        0 <= b < f.blocks.len(),
    ensures
        promotion_tree::at_depth(promotion::func_idom(f.blocks), b, k),
        k == promotion_rename::depth_of(promotion::func_idom(f.blocks), b),
{
    promotion_values::setting_is_prepared(f);
    let preds = promotion::func_preds(f.blocks);
    assert(domtree::reachable(preds, b));
    let k = promotion_tree::reachable_in_tree(preds, b);
    promotion_rename::depth_is(promotion::func_idom(f.blocks), b, k);
    k
}

/// Promotion leaves as many blocks.
proof fn same_count(f: FuncV)
    requires
        well_formed(f),
        promotion::promotable(f.blocks).len() > 0,
    ensures
        promotion_lowering::promoted_code(f).len() == f.blocks.len(),
{
    promotion_values::setting_is_prepared(f);
    promotion_rename::renaming_fills(
        promotion_meaning::input(f),
        promotion::func_idom(f.blocks),
    );
}

/// Whether a promoted block has its phis, then what stays of its instructions, and its end.
spec fn block_is(f: FuncV, b: int) -> bool {
    let r = promotion_meaning::input(f);
    let n = r.phis[b].len() as int;
    let a = f.blocks[b].instrs;
    let new = promotion_lowering::promoted_code(f)[b];
    let at = thinning::marked(a.len() as int, stay(f, b));
    &&& translation_blocks::block_ends(new)
    &&& new.instrs.last() == a.last()
    &&& new.label == f.blocks[b].label
    &&& new.instrs.len() == n + at.len()
    &&& forall|q: int|
        0 <= q < at.len() ==> 0 <= #[trigger] at[q] < a.len() && new.instrs[n + q] == made_of(
            f,
            b,
            at[q],
        )
    &&& forall|i: int|
        0 <= i < n ==> promotion_rename::phi_filled(
            r,
            promotion::func_idom(f.blocks),
            promotion_rename::subtree(promotion::func_idom(f.blocks), 0),
            -1,
            0,
            b,
            i,
            #[trigger] new.instrs[i],
        )
}

proof fn blocks_are(f: FuncV, b: int)
    requires
        well_formed(f),
        promotion::promotable(f.blocks).len() > 0,
        0 <= b < f.blocks.len(),
    ensures
        block_is(f, b),
{
    let r = promotion_meaning::input(f);
    let idom = promotion::func_idom(f.blocks);
    let n = r.phis[b].len() as int;
    let a = f.blocks[b].instrs;
    let k = depth(f, b);
    promotion_values::setting_is_prepared(f);
    promotion_rename::renaming_fills(r, idom);
    promotion_lowering::promoted_block_ends(f, b, k);
    kept_are(f, b, a.len() as int);
    assert(a.take(a.len() as int) =~= a);
    assert(r.blocks[b].instrs == a);
    thinning::marked_positions(a.len() as int, stay(f, b));
    let mid = promotion_lowering::renamed_code(f)[b];
    let new = promotion_lowering::promoted_code(f)[b];
    let at = thinning::marked(a.len() as int, stay(f, b));
    let v = promotion_rename::subtree(idom, 0);
    assert(promotion_rename::block_renamed(r, idom, v, -1, 0, b, mid));
    assert(mid.instrs.take(n).len() == n);
    assert forall|q: int| 0 <= q < at.len() implies 0 <= #[trigger] at[q] < a.len()
        && new.instrs[n + q] == made_of(f, b, at[q]) by {}
    assert forall|i: int| 0 <= i < n implies promotion_rename::phi_filled(
        r,
        idom,
        v,
        -1,
        0,
        b,
        i,
        #[trigger] new.instrs[i],
    ) by {
        assert(new.instrs[i] == mid.instrs.take(n)[i]);
        assert(promotion_rename::phi_filled(r, idom, v, -1, 0, b, i, mid.instrs[i]));
    }
}

/// What an instruction of a promoted block defines and uses.
proof fn made_uses(f: FuncV, b: int, j: int)
    requires
        well_formed(f),
        0 <= b < f.blocks.len(),
        0 <= j < f.blocks[b].instrs.len(),
    ensures
        !(made_of(f, b, j) is Phi),
        forall|l: usize| #[trigger]
            numbering_meaning::defines(made_of(f, b, j), l) <==> numbering_meaning::defines(
                f.blocks[b].instrs[j],
                l,
            ),
        forall|l: usize| #[trigger]
            numbering_meaning::defines(made_of(f, b, j), l) ==> l < promotion::fresh_base(f.blocks),
        forall|l: usize| #[trigger]
            numbering_meaning::uses(made_of(f, b, j), l) ==> (numbering_meaning::uses(
                f.blocks[b].instrs[j],
                l,
            ) && l < promotion::fresh_base(f.blocks)) || exists|g: usize| #[trigger]
                promotion_meaning::input(f).promoted.contains(g) && promotion::value_of(
                    env_at(f, b, j),
                    g,
                ) == IrOperand::Local(l),
{
    let a = f.blocks[b].instrs[j];
    let i = made_of(f, b, j);
    assert(!(f.blocks[b].instrs[j] is Phi));
    promotion_values::values_below_base(f.blocks, b, j);
    assert forall|l: usize| #[trigger] numbering_meaning::defines(i, l) implies l
        < promotion::fresh_base(f.blocks) by {
        assert(promotion_values::mentions(f.blocks[b].instrs[j], l));
    }
    assert forall|l: usize| #[trigger] numbering_meaning::uses(i, l) implies (
    numbering_meaning::uses(a, l) && l < promotion::fresh_base(f.blocks)) || exists|g: usize|
        #[trigger] promotion_meaning::input(f).promoted.contains(g) && promotion::value_of(
            env_at(f, b, j),
            g,
        ) == IrOperand::Local(l) by {
        if i == a {
            assert(promotion_values::mentions(f.blocks[b].instrs[j], l));
        } else if let InstV::Load { src: IrOperand::Global(g), .. } = a {
            let ops = ir::inst_operands(i);
            let x = choose|x: int| 0 <= x < ops.len() && ops[x] == IrOperand::Local(l);
            assert(ops == seq![promotion::value_of(env_at(f, b, j), g), IrOperand::Int(0)]);
            assert(promotion_meaning::input(f).promoted.contains(g));
        }
    }
}

/// An instruction of a promoted block after its phis is what is made of one of the block.
proof fn kept_position(f: FuncV, b: int, i: int) -> (q: int)
    requires
        well_formed(f),
        promotion::promotable(f.blocks).len() > 0,
        0 <= b < f.blocks.len(),
        0 <= i < promotion_lowering::promoted_code(f)[b].instrs.len(),
        i >= promotion_meaning::input(f).phis[b].len(),
    ensures
        ({
            let at = thinning::marked(f.blocks[b].instrs.len() as int, stay(f, b));
            let j = at[q];
            &&& q == i - promotion_meaning::input(f).phis[b].len()
            &&& 0 <= q < at.len()
            &&& 0 <= j < f.blocks[b].instrs.len()
            &&& promotion_lowering::promoted_code(f)[b].instrs[i] == made_of(f, b, j)
        }),
{
    blocks_are(f, b);
    let n = promotion_meaning::input(f).phis[b].len() as int;
    let at = thinning::marked(f.blocks[b].instrs.len() as int, stay(f, b));
    let q = i - n;
    assert(0 <= at[q] < f.blocks[b].instrs.len());
    assert(promotion_lowering::promoted_code(f)[b].instrs[n + q] == made_of(f, b, at[q]));
    q
}

proof fn promoted_used_after(f: FuncV, b: int)
    requires
        well_formed(f),
        promotion::promotable(f.blocks).len() > 0,
        0 <= b < f.blocks.len(),
    ensures
        numbering_meaning::used_after(promotion_lowering::promoted_code(f)[b].instrs),
{
    let instrs = promotion_lowering::promoted_code(f)[b].instrs;
    let n = promotion_meaning::input(f).phis[b].len() as int;
    let at = thinning::marked(f.blocks[b].instrs.len() as int, stay(f, b));
    blocks_are(f, b);
    thinning::marked_positions(f.blocks[b].instrs.len() as int, stay(f, b));
    assert forall|i: int, j: int, l: usize|
        0 <= i <= j < instrs.len() && !(instrs[i] is Phi) && #[trigger] numbering_meaning::defines(
            instrs[j],
            l,
        ) implies !(#[trigger] numbering_meaning::uses(instrs[i], l)) by {
        if numbering_meaning::uses(instrs[i], l) {
            assert(i >= n) by {
                if i < n {
                    assert(promotion_rename::phi_filled(
                        promotion_meaning::input(f),
                        promotion::func_idom(f.blocks),
                        promotion_rename::subtree(promotion::func_idom(f.blocks), 0),
                        -1,
                        0,
                        b,
                        i,
                        instrs[i],
                    ));
                }
            }
            let qi = kept_position(f, b, i);
            let qj = kept_position(f, b, j);
            let x = at[qi];
            let y = at[qj];
            made_uses(f, b, x);
            made_uses(f, b, y);
            assert(x <= y) by {
                if i < j {
                    assert(at[i - n] < at[j - n]);
                }
            }
            assert(numbering_meaning::defines(made_of(f, b, y), l));
            assert(numbering_meaning::defines(f.blocks[b].instrs[y], l));
            assert(numbering_meaning::uses(made_of(f, b, x), l));
            if numbering_meaning::uses(f.blocks[b].instrs[x], l) {
            } else {
                let g = choose|g: usize| #[trigger]
                    promotion_meaning::input(f).promoted.contains(g) && promotion::value_of(
                        env_at(f, b, x),
                        g,
                    ) == IrOperand::Local(l);
                env_sourced(f, b, x, y);
                let k = depth(f, b);
                assert(domtree::reachable(promotion::func_preds(f.blocks), b));
                promotion_meaning::not_redefined(f, b, k, y, env_at(f, b, x), l, g);
            }
        }
    }
}

/// What an instruction of a promoted block defines: a phi what is its own, another what the
/// instruction of the block that it is made of defines.
proof fn promoted_defines(f: FuncV, b: int, i: int, l: usize) -> (j: int)
    requires
        well_formed(f),
        promotion::promotable(f.blocks).len() > 0,
        0 <= b < f.blocks.len(),
        0 <= i < promotion_lowering::promoted_code(f)[b].instrs.len(),
        numbering_meaning::defines(promotion_lowering::promoted_code(f)[b].instrs[i], l),
    ensures
        ({
            let r = promotion_meaning::input(f);
            let n = r.phis[b].len() as int;
            let at = thinning::marked(f.blocks[b].instrs.len() as int, stay(f, b));
            &&& i < n ==> r.phis[b][i].1 == l && l >= promotion::fresh_base(f.blocks)
                && promotion_lowering::promoted_code(f)[b].instrs[i] is Phi
            &&& i >= n ==> 0 <= i - n < at.len() && j == at[i - n] && 0 <= j
                < f.blocks[b].instrs.len() && numbering_meaning::defines(f.blocks[b].instrs[j], l)
                && l < promotion::fresh_base(f.blocks)
                && !(promotion_lowering::promoted_code(f)[b].instrs[i] is Phi)
        }),
{
    let r = promotion_meaning::input(f);
    let n = r.phis[b].len() as int;
    blocks_are(f, b);
    promotion_values::setting_is_prepared(f);
    let instrs = promotion_lowering::promoted_code(f)[b].instrs;
    if i < n {
        assert(promotion_rename::phi_filled(
            r,
            promotion::func_idom(f.blocks),
            promotion_rename::subtree(promotion::func_idom(f.blocks), 0),
            -1,
            0,
            b,
            i,
            instrs[i],
        ));
        assert(r.phis[b][i].1 >= promotion::fresh_base(f.blocks));
        0
    } else {
        let q = kept_position(f, b, i);
        let at = thinning::marked(f.blocks[b].instrs.len() as int, stay(f, b));
        made_uses(f, b, at[q]);
        assert(numbering_meaning::defines(made_of(f, b, at[q]), l));
        at[q]
    }
}

proof fn promoted_defined_once(f: FuncV)
    requires
        well_formed(f),
        promotion::promotable(f.blocks).len() > 0,
    ensures
        numbering_meaning::defined_once(promotion_lowering::promoted_code(f)),
{
    let code = promotion_lowering::promoted_code(f);
    let r = promotion_meaning::input(f);
    promotion_values::setting_is_prepared(f);
    same_count(f);
    assert forall|b: int, i: int, c: int, j: int, l: usize|
        0 <= b < code.len() && 0 <= i < code[b].instrs.len() && 0 <= c < code.len() && 0 <= j
            < code[c].instrs.len() && #[trigger] numbering_meaning::defines(code[b].instrs[i], l)
            && #[trigger] numbering_meaning::defines(code[c].instrs[j], l) implies b == c && i
        == j by {
        let x = promoted_defines(f, b, i, l);
        let y = promoted_defines(f, c, j, l);
        let n = r.phis[b].len() as int;
        if i < n {
            assert(r.phis[b][i].1 == r.phis[c][j].1);
        } else {
            assert(numbering_meaning::defines(f.blocks[b].instrs[x], l));
            assert(numbering_meaning::defines(f.blocks[c].instrs[y], l));
            assert(b == c && x == y);
            thinning::marked_positions(f.blocks[b].instrs.len() as int, stay(f, b));
            let at = thinning::marked(f.blocks[b].instrs.len() as int, stay(f, b));
            if i < j {
                assert(at[i - n] < at[j - n]);
            } else if j < i {
                assert(at[j - n] < at[i - n]);
            }
        }
    }
}

/// Promoted blocks lead where the blocks lead.
proof fn promoted_edge(f: FuncV, p: int, b: usize)
    requires
        well_formed(f),
        promotion::promotable(f.blocks).len() > 0,
        0 <= p < f.blocks.len(),
        cfg::succs(promotion_lowering::promoted_code(f), p).contains(b),
    ensures
        b < f.blocks.len(),
        cfg::preds(f.blocks, b as int).contains(p as usize),
        promotion_rename::leads_to(promotion_meaning::input(f), -1, 0, p, b as int),
        promotion_rename::subtree(promotion::func_idom(f.blocks), 0).contains(p),
{
    let code = promotion_lowering::promoted_code(f);
    same_count(f);
    assert forall|k: int| 0 <= k < f.blocks.len() implies (#[trigger] code[k]).label
        == f.blocks[k].label by {
        blocks_are(f, k);
    }
    blocks_are(f, p);
    assert(translation_blocks::block_ends(f.blocks[p]));
    assert(cfg::exits(code[p]) == cfg::exits(f.blocks[p]));
    thinning::fewer_succs(f.blocks, code, p, b);
    thinning::succs_in_range(f.blocks, p, b);
    cfg::edges_have_two_ends(f.blocks, f.blocks.len() as int, p as usize, b);
    promotion_values::setting_is_prepared(f);
    let preds = promotion::func_preds(f.blocks);
    assert(preds[b as int] == cfg::preds(f.blocks, b as int));
    let k = depth(f, p);
    promotion_meaning::depth_is_below(promotion::func_idom(f.blocks), p, k);
}

/// The value of a phi from a block is that of its variable at the end of the block.
proof fn phi_brings(f: FuncV, d: int, i: int, b: usize)
    requires
        well_formed(f),
        promotion::promotable(f.blocks).len() > 0,
        0 <= d < f.blocks.len(),
        0 <= i < promotion_lowering::promoted_code(f)[d].instrs.len(),
        promotion_lowering::promoted_code(f)[d].instrs[i] is Phi,
        lowering_meaning::brings(promotion_lowering::promoted_code(f)[d].instrs[i], b),
    ensures
        ({
            let r = promotion_meaning::input(f);
            let phi = promotion_lowering::promoted_code(f)[d].instrs[i];
            &&& i < r.phis[d].len()
            &&& phi->Phi_dest == r.phis[d][i].1
            &&& r.promoted.contains(r.phis[d][i].0)
            &&& meaning::incoming_from(phi->Phi_incoming, b) == promotion::value_of(
                promotion_rename::env_end(r, promotion::func_idom(f.blocks), b as int),
                r.phis[d][i].0,
            )
        }),
{
    let r = promotion_meaning::input(f);
    let phi = promotion_lowering::promoted_code(f)[d].instrs[i];
    blocks_are(f, d);
    promotion_lowering::promoted_phis_are(f, d, i);
    promotion_values::setting_is_prepared(f);
    assert(promotion_rename::phi_filled(
        r,
        promotion::func_idom(f.blocks),
        promotion_rename::subtree(promotion::func_idom(f.blocks), 0),
        -1,
        0,
        d,
        i,
        phi,
    ));
    promotion_meaning::incoming_is_from(phi->Phi_incoming, b);
    let g = r.phis[d][i].0;
    assert(promotion_phis::has_phi(r.phis, d, g));
    let (vars, simple) = promotion_values::chosen(f);
    assert(vars.contains(g));
    let x = choose|x: int| 0 <= x < vars.len() && vars[x] == g;
    assert(r.promoted == vars + promotion::firsts(simple));
    assert(r.promoted[x] == g);
}

proof fn promoted_all_ways(f: FuncV)
    requires
        well_formed(f),
        promotion::promotable(f.blocks).len() > 0,
    ensures
        lowering_meaning::all_ways(promotion_lowering::promoted_code(f)),
{
    let code = promotion_lowering::promoted_code(f);
    let r = promotion_meaning::input(f);
    let idom = promotion::func_idom(f.blocks);
    let v = promotion_rename::subtree(idom, 0);
    same_count(f);
    assert forall|b: int, i: int, p: usize|
        0 <= b < code.len() && 0 <= i < code[b].instrs.len() && p < code.len()
            && code[b].instrs[i] is Phi && cfg::succs(code, p as int).contains(
            b as usize,
        ) implies #[trigger] lowering_meaning::brings(code[b].instrs[i], p) by {
        promotion_lowering::promoted_phis_are(f, b, i);
        blocks_are(f, b);
        promoted_edge(f, p as int, b as usize);
        assert(promotion_rename::phi_filled(r, idom, v, -1, 0, b, i, code[b].instrs[i]));
        assert(v.contains(p as int) && promotion_rename::leads_to(r, -1, 0, p as int, b));
    }
    assert forall|b: int, i: int| 0 <= b < code.len() && 0 <= i < code[b].instrs.len() implies
        lowering_meaning::one_value(#[trigger] code[b].instrs[i]) by {
        if code[b].instrs[i] is Phi {
            promotion_lowering::promoted_phis_are(f, b, i);
            blocks_are(f, b);
            assert(promotion_rename::phi_filled(r, idom, v, -1, 0, b, i, code[b].instrs[i]));
        }
    }
}

// ── Which values count where ─────────────────────────────────────────────────

/// Whether an SSA value is that of a promoted variable at the start of a block.
spec fn carried(f: FuncV, b: int, l: usize) -> bool {
    exists|g: usize| #[trigger]
        promotion_meaning::input(f).promoted.contains(g) && promotion::value_of(
            start_env(f, b),
            g,
        ) == IrOperand::Local(l)
}

/// The SSA values that count in a block: those of the function before, and the values of
/// variables.
spec fn counting(f: FuncV) -> Seq<Set<usize>> {
    Seq::new(
        f.blocks.len(),
        |b: int| Set::new(|l: usize| l < promotion::fresh_base(f.blocks) || carried(f, b, l)),
    )
}

/// The value of a variable with a phi in a block is that of the phi.
proof fn phi_counts(a: Env, phis: Phis, g: usize)
    requires
        exists|k: int| 0 <= k < phis.len() && (#[trigger] phis[k]).0 == g,
    ensures
        exists|k: int|
            0 <= k < phis.len() && (#[trigger] phis[k]).0 == g && promotion::value_of(
                a + promotion::phi_values(phis),
                g,
            ) == IrOperand::Local(phis[k].1),
    decreases phis.len(),
{
    let all = a + promotion::phi_values(phis);
    let n = phis.len() - 1;
    assert(all.last() == (phis[n].0, IrOperand::Local(phis[n].1)));
    if phis[n].0 != g {
        let front = phis.drop_last();
        let k = choose|k: int| 0 <= k < phis.len() && (#[trigger] phis[k]).0 == g;
        assert(front[k].0 == g);
        phi_counts(a, front, g);
        assert(all.drop_last() =~= a + promotion::phi_values(front));
        let j = choose|j: int|
            0 <= j < front.len() && (#[trigger] front[j]).0 == g && promotion::value_of(
                a + promotion::phi_values(front),
                g,
            ) == IrOperand::Local(front[j].1);
        assert(phis[j] == front[j]);
    }
}

/// A new value at the start of a block is that of one of its phis, or the same variable has it at
/// the end of each block that leads to it.
proof fn new_value_comes_along(f: FuncV, b: int, c: int, g: usize, l: usize)
    requires
        well_formed(f),
        promotion::promotable(f.blocks).len() > 0,
        0 <= b < f.blocks.len(),
        0 <= c < f.blocks.len(),
        cfg::preds(f.blocks, c).contains(b as usize),
        promotion_meaning::input(f).promoted.contains(g),
        promotion::value_of(start_env(f, c), g) == IrOperand::Local(l),
    ensures
        ({
            let r = promotion_meaning::input(f);
            ||| exists|k: int| 0 <= k < r.phis[c].len() && #[trigger] r.phis[c][k] == (g, l)
            ||| promotion::value_of(
                promotion_rename::env_end(r, promotion::func_idom(f.blocks), b),
                g,
            ) == IrOperand::Local(l)
        }),
{
    let r = promotion_meaning::input(f);
    let idom = promotion::func_idom(f.blocks);
    let k = depth(f, c);
    if promotion_phis::has_phi(r.phis, c, g) {
        phi_counts(promotion_rename::env_above(r, idom, c, k), r.phis[c], g);
        let j = choose|j: int|
            0 <= j < r.phis[c].len() && (#[trigger] r.phis[c][j]).0 == g && promotion::value_of(
                promotion_rename::env_above(r, idom, c, k) + promotion::phi_values(r.phis[c]),
                g,
            ) == IrOperand::Local(r.phis[c][j].1);
        assert(r.phis[c][j] == (g, l));
    } else {
        assert(domtree::reachable(promotion::func_preds(f.blocks), b));
        assert(domtree::reachable(promotion::func_preds(f.blocks), c));
        promotion_meaning::value_comes_along(f, b, c, k, g);
    }
}

/// A value of a variable at the end of a block counts there.
proof fn end_counts(f: FuncV, b: int, g: usize, l: usize)
    requires
        well_formed(f),
        promotion::promotable(f.blocks).len() > 0,
        0 <= b < f.blocks.len(),
        promotion_meaning::input(f).promoted.contains(g),
        promotion::value_of(
            promotion_rename::env_end(
                promotion_meaning::input(f),
                promotion::func_idom(f.blocks),
                b,
            ),
            g,
        ) == IrOperand::Local(l),
    ensures
        counting(f)[b].contains(l),
{
    if l >= promotion::fresh_base(f.blocks) {
        env_ends(f, b);
        assert(translation_blocks::block_ends(f.blocks[b]));
        new_value_from_start(f, b, f.blocks[b].instrs.len() as int, g, l);
        assert(carried(f, b, l));
    }
}

/// A new value of a variable at the start of a block is that of a phi for the variable.
proof fn new_value_is_of_phi(f: FuncV, c: int, g: usize, l: usize)
    requires
        well_formed(f),
        promotion::promotable(f.blocks).len() > 0,
        0 <= c < f.blocks.len(),
        promotion::value_of(start_env(f, c), g) == IrOperand::Local(l),
        l >= promotion::fresh_base(f.blocks),
    ensures
        promotion_meaning::is_phi_of(promotion_meaning::input(f).phis, g, l),
{
    let r = promotion_meaning::input(f);
    let idom = promotion::func_idom(f.blocks);
    promotion_values::setting_is_prepared(f);
    let k = depth(f, c);
    promotion_meaning::start_sourced(r, idom, c, k);
    let env = start_env(f, c);
    promotion_values::value_is_entry(env, g);
    let t = choose|t: int|
        0 <= t < env.len() && #[trigger] env[t] == (g, promotion::value_of(env, g));
    assert(promotion_meaning::entry_sourced(r, idom, c, 0, env[t]));
    if promotion_meaning::used_above(r.blocks, idom, c, 0, l) {
        let (x, w) = choose|x: int, w: int|
            0 <= x < r.blocks.len() && 0 <= w < r.blocks[x].instrs.len()
                && #[trigger] numbering_meaning::uses(r.blocks[x].instrs[w], l) && ((x == c && w < 0)
                || promotion_meaning::strictly_above(idom, x, c));
        assert(r.blocks[x].instrs == f.blocks[x].instrs);
        promotion_values::values_below_base(f.blocks, x, w);
        assert(promotion_values::mentions(f.blocks[x].instrs[w], l));
    }
}

proof fn promoted_ready(f: FuncV, b: int)
    requires
        well_formed(f),
        promotion::promotable(f.blocks).len() > 0,
        0 <= b < f.blocks.len(),
    ensures
        live_lowering::ready(
            promotion_lowering::promoted_code(f)[b].instrs,
            counting(f)[b],
        ),
{
    let instrs = promotion_lowering::promoted_code(f)[b].instrs;
    let n = promotion_meaning::input(f).phis[b].len() as int;
    blocks_are(f, b);
    assert forall|i: int, l: usize|
        0 <= i < instrs.len() && !(instrs[i] is Phi) && #[trigger] numbering_meaning::uses(
            instrs[i],
            l,
        ) implies counting(f)[b].contains(l) || live_lowering::gives(instrs, i, l) by {
        if i < n {
            assert(promotion_rename::phi_filled(
                promotion_meaning::input(f),
                promotion::func_idom(f.blocks),
                promotion_rename::subtree(promotion::func_idom(f.blocks), 0),
                -1,
                0,
                b,
                i,
                instrs[i],
            ));
        } else {
            let q = kept_position(f, b, i);
            let at = thinning::marked(f.blocks[b].instrs.len() as int, stay(f, b));
            let j = at[q];
            made_uses(f, b, j);
            assert(numbering_meaning::uses(made_of(f, b, j), l));
            if l >= promotion::fresh_base(f.blocks) {
                let g = choose|g: usize| #[trigger]
                    promotion_meaning::input(f).promoted.contains(g) && promotion::value_of(
                        env_at(f, b, j),
                        g,
                    ) == IrOperand::Local(l);
                new_value_from_start(f, b, j, g, l);
                assert(carried(f, b, l));
            }
        }
    }
}

proof fn promoted_handed_on(f: FuncV, b: int, c: usize)
    requires
        well_formed(f),
        promotion::promotable(f.blocks).len() > 0,
        0 <= b < f.blocks.len(),
        cfg::succs(promotion_lowering::promoted_code(f), b).contains(c),
    ensures
        live_lowering::handed_on(
            promotion_lowering::promoted_code(f),
            counting(f),
            b,
            c as int,
        ),
{
    let code = promotion_lowering::promoted_code(f);
    let live = counting(f);
    let r = promotion_meaning::input(f);
    promoted_edge(f, b, c);
    blocks_are(f, c as int);
    let target = code[c as int].instrs;
    assert forall|l: usize| #[trigger]
        live[c as int].contains(l) && !live_lowering::has_phi(target, l) implies
        live_lowering::known(code[b].instrs, live[b], l) by {
        if l >= promotion::fresh_base(f.blocks) {
            let g = choose|g: usize| #[trigger]
                r.promoted.contains(g) && promotion::value_of(start_env(f, c as int), g)
                    == IrOperand::Local(l);
            new_value_comes_along(f, b, c as int, g, l);
            if exists|k: int|
                0 <= k < r.phis[c as int].len() && #[trigger] r.phis[c as int][k] == (g, l) {
                let k = choose|k: int|
                    0 <= k < r.phis[c as int].len() && #[trigger] r.phis[c as int][k] == (g, l);
                assert(promotion_rename::phi_filled(
                    r,
                    promotion::func_idom(f.blocks),
                    promotion_rename::subtree(promotion::func_idom(f.blocks), 0),
                    -1,
                    0,
                    c as int,
                    k,
                    target[k],
                ));
                assert(numbering_meaning::defines(target[k], l));
            } else {
                end_counts(f, b, g, l);
            }
        }
    }
    assert forall|i: int, l: usize|
        #![trigger target[i], live_lowering::known(code[b].instrs, live[b], l)]
        0 <= i < target.len() && (target[i] matches InstV::Phi { incoming, .. }
            && meaning::incoming_from(incoming, b as usize) == IrOperand::Local(l)) implies
        live_lowering::known(code[b].instrs, live[b], l) by {
        let e = thinning::incoming_position(target[i]->Phi_incoming, b as usize);
        assert(target[i]->Phi_incoming[e].1 == b as usize);
        assert(lowering_meaning::brings(target[i], b as usize));
        phi_brings(f, c as int, i, b as usize);
        end_counts(f, b, r.phis[c as int][i].0, l);
    }
}

proof fn promoted_out_of_use(f: FuncV, b: usize, d: int, i: int)
    requires
        well_formed(f),
        promotion::promotable(f.blocks).len() > 0,
        b < f.blocks.len(),
        0 <= d < f.blocks.len(),
        0 <= i < promotion_lowering::promoted_code(f)[d].instrs.len(),
        lowering_meaning::brings(promotion_lowering::promoted_code(f)[d].instrs[i], b),
    ensures
        live_lowering::out_of_use(
            promotion_lowering::promoted_code(f),
            counting(f),
            b as int,
            d,
            i,
        ),
{
    let code = promotion_lowering::promoted_code(f);
    let live = counting(f);
    let r = promotion_meaning::input(f);
    let phi = code[d].instrs[i];
    phi_brings(f, d, i, b);
    blocks_are(f, b as int);
    promotion_values::setting_is_prepared(f);
    let g = r.phis[d][i].0;
    assert forall|x: usize| #[trigger]
        numbering_meaning::defines(code[d].instrs[i], x) && !live_lowering::takes_itself(
            phi,
            b,
            x,
        ) implies !numbering_meaning::uses(code[b as int].instrs.last(), x) && forall|c: usize|
        #[trigger] cfg::succs(code, b as int).contains(c) && c != d ==> !live[c as int].contains(
            x,
        ) by {
        assert(x == r.phis[d][i].1 && x >= promotion::fresh_base(f.blocks));
        let a = f.blocks[b as int].instrs;
        assert(translation_blocks::block_ends(f.blocks[b as int]));
        if numbering_meaning::uses(a.last(), x) {
            assert(promotion_values::mentions(f.blocks[b as int].instrs[a.len() - 1], x));
            promotion_values::values_below_base(f.blocks, b as int, a.len() - 1);
        }
        assert forall|c: usize| #[trigger]
            cfg::succs(code, b as int).contains(c) && c != d implies !live[c as int].contains(x) by {
            promoted_edge(f, b as int, c);
            if live[c as int].contains(x) {
                let h = choose|h: usize| #[trigger]
                    r.promoted.contains(h) && promotion::value_of(start_env(f, c as int), h)
                        == IrOperand::Local(x);
                new_value_is_of_phi(f, c as int, h, x);
                let (y, q) = choose|y: int, q: int|
                    0 <= y < r.phis.len() && 0 <= q < r.phis[y].len() && #[trigger] r.phis[y][q]
                        == (h, x);
                assert(r.phis[y][q].1 == r.phis[d][i].1);
                assert(h == g);
                new_value_comes_along(f, b as int, c as int, h, x);
                if exists|k: int|
                    0 <= k < r.phis[c as int].len() && #[trigger] r.phis[c as int][k] == (h, x) {
                    let k = choose|k: int|
                        0 <= k < r.phis[c as int].len() && #[trigger] r.phis[c as int][k] == (h, x);
                    assert(r.phis[c as int][k].1 == r.phis[d][i].1);
                }
            }
        }
    }
}

proof fn promoted_kept_apart(f: FuncV)
    requires
        well_formed(f),
        promotion::promotable(f.blocks).len() > 0,
    ensures
        live_lowering::kept_apart(promotion_lowering::promoted_code(f), counting(f)),
{
    let code = promotion_lowering::promoted_code(f);
    let live = counting(f);
    same_count(f);
    assert forall|b: int| 0 <= b < code.len() implies live_lowering::ready(
        code[b].instrs,
        #[trigger] live[b],
    ) by {
        promoted_ready(f, b);
    }
    assert forall|b: int, c: usize|
        0 <= b < code.len() && #[trigger] cfg::succs(code, b).contains(c) implies
        live_lowering::handed_on(code, live, b, c as int) by {
        promoted_handed_on(f, b, c);
    }
    assert forall|b: usize, d: int, i: int|
        0 <= b < code.len() && 0 <= d < code.len() && 0 <= i < code[d].instrs.len()
            && #[trigger] lowering_meaning::brings(code[d].instrs[i], b) implies
        live_lowering::out_of_use(code, live, b as int, d, i) by {
        promoted_out_of_use(f, b, d, i);
    }
}

// ── The form of promoted functions ───────────────────────────────────────────

/// Blocks without phis are in form where SSA values are defined once and used after that.
pub(crate) proof fn phi_free_in_form(blocks: Seq<BlockV>)
    requires
        blocks.len() > 0,
        translation_blocks::no_phis(blocks),
        numbering_meaning::defined_once(blocks),
        forall|b: int|
            0 <= b < blocks.len() ==> numbering_meaning::used_after((#[trigger] blocks[b]).instrs),
    ensures
        thinning::in_form(blocks),
{
    let live = Seq::new(blocks.len(), |b: int| Set::<usize>::full());
    assert(lowering_meaning::all_ways(blocks)) by {
        assert forall|b: int, i: int|
            0 <= b < blocks.len() && 0 <= i < blocks[b].instrs.len() implies
            lowering_meaning::one_value(#[trigger] blocks[b].instrs[i]) by {}
    }
    assert(live_lowering::kept_apart(blocks, live)) by {
        assert forall|b: int, c: usize|
            0 <= b < blocks.len() && #[trigger] cfg::succs(blocks, b).contains(c) implies
            live_lowering::handed_on(blocks, live, b, c as int) by {}
        assert forall|b: usize, d: int, i: int|
            0 <= b < blocks.len() && 0 <= d < blocks.len() && 0 <= i < blocks[d].instrs.len()
                && #[trigger] lowering_meaning::brings(blocks[d].instrs[i], b) implies
            live_lowering::out_of_use(blocks, live, b as int, d, i) by {
            assert(!(blocks[d].instrs[i] is Phi));
        }
    }
    assert forall|i: int| 0 <= i < blocks[0].instrs.len() implies !(
    #[trigger] blocks[0].instrs[i] is Phi) by {}
}

/// Values that are used where their definitions dominate are used after these in a block.
pub(crate) proof fn used_below_after(blocks: Seq<BlockV>, b: int)
    requires
        promotion_values::used_below(blocks),
        0 <= b < blocks.len(),
    ensures
        numbering_meaning::used_after(blocks[b].instrs),
{
    let instrs = blocks[b].instrs;
    assert forall|i: int, j: int, l: usize|
        0 <= i <= j < instrs.len() && !(instrs[i] is Phi) && #[trigger] numbering_meaning::defines(
            instrs[j],
            l,
        ) implies !(#[trigger] numbering_meaning::uses(instrs[i], l)) by {
        if numbering_meaning::uses(instrs[i], l) {
            assert(numbering_meaning::defines(blocks[b].instrs[j], l));
            assert(numbering_meaning::uses(blocks[b].instrs[i], l));
        }
    }
}

/// A function of several blocks is in the form that passes take once its variables have been
/// promoted: no SSA value was defined twice, all were used where their definitions dominate, and
/// all blocks can be reached.
pub proof fn promotion_leaves_form(f: FuncV)
    requires
        well_formed(f),
        translation_blocks::func_ends(f),
    ensures
        translation_blocks::func_ends(promotion::promoted(f).0),
        thinning::in_form(promotion::promoted(f).0.blocks),
        promotion::promoted(f).0.blocks.len() == f.blocks.len(),
{
    let p = promotion::promoted(f).0;
    let names = promotion::promotable(f.blocks);
    let (phi, simple) = promotion_values::chosen(f);
    if names.len() == 0 || (phi.len() == 0 && simple.len() == 0) {
        assert forall|b: int| 0 <= b < f.blocks.len() implies (#[trigger] p.blocks[b]).instrs
            == f.blocks[b].instrs && p.blocks[b].label == f.blocks[b].label by {}
        assert forall|b: int| 0 <= b < p.blocks.len() implies translation_blocks::block_ends(
            #[trigger] p.blocks[b],
        ) && numbering_meaning::used_after(p.blocks[b].instrs) by {
            assert(translation_blocks::block_ends(f.blocks[b]));
            used_below_after(f.blocks, b);
        }
        assert forall|b: int, i: int, c: int, j: int, l: usize|
            0 <= b < p.blocks.len() && 0 <= i < p.blocks[b].instrs.len() && 0 <= c < p.blocks.len()
                && 0 <= j < p.blocks[c].instrs.len() && #[trigger] numbering_meaning::defines(
                p.blocks[b].instrs[i],
                l,
            ) && #[trigger] numbering_meaning::defines(p.blocks[c].instrs[j], l) implies b == c && i
            == j by {
            assert(numbering_meaning::defines(f.blocks[b].instrs[i], l));
            assert(numbering_meaning::defines(f.blocks[c].instrs[j], l));
        }
        assert forall|b: int, i: int|
            0 <= b < p.blocks.len() && 0 <= i < p.blocks[b].instrs.len() implies !(
        #[trigger] p.blocks[b].instrs[i] is Phi) by {
            assert(!(f.blocks[b].instrs[i] is Phi));
        }
        phi_free_in_form(p.blocks);
        assert forall|a: int, b: int| 0 <= a < b < p.blocks.len() implies (
        #[trigger] p.blocks[a]).label != (#[trigger] p.blocks[b]).label by {
            assert(f.blocks[a].label != f.blocks[b].label);
        }
    } else {
        let code = promotion_lowering::promoted_code(f);
        assert(p.blocks == code);
        same_count(f);
        promoted_defined_once(f);
        promoted_all_ways(f);
        promoted_kept_apart(f);
        assert forall|b: int| 0 <= b < code.len() implies translation_blocks::block_ends(
            #[trigger] code[b],
        ) && numbering_meaning::used_after(code[b].instrs) && code[b].label
            == f.blocks[b].label by {
            blocks_are(f, b);
            promoted_used_after(f, b);
        }
        assert forall|a: int, b: int| 0 <= a < b < code.len() implies (#[trigger] code[a]).label
            != (#[trigger] code[b]).label by {
            assert(f.blocks[a].label != f.blocks[b].label);
        }
        promotion_values::setting_is_prepared(f);
        assert(promotion_meaning::input(f).phis[0].len() == 0);
        assert forall|i: int| 0 <= i < code[0].instrs.len() implies !(
        #[trigger] code[0].instrs[i] is Phi) by {
            if code[0].instrs[i] is Phi {
                promotion_lowering::promoted_phis_are(f, 0, i);
            }
        }
    }
}

// ── Functions of one block ───────────────────────────────────────────────────

/// Whether an instruction of a list defines an SSA value.
spec fn has_value(instrs: Seq<InstV>, l: usize) -> bool {
    exists|i: int| 0 <= i < instrs.len() && #[trigger] numbering_meaning::defines(instrs[i], l)
}

/// Whether a list has no phis, and defines no SSA value twice.
spec fn single(instrs: Seq<InstV>) -> bool {
    &&& forall|i: int| 0 <= i < instrs.len() ==> !(#[trigger] instrs[i] is Phi)
    &&& forall|i: int, j: int, l: usize|
        0 <= i < instrs.len() && 0 <= j < instrs.len() && #[trigger] numbering_meaning::defines(
            instrs[i],
            l,
        ) && #[trigger] numbering_meaning::defines(instrs[j], l) ==> i == j
}

/// What forwarding leaves defines what was defined, and ends nowhere else.
proof fn forwarding_leaves(g: usize, instrs: Seq<InstV>)
    requires
        single(instrs),
    ensures
        single(promotion::forwarded(g, instrs).1),
        forall|l: usize| #[trigger]
            has_value(promotion::forwarded(g, instrs).1, l) ==> has_value(instrs, l),
        (forall|i: int| 0 <= i < instrs.len() ==> !ir::terminator(#[trigger] instrs[i])) ==> (
        forall|i: int|
            0 <= i < promotion::forwarded(g, instrs).1.len() ==> !ir::terminator(
                #[trigger] promotion::forwarded(g, instrs).1[i],
            )),
    decreases instrs.len(),
{
    if instrs.len() > 0 {
        let front = instrs.drop_last();
        let n = instrs.len() - 1;
        assert(single(front)) by {
            assert forall|i: int| 0 <= i < front.len() implies !(#[trigger] front[i] is Phi) by {
                assert(front[i] == instrs[i]);
            }
            assert forall|i: int, j: int, l: usize|
                0 <= i < front.len() && 0 <= j < front.len()
                    && #[trigger] numbering_meaning::defines(front[i], l)
                    && #[trigger] numbering_meaning::defines(front[j], l) implies i == j by {
                assert(numbering_meaning::defines(instrs[i], l));
                assert(numbering_meaning::defines(instrs[j], l));
            }
        }
        forwarding_leaves(g, front);
        let before = promotion::forwarded(g, front).1;
        let out = promotion::forwarded(g, instrs).1;
        let last = instrs[n];
        assert forall|l: usize| #[trigger] has_value(front, l) implies has_value(instrs, l) by {
            let i = choose|i: int|
                0 <= i < front.len() && #[trigger] numbering_meaning::defines(front[i], l);
            assert(numbering_meaning::defines(instrs[i], l));
        }
        if out != before {
            let x = out.last();
            assert(out == before.push(x));
            assert(forall|l: usize|
                numbering_meaning::defines(x, l) <==> #[trigger] numbering_meaning::defines(
                    instrs[n],
                    l,
                ));
            assert forall|i: int| 0 <= i < out.len() implies !(#[trigger] out[i] is Phi) by {
                if i < before.len() {
                    assert(out[i] == before[i]);
                }
            }
            assert forall|l: usize| #[trigger] has_value(out, l) implies has_value(instrs, l) by {
                let i = choose|i: int|
                    0 <= i < out.len() && #[trigger] numbering_meaning::defines(out[i], l);
                if i < before.len() {
                    assert(numbering_meaning::defines(before[i], l));
                    assert(has_value(before, l));
                } else {
                    assert(numbering_meaning::defines(instrs[n], l));
                }
            }
            assert forall|i: int, j: int, l: usize|
                0 <= i < out.len() && 0 <= j < out.len() && #[trigger] numbering_meaning::defines(
                    out[i],
                    l,
                ) && #[trigger] numbering_meaning::defines(out[j], l) implies i == j by {
                if i < before.len() {
                    assert(numbering_meaning::defines(before[i], l));
                    assert(has_value(before, l));
                }
                if j < before.len() {
                    assert(numbering_meaning::defines(before[j], l));
                    assert(has_value(before, l));
                }
                if (i < before.len()) != (j < before.len()) {
                    let k = choose|k: int|
                        0 <= k < front.len() && #[trigger] numbering_meaning::defines(front[k], l);
                    assert(numbering_meaning::defines(instrs[k], l));
                    assert(numbering_meaning::defines(instrs[n], l));
                }
            }
        }
        if forall|i: int| 0 <= i < instrs.len() ==> !ir::terminator(#[trigger] instrs[i]) {
            assert forall|i: int| 0 <= i < front.len() implies !ir::terminator(
                #[trigger] front[i],
            ) by {
                assert(front[i] == instrs[i]);
            }
            assert(!ir::terminator(instrs[n]));
            assert forall|i: int| 0 <= i < out.len() implies !ir::terminator(#[trigger] out[i]) by {
                if i < before.len() {
                    assert(out[i] == before[i]);
                }
            }
        }
    }
}

proof fn forwarding_all_leaves(names: Seq<usize>, k: int, blocks: Seq<BlockV>)
    requires
        blocks.len() == 1,
        translation_blocks::block_ends(blocks[0]),
        single(blocks[0].instrs),
        numbering_meaning::used_after(blocks[0].instrs),
    ensures
        ({
            let new = promotion::forwarded_all(names, k, blocks);
            &&& new.len() == 1
            &&& translation_blocks::block_ends(new[0])
            &&& single(new[0].instrs)
            &&& numbering_meaning::used_after(new[0].instrs)
        }),
    decreases names.len() - k,
{
    if 0 <= k < names.len() {
        let g = names[k];
        let instrs = blocks[0].instrs;
        let next = promotion::forwarded_blocks(g, blocks);
        let out = promotion::forwarded(g, instrs).1;
        assert(next[0].instrs == out);
        let front = instrs.drop_last();
        let n = instrs.len() - 1;
        assert(ir::terminator(instrs[n]));
        assert(single(front)) by {
            assert forall|i: int| 0 <= i < front.len() implies !(#[trigger] front[i] is Phi) by {
                assert(front[i] == instrs[i]);
            }
            assert forall|i: int, j: int, l: usize|
                0 <= i < front.len() && 0 <= j < front.len()
                    && #[trigger] numbering_meaning::defines(front[i], l)
                    && #[trigger] numbering_meaning::defines(front[j], l) implies i == j by {
                assert(numbering_meaning::defines(instrs[i], l));
                assert(numbering_meaning::defines(instrs[j], l));
            }
        }
        assert forall|i: int| 0 <= i < front.len() implies !ir::terminator(#[trigger] front[i]) by {
            assert(!ir::terminator(instrs[i]));
        }
        forwarding_leaves(g, front);
        forwarding_leaves(g, instrs);
        forwarding_meaning::forwarding_uses(g, instrs);
        let before = promotion::forwarded(g, front).1;
        assert(out == before.push(instrs[n]));
        assert(translation_blocks::block_ends(next[0])) by {
            assert forall|i: int| 0 <= i < out.len() implies (ir::terminator(#[trigger] out[i])
                <==> i == out.len() - 1) by {
                if i < before.len() {
                    assert(out[i] == before[i]);
                }
            }
        }
        forwarding_all_leaves(names, k + 1, next);
    }
}

/// A function of one block is in the form that passes take once its variables have been promoted:
/// no SSA value was defined twice or used before its definition.
pub proof fn forwarding_leaves_form(f: FuncV)
    requires
        f.blocks.len() == 1,
        translation_blocks::func_ends(f),
        translation_blocks::no_phis(f.blocks),
        numbering_meaning::defined_once(f.blocks),
        numbering_meaning::used_after(f.blocks[0].instrs),
    ensures
        translation_blocks::func_ends(promotion::promoted(f).0),
        thinning::in_form(promotion::promoted(f).0.blocks),
        promotion::promoted(f).0.blocks.len() == 1,
{
    let p = promotion::promoted(f).0;
    let instrs = f.blocks[0].instrs;
    assert(translation_blocks::block_ends(f.blocks[0]));
    assert(single(instrs)) by {
        assert forall|i: int| 0 <= i < instrs.len() implies !(#[trigger] instrs[i] is Phi) by {
            assert(!(f.blocks[0].instrs[i] is Phi));
        }
        assert forall|i: int, j: int, l: usize|
            0 <= i < instrs.len() && 0 <= j < instrs.len() && #[trigger] numbering_meaning::defines(
                instrs[i],
                l,
            ) && #[trigger] numbering_meaning::defines(instrs[j], l) implies i == j by {
            assert(numbering_meaning::defines(f.blocks[0].instrs[i], l));
            assert(numbering_meaning::defines(f.blocks[0].instrs[j], l));
        }
    }
    forwarding_all_leaves(promotion::promotable(f.blocks), 0, f.blocks);
    assert(single(p.blocks[0].instrs));
    assert forall|b: int, i: int, c: int, j: int, l: usize|
        0 <= b < p.blocks.len() && 0 <= i < p.blocks[b].instrs.len() && 0 <= c < p.blocks.len()
            && 0 <= j < p.blocks[c].instrs.len() && #[trigger] numbering_meaning::defines(
            p.blocks[b].instrs[i],
            l,
        ) && #[trigger] numbering_meaning::defines(p.blocks[c].instrs[j], l) implies b == c && i
        == j by {
        assert(b == 0 && c == 0);
    }
    phi_free_in_form(p.blocks);
}

} // verus!

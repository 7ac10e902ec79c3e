//! Optimization keeps the form of blocks: each ends in a branch or a return, and has no other.

use crate::ir::{self, BlockV, FuncV, InstV, ProgV};
use crate::ir_to_koopa;
use crate::opt::inline::Inline;
use crate::opt::{self, const_fold, dce, gvn, IrFuncPass, StandardPass};
use crate::promotion;
use crate::translation_blocks;
use vstd::prelude::*;

verus! {

/// Whether no instruction of a list is a branch or a return.
spec fn goes_through(instrs: Seq<InstV>) -> bool {
    forall|i: int| 0 <= i < instrs.len() ==> !ir::terminator(#[trigger] instrs[i])
}

/// A block is a list without branches and returns, and one at its end.
proof fn ends_at_last(b: BlockV)
    requires
        translation_blocks::block_ends(b),
    ensures
        goes_through(b.instrs.drop_last()),
        ir::terminator(b.instrs.last()),
        b.instrs == b.instrs.drop_last().push(b.instrs.last()),
{
    let n = b.instrs.len() - 1;
    assert(b.instrs =~= b.instrs.drop_last().push(b.instrs.last()));
    assert(ir::terminator(b.instrs[n]));
    assert forall|i: int| 0 <= i < n implies !ir::terminator(
        #[trigger] b.instrs.drop_last()[i],
    ) by {
        assert(!ir::terminator(b.instrs[i]));
    }
}

/// A list without branches and returns, and one at its end, make a block.
proof fn last_ends(b: BlockV, front: Seq<InstV>, last: InstV)
    requires
        b.instrs == front.push(last),
        goes_through(front),
        ir::terminator(last),
    ensures
        translation_blocks::block_ends(b),
{
    assert forall|i: int| 0 <= i < b.instrs.len() implies (ir::terminator(#[trigger] b.instrs[i])
        <==> i == b.instrs.len() - 1) by {
        if i < front.len() {
            assert(b.instrs[i] == front[i]);
        }
    }
}

/// A function whose blocks become other blocks with the same labels keeps its form.
proof fn blocks_keep_form(f: FuncV, g: FuncV)
    requires
        translation_blocks::func_ends(f),
        g.blocks.len() == f.blocks.len(),
        forall|b: int|
            0 <= b < f.blocks.len() ==> translation_blocks::block_ends(#[trigger] g.blocks[b])
                && g.blocks[b].label == f.blocks[b].label,
    ensures
        translation_blocks::func_ends(g),
{
    assert forall|a: int, b: int| 0 <= a < b < g.blocks.len() implies (
    #[trigger] g.blocks[a]).label != (#[trigger] g.blocks[b]).label by {
        assert(f.blocks[a].label != f.blocks[b].label);
    }
}

proof fn folding_keeps_form(f: FuncV)
    requires
        translation_blocks::func_ends(f),
    ensures
        translation_blocks::func_ends(const_fold::folded_func(f)),
{
    let g = const_fold::folded_func(f);
    assert forall|b: int| 0 <= b < f.blocks.len() implies translation_blocks::block_ends(
        #[trigger] g.blocks[b],
    ) && g.blocks[b].label == f.blocks[b].label by {
        let instrs = f.blocks[b].instrs;
        let new = g.blocks[b].instrs;
        assert(translation_blocks::block_ends(f.blocks[b]));
        assert(new == instrs.map_values(|i: InstV| const_fold::folded(i)));
        assert forall|i: int| 0 <= i < new.len() implies (ir::terminator(#[trigger] new[i]) <==> i
            == new.len() - 1) by {
            assert(new[i] == const_fold::folded(instrs[i]));
            assert(ir::terminator(const_fold::folded(instrs[i])) == ir::terminator(instrs[i]));
        }
    }
    blocks_keep_form(f, g);
}

/// What is left of a list without branches and returns has none.
proof fn filter_goes_through(instrs: Seq<InstV>, p: spec_fn(InstV) -> bool)
    requires
        goes_through(instrs),
    ensures
        goes_through(instrs.filter(p)),
    decreases instrs.len(),
{
    reveal(Seq::filter);
    if instrs.len() > 0 {
        let front = instrs.drop_last();
        assert(goes_through(front)) by {
            assert forall|i: int| 0 <= i < front.len() implies !ir::terminator(
                #[trigger] front[i],
            ) by {
                assert(front[i] == instrs[i]);
            }
        }
        filter_goes_through(front, p);
        assert(!ir::terminator(instrs[instrs.len() - 1]));
        assert forall|i: int| 0 <= i < instrs.filter(p).len() implies !ir::terminator(
            #[trigger] instrs.filter(p)[i],
        ) by {
            if i < front.filter(p).len() {
                assert(instrs.filter(p)[i] == front.filter(p)[i]);
            }
        }
    }
}

proof fn elimination_keeps_form(f: FuncV)
    requires
        translation_blocks::func_ends(f),
    ensures
        translation_blocks::func_ends(dce::live_func(f)),
{
    let g = dce::live_func(f);
    assert forall|b: int| 0 <= b < f.blocks.len() implies translation_blocks::block_ends(
        #[trigger] g.blocks[b],
    ) && g.blocks[b].label == f.blocks[b].label by {
        let instrs = f.blocks[b].instrs;
        let front = instrs.drop_last();
        let last = instrs.last();
        assert(translation_blocks::block_ends(f.blocks[b]));
        ends_at_last(f.blocks[b]);
        assert(dce::needed(f.blocks, last));
        let live = dce::live_insts(f.blocks, front);
        filter_goes_through(front, |i: InstV| dce::needed(f.blocks, i));
        assert(g.blocks[b].instrs == live.push(last)) by {
            reveal(Seq::filter);
        }
        last_ends(g.blocks[b], live, last);
    }
    blocks_keep_form(f, g);
}

/// Numbering a list without branches and returns keeps instructions that are none.
proof fn numbering_goes_through(instrs: Seq<InstV>, keep: Set<usize>)
    requires
        goes_through(instrs),
    ensures
        goes_through(gvn::numbered(instrs, keep).out),
    decreases instrs.len(),
{
    if instrs.len() > 0 {
        let front = instrs.drop_last();
        assert(goes_through(front)) by {
            assert forall|i: int| 0 <= i < front.len() implies !ir::terminator(
                #[trigger] front[i],
            ) by {
                assert(front[i] == instrs[i]);
            }
        }
        numbering_goes_through(front, keep);
        assert(!ir::terminator(instrs[instrs.len() - 1]));
        let before = gvn::numbered(front, keep).out;
        let out = gvn::numbered(instrs, keep).out;
        assert forall|i: int| 0 <= i < out.len() implies !ir::terminator(#[trigger] out[i]) by {
            if i < before.len() {
                assert(out[i] == before[i]);
            }
        }
    }
}

proof fn numbering_keeps_form(f: FuncV)
    requires
        translation_blocks::func_ends(f),
    ensures
        translation_blocks::func_ends(gvn::numbered_func(f)),
{
    let g = gvn::numbered_func(f);
    assert forall|b: int| 0 <= b < f.blocks.len() implies translation_blocks::block_ends(
        #[trigger] g.blocks[b],
    ) && g.blocks[b].label == f.blocks[b].label by {
        let instrs = f.blocks[b].instrs;
        let front = instrs.drop_last();
        let last = instrs.last();
        assert(translation_blocks::block_ends(f.blocks[b]));
        ends_at_last(f.blocks[b]);
        let keep = gvn::needed(f.blocks, b);
        assert(g.blocks[b] == gvn::numbered_block(f.blocks[b], keep));
        if gvn::repeats(f.blocks[b], keep) {
            numbering_goes_through(front, keep);
            let before = gvn::numbered(front, keep).out;
            let r = gvn::numbered(instrs, keep).replacements;
            let new = g.blocks[b].instrs;
            let kept = before.map_values(|i: InstV| opt::substituted(i, r));
            assert(gvn::numbered(instrs, keep).out == before.push(last));
            assert(new =~= kept.push(opt::substituted(last, r)));
            assert(goes_through(kept)) by {
                assert forall|i: int| 0 <= i < kept.len() implies !ir::terminator(
                    #[trigger] kept[i],
                ) by {
                    assert(!ir::terminator(before[i]));
                }
            }
            last_ends(g.blocks[b], kept, opt::substituted(last, r));
        }
    }
    blocks_keep_form(f, g);
}

// ── Rounds ───────────────────────────────────────────────────────────────────

pub(crate) proof fn pass_keeps_form(pass: StandardPass, f: FuncV)
    requires
        translation_blocks::func_ends(f),
    ensures
        translation_blocks::func_ends(pass.applied(f)),
{
    match pass {
        StandardPass::ConstFold => folding_keeps_form(f),
        StandardPass::DeadCodeElim => elimination_keeps_form(f),
        StandardPass::Gvn => numbering_keeps_form(f),
    }
}

proof fn func_round_keeps_form(ps: Seq<StandardPass>, k: int, s: (FuncV, bool))
    requires
        translation_blocks::func_ends(s.0),
    ensures
        translation_blocks::func_ends(opt::func_round(ps, k, s).0),
    decreases ps.len() - k,
{
    if 0 <= k < ps.len() {
        pass_keeps_form(ps[k], s.0);
        func_round_keeps_form(ps, k + 1, (ps[k].applied(s.0), s.1 || ps[k].changes(s.0)));
    }
}

proof fn funcs_round_keeps_form(ps: Seq<StandardPass>, i: int, s: (Seq<FuncV>, bool))
    requires
        translation_blocks::funcs_end(s.0),
    ensures
        translation_blocks::funcs_end(opt::funcs_round(ps, i, s).0),
    decreases s.0.len() - i,
{
    if 0 <= i < s.0.len() {
        assert(translation_blocks::func_ends(s.0[i]));
        func_round_keeps_form(ps, 0, (s.0[i], s.1));
        let r = opt::func_round(ps, 0, (s.0[i], s.1));
        let next = s.0.update(i, r.0);
        assert forall|k: int| 0 <= k < next.len() implies translation_blocks::func_ends(
            #[trigger] next[k],
        ) by {
            if k != i {
                assert(next[k] == s.0[k]);
            }
        }
        funcs_round_keeps_form(ps, i + 1, (next, r.1));
    }
}

/// Rounds of the function passes leave blocks that end in a branch or a return and have no other.
pub proof fn rounds_keep_form(ps: Seq<StandardPass>, p: ProgV, n: nat)
    requires
        translation_blocks::funcs_end(p.funcs),
    ensures
        translation_blocks::funcs_end(opt::rounds(ps, Seq::<Inline>::empty(), p, n).funcs),
    decreases n,
{
    if n > 0 {
        let none = Seq::<Inline>::empty();
        assert(opt::program_round(none, 0, (p, false)) == (p, false));
        funcs_round_keeps_form(ps, 0, (p.funcs, false));
        let r = opt::round(ps, none, p);
        if r.1 {
            rounds_keep_form(ps, r.0, (n - 1) as nat);
        }
    }
}

// ── Phi lowering ─────────────────────────────────────────────────────────────

/// The first branch or return of a block is where copies go.
proof fn split_at_last(instrs: Seq<InstV>)
    requires
        goes_through(instrs),
    ensures
        promotion::split_at(instrs) == instrs.len(),
    decreases instrs.len(),
{
    if instrs.len() > 0 {
        let front = instrs.drop_last();
        assert(goes_through(front)) by {
            assert forall|i: int| 0 <= i < front.len() implies !ir::terminator(
                #[trigger] front[i],
            ) by {
                assert(front[i] == instrs[i]);
            }
        }
        split_at_last(front);
        assert(!ir::terminator(instrs[instrs.len() - 1]));
    }
}

/// Lowering the phis of a function leaves blocks that end in a branch or a return and have no
/// other.
pub proof fn lowering_keeps_form(f: FuncV)
    requires
        translation_blocks::func_ends(f),
    ensures
        translation_blocks::func_ends(promotion::lowered(f)),
{
    let g = promotion::lowered(f);
    assert forall|b: int| 0 <= b < f.blocks.len() implies translation_blocks::block_ends(
        #[trigger] g.blocks[b],
    ) && g.blocks[b].label == f.blocks[b].label by {
        let instrs = f.blocks[b].instrs;
        let front = instrs.drop_last();
        let last = instrs.last();
        let copies = promotion::copies_at(f.blocks, b);
        assert(translation_blocks::block_ends(f.blocks[b]));
        ends_at_last(f.blocks[b]);
        split_at_last(front);
        let k = promotion::split_at(instrs);
        assert(k == front.len());
        assert(instrs.take(k) =~= front);
        assert(instrs.skip(k) =~= seq![last]);
        let first = ir_to_koopa::without_phis(front);
        filter_goes_through(front, |i: InstV| !(i is Phi));
        assert(ir_to_koopa::without_phis(seq![last]) =~= seq![last]) by {
            reveal(Seq::filter);
            assert(seq![last].drop_last() =~= Seq::empty());
            assert(ir_to_koopa::without_phis(Seq::empty()) =~= Seq::empty());
        }
        promotion::copies_at_are_arith(f.blocks, b);
        let all = first + copies;
        assert(goes_through(all)) by {
            assert forall|i: int| 0 <= i < all.len() implies !ir::terminator(#[trigger] all[i]) by {
                if i < first.len() {
                    assert(all[i] == first[i]);
                } else {
                    assert(all[i] == copies[i - first.len()]);
                }
            }
        }
        assert(g.blocks[b].instrs =~= all.push(last));
        last_ends(g.blocks[b], all, last);
    }
    blocks_keep_form(f, g);
}

} // verus!

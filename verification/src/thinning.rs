//! Passes that take instructions out of blocks, and what they leave as it was: the form in which
//! phis can be lowered.

use crate::cfg;
use crate::ir::{self, BlockV, FuncV, InstV, IrOperand};
use crate::links;
use crate::live_lowering;
use crate::lowering_meaning;
use crate::meaning;
use crate::numbering_meaning;
use crate::opt::{self, const_fold, dce, gvn};
use vstd::prelude::*;

verus! {

// ── Blocks with fewer instructions ───────────────────────────────────────────

/// Whether an instruction is what is left of another: it defines the same, and takes the same or
/// what an instruction before it defines. Phis stay as they are.
pub open spec fn left_of(new: Seq<InstV>, j: int, i: InstV) -> bool {
    &&& forall|l: usize| #[trigger]
        numbering_meaning::defines(new[j], l) <==> numbering_meaning::defines(i, l)
    &&& (new[j] is Phi || i is Phi) ==> new[j] == i
    &&& forall|l: usize| #[trigger]
        numbering_meaning::uses(new[j], l) ==> numbering_meaning::uses(i, l)
            || live_lowering::gives(new, j, l)
}

/// Whether a list is what is left of another, where `at` says which instructions stay.
pub open spec fn list_left(old: Seq<InstV>, new: Seq<InstV>, at: Seq<int>, gone: Set<usize>) -> bool {
    &&& at.len() == new.len()
    &&& new.len() > 0
    &&& old.len() > 0
    &&& at.last() == old.len() - 1
    &&& forall|j: int|
        0 <= j < at.len() ==> 0 <= #[trigger] at[j] < old.len() && left_of(new, j, old[at[j]])
    &&& forall|j: int, k: int| 0 <= j < k < at.len() ==> #[trigger] at[j] < #[trigger] at[k]
    &&& forall|i: int, l: usize|
        0 <= i < old.len() && #[trigger] numbering_meaning::defines(old[i], l) && !gone.contains(l)
            ==> at.contains(i)
}

/// Whether blocks are what is left of others; what is gone is not used any more.
pub open spec fn thinned(
    old: Seq<BlockV>,
    new: Seq<BlockV>,
    at: Seq<Seq<int>>,
    gone: Set<usize>,
) -> bool {
    &&& new.len() == old.len()
    &&& at.len() == old.len()
    &&& forall|b: int|
        0 <= b < old.len() ==> (#[trigger] new[b]).label == old[b].label && list_left(
            old[b].instrs,
            new[b].instrs,
            at[b],
            gone,
        ) && forall|label: usize| #[trigger]
            cfg::exits(new[b]).contains(label) ==> cfg::exits(old[b]).contains(label)
    &&& forall|b: int, j: int, l: usize|
        0 <= b < new.len() && 0 <= j < new[b].instrs.len() && #[trigger] numbering_meaning::uses(
            new[b].instrs[j],
            l,
        ) ==> !gone.contains(l)
}

/// Fewer exits lead to fewer blocks.
pub(crate) proof fn fewer_succs(old: Seq<BlockV>, new: Seq<BlockV>, b: int, c: usize)
    requires
        new.len() == old.len(),
        0 <= b < old.len(),
        forall|k: int| 0 <= k < old.len() ==> (#[trigger] new[k]).label == old[k].label,
        forall|label: usize| #[trigger]
            cfg::exits(new[b]).contains(label) ==> cfg::exits(old[b]).contains(label),
        cfg::succs(new, b).contains(c),
    ensures
        cfg::succs(old, b).contains(c),
{
    let labels = cfg::exits(new[b]);
    let k = position_has_label(new, labels, c);
    crate::pass_meaning::same_positions(new, old, labels[k]);
    assert(labels.contains(labels[k]));
    let all = cfg::exits(old[b]);
    let i = choose|i: int| 0 <= i < all.len() && all[i] == labels[k];
    crate::promotion_meaning::position_found(old, all, i);
}

/// A position among those of labels is that of one of them.
pub(crate) proof fn position_has_label(blocks: Seq<BlockV>, labels: Seq<usize>, c: usize) -> (k: int)
    requires
        cfg::positions(blocks, labels).contains(c),
    ensures
        0 <= k < labels.len(),
        cfg::label_position(blocks, labels[k]) == Some(c),
    decreases labels.len(),
{
    let all = cfg::positions(blocks, labels);
    let i = choose|i: int| 0 <= i < all.len() && all[i] == c;
    if labels.len() == 0 {
        0
    } else {
        let front = labels.drop_last();
        let before = cfg::positions(blocks, front);
        if before.contains(c) {
            position_has_label(blocks, front, c)
        } else {
            if i < before.len() {
                assert(before[i] == all[i]);
            }
            labels.len() - 1
        }
    }
}

/// A block leads to blocks that are there.
pub(crate) proof fn succs_in_range(blocks: Seq<BlockV>, b: int, c: usize)
    requires
        blocks.len() <= usize::MAX,
        cfg::succs(blocks, b).contains(c),
    ensures
        c < blocks.len(),
{
    cfg::positions_in_range(blocks, cfg::exits(blocks[b]));
}

/// The SSA values that count and are not gone.
spec fn live_left(live: Seq<Set<usize>>, gone: Set<usize>) -> Seq<Set<usize>> {
    live.map_values(|s: Set<usize>| Set::new(|l: usize| s.contains(l) && !gone.contains(l)))
}

/// An instruction that stays is found before those that come after it.
proof fn kept_before(
    old: Seq<InstV>,
    new: Seq<InstV>,
    at: Seq<int>,
    gone: Set<usize>,
    i: int,
    l: usize,
) -> (j: int)
    requires
        list_left(old, new, at, gone),
        0 <= i < old.len(),
        numbering_meaning::defines(old[i], l),
        !gone.contains(l),
    ensures
        0 <= j < new.len(),
        at[j] == i,
        numbering_meaning::defines(new[j], l),
        (new[j] is Phi) == (old[i] is Phi),
{
    assert(at.contains(i));
    let j = choose|j: int| 0 <= j < at.len() && at[j] == i;
    assert(left_of(new, j, old[at[j]]));
    j
}

/// Thinned blocks define no SSA value twice if the blocks do not.
proof fn thinned_defined_once(old: Seq<BlockV>, new: Seq<BlockV>, at: Seq<Seq<int>>, gone: Set<usize>)
    requires
        thinned(old, new, at, gone),
        numbering_meaning::defined_once(old),
    ensures
        numbering_meaning::defined_once(new),
{
    assert forall|b: int, i: int, c: int, j: int, l: usize|
        0 <= b < new.len() && 0 <= i < new[b].instrs.len() && 0 <= c < new.len() && 0 <= j
            < new[c].instrs.len() && #[trigger] numbering_meaning::defines(new[b].instrs[i], l)
            && #[trigger] numbering_meaning::defines(new[c].instrs[j], l) implies b == c && i
        == j by {
        assert(new[b].label == old[b].label && new[c].label == old[c].label);
        assert(left_of(new[b].instrs, i, old[b].instrs[at[b][i]]));
        assert(left_of(new[c].instrs, j, old[c].instrs[at[c][j]]));
        assert(numbering_meaning::defines(old[b].instrs[at[b][i]], l));
        assert(numbering_meaning::defines(old[c].instrs[at[c][j]], l));
        assert(b == c && at[b][i] == at[b][j]);
        if i < j {
            assert(at[b][i] < at[b][j]);
        } else if j < i {
            assert(at[b][j] < at[b][i]);
        }
    }
}

/// Thinned blocks use SSA values after their definitions if the blocks do.
proof fn thinned_used_after(
    old: Seq<BlockV>,
    new: Seq<BlockV>,
    at: Seq<Seq<int>>,
    gone: Set<usize>,
    b: int,
)
    requires
        thinned(old, new, at, gone),
        numbering_meaning::defined_once(old),
        0 <= b < old.len(),
        numbering_meaning::used_after(old[b].instrs),
    ensures
        numbering_meaning::used_after(new[b].instrs),
{
    thinned_defined_once(old, new, at, gone);
    let instrs = new[b].instrs;
    assert(new[b].label == old[b].label);
    assert forall|i: int, j: int, l: usize|
        0 <= i <= j < instrs.len() && !(instrs[i] is Phi) && #[trigger] numbering_meaning::defines(
            instrs[j],
            l,
        ) implies !(#[trigger] numbering_meaning::uses(instrs[i], l)) by {
        if numbering_meaning::uses(instrs[i], l) {
            assert(left_of(instrs, i, old[b].instrs[at[b][i]]));
            assert(left_of(instrs, j, old[b].instrs[at[b][j]]));
            if live_lowering::gives(instrs, i, l) {
                let k = choose|k: int| 0 <= k < i && #[trigger] live_lowering::makes(instrs[k], l);
                assert(numbering_meaning::defines(new[b].instrs[k], l));
                assert(numbering_meaning::defines(new[b].instrs[j], l));
            } else {
                if i < j {
                    assert(at[b][i] < at[b][j]);
                }
                assert(numbering_meaning::defines(old[b].instrs[at[b][j]], l));
                assert(numbering_meaning::uses(old[b].instrs[at[b][i]], l));
            }
        }
    }
}

/// Phis of thinned blocks have their values if those of the blocks do.
proof fn thinned_all_ways(old: Seq<BlockV>, new: Seq<BlockV>, at: Seq<Seq<int>>, gone: Set<usize>)
    requires
        thinned(old, new, at, gone),
        lowering_meaning::all_ways(old),
    ensures
        lowering_meaning::all_ways(new),
{
    assert forall|b: int, i: int, p: usize|
        0 <= b < new.len() && 0 <= i < new[b].instrs.len() && p < new.len() && new[b].instrs[i] is Phi
            && cfg::succs(new, p as int).contains(
            b as usize,
        ) implies #[trigger] lowering_meaning::brings(new[b].instrs[i], p) by {
        assert(new[b].label == old[b].label && new[p as int].label == old[p as int].label);
        assert(left_of(new[b].instrs, i, old[b].instrs[at[b][i]]));
        fewer_succs(old, new, p as int, b as usize);
        assert(lowering_meaning::brings(old[b].instrs[at[b][i]], p));
    }
    assert forall|b: int, i: int| 0 <= b < new.len() && 0 <= i < new[b].instrs.len() implies
        lowering_meaning::one_value(#[trigger] new[b].instrs[i]) by {
        assert(new[b].label == old[b].label);
        assert(left_of(new[b].instrs, i, old[b].instrs[at[b][i]]));
        assert(lowering_meaning::one_value(old[b].instrs[at[b][i]]));
    }
}

/// What counts at the end of a block and is not gone counts at the end of the thinned block.
proof fn thinned_known(
    old: Seq<InstV>,
    new: Seq<InstV>,
    at: Seq<int>,
    gone: Set<usize>,
    live: Set<usize>,
    less: Set<usize>,
    l: usize,
)
    requires
        list_left(old, new, at, gone),
        live_lowering::known(old, live, l),
        !gone.contains(l),
        less == Set::new(|l: usize| live.contains(l) && !gone.contains(l)),
    ensures
        live_lowering::known(new, less, l),
{
    if !live.contains(l) {
        let i = choose|i: int| 0 <= i < old.len() && #[trigger] live_lowering::makes(old[i], l);
        let j = kept_before(old, new, at, gone, i, l);
        assert(live_lowering::makes(new[j], l));
    }
}

/// Copies for the phis of thinned blocks overwrite nothing that counts elsewhere if those of the
/// blocks do not.
proof fn thinned_kept_apart(
    old: Seq<BlockV>,
    new: Seq<BlockV>,
    at: Seq<Seq<int>>,
    gone: Set<usize>,
    live: Seq<Set<usize>>,
)
    requires
        old.len() <= usize::MAX,
        thinned(old, new, at, gone),
        numbering_meaning::defined_once(old),
        live_lowering::kept_apart(old, live),
    ensures
        live_lowering::kept_apart(new, live_left(live, gone)),
{
    let less = live_left(live, gone);
    thinned_defined_once(old, new, at, gone);
    assert forall|b: int| 0 <= b < new.len() implies live_lowering::ready(
        new[b].instrs,
        #[trigger] less[b],
    ) by {
        assert(new[b].label == old[b].label);
        assert(live_lowering::ready(old[b].instrs, live[b]));
        let instrs = new[b].instrs;
        assert forall|i: int, l: usize|
            0 <= i < instrs.len() && !(instrs[i] is Phi) && #[trigger] numbering_meaning::uses(
                instrs[i],
                l,
            ) implies less[b].contains(l) || live_lowering::gives(instrs, i, l) by {
            assert(numbering_meaning::uses(new[b].instrs[i], l));
            assert(left_of(instrs, i, old[b].instrs[at[b][i]]));
            if !live_lowering::gives(instrs, i, l) && !live[b].contains(l) {
                assert(numbering_meaning::uses(old[b].instrs[at[b][i]], l));
                assert(live_lowering::gives(old[b].instrs, at[b][i], l));
                let k = choose|k: int|
                    0 <= k < at[b][i] && #[trigger] live_lowering::makes(old[b].instrs[k], l);
                let j = kept_before(old[b].instrs, instrs, at[b], gone, k, l);
                if i <= j {
                    assert(i == j || at[b][i] < at[b][j]);
                }
                assert(live_lowering::makes(instrs[j], l));
            }
        }
    }
    assert forall|b: int, c: usize|
        0 <= b < new.len() && #[trigger] cfg::succs(new, b).contains(c) implies
        live_lowering::handed_on(new, less, b, c as int) by {
        assert(new[b].label == old[b].label);
        fewer_succs(old, new, b, c);
        succs_in_range(old, b, c);
        assert(new[c as int].label == old[c as int].label);
        assert(live_lowering::handed_on(old, live, b, c as int));
        let target = new[c as int].instrs;
        assert forall|l: usize| #[trigger]
            less[c as int].contains(l) && !live_lowering::has_phi(target, l) implies
            live_lowering::known(new[b].instrs, less[b], l) by {
            if live_lowering::has_phi(old[c as int].instrs, l) {
                let i = choose|i: int|
                    0 <= i < old[c as int].instrs.len() && old[c as int].instrs[i] is Phi
                        && #[trigger] numbering_meaning::defines(old[c as int].instrs[i], l);
                let j = kept_before(old[c as int].instrs, target, at[c as int], gone, i, l);
                assert(numbering_meaning::defines(target[j], l));
            }
            assert(live[c as int].contains(l));
            thinned_known(old[b].instrs, new[b].instrs, at[b], gone, live[b], less[b], l);
        }
        assert forall|i: int, l: usize|
            #![trigger target[i], live_lowering::known(new[b].instrs, less[b], l)]
            0 <= i < target.len() && (target[i] matches InstV::Phi { incoming, .. }
                && meaning::incoming_from(incoming, b as usize) == IrOperand::Local(
                l,
            )) implies live_lowering::known(new[b].instrs, less[b], l) by {
            assert(left_of(target, i, old[c as int].instrs[at[c as int][i]]));
            let phi = old[c as int].instrs[at[c as int][i]];
            assert(live_lowering::known(old[b].instrs, live[b], l));
            incoming_is_used(phi, b as usize, l);
            assert(numbering_meaning::uses(new[c as int].instrs[i], l));
            thinned_known(old[b].instrs, new[b].instrs, at[b], gone, live[b], less[b], l);
        }
    }
    assert forall|b: usize, d: int, i: int|
        0 <= b < new.len() && 0 <= d < new.len() && 0 <= i < new[d].instrs.len()
            && #[trigger] lowering_meaning::brings(new[d].instrs[i], b) implies
        live_lowering::out_of_use(new, less, b as int, d, i) by {
        assert(new[d].label == old[d].label && new[b as int].label == old[b as int].label);
        let phi = old[d].instrs[at[d][i]];
        assert(left_of(new[d].instrs, i, phi));
        assert(lowering_meaning::brings(old[d].instrs[at[d][i]], b));
        assert(live_lowering::out_of_use(old, live, b as int, d, at[d][i]));
        let list = new[b as int].instrs;
        let n = list.len() - 1;
        assert(left_of(list, n, old[b as int].instrs[at[b as int][n]]));
        assert forall|x: usize| #[trigger]
            numbering_meaning::defines(new[d].instrs[i], x) && !live_lowering::takes_itself(
                phi,
                b,
                x,
            ) implies !numbering_meaning::uses(list.last(), x) && forall|c: usize| #[trigger]
            cfg::succs(new, b as int).contains(c) && c != d ==> !less[c as int].contains(x) by {
            assert(numbering_meaning::defines(old[d].instrs[at[d][i]], x));
            if numbering_meaning::uses(list[n], x) {
                assert(live_lowering::gives(list, n, x));
                let k = choose|k: int| 0 <= k < n && #[trigger] live_lowering::makes(list[k], x);
                assert(numbering_meaning::defines(new[b as int].instrs[k], x));
            }
            assert forall|c: usize| #[trigger]
                cfg::succs(new, b as int).contains(c) && c != d implies !less[c as int].contains(
                x,
            ) by {
                fewer_succs(old, new, b as int, c);
                succs_in_range(old, b as int, c);
            }
        }
    }
}

/// A value that comes in to a phi is used by it.
proof fn incoming_is_used(phi: InstV, b: usize, l: usize)
    requires
        phi is Phi,
        meaning::incoming_from(phi->Phi_incoming, b) == IrOperand::Local(l),
    ensures
        numbering_meaning::uses(phi, l),
{
    let e = incoming_position(phi->Phi_incoming, b);
    assert(ir::inst_operands(phi)[e] == IrOperand::Local(l));
}

pub(crate) proof fn incoming_position(incoming: Seq<(IrOperand, usize)>, b: usize) -> (e: int)
    requires
        meaning::incoming_from(incoming, b) is Local,
    ensures
        0 <= e < incoming.len(),
        incoming[e] == (meaning::incoming_from(incoming, b), b),
    decreases incoming.len(),
{
    if incoming.last().1 == b {
        incoming.len() - 1
    } else {
        incoming_position(incoming.drop_last(), b)
    }
}

// ── The form that passes leave ───────────────────────────────────────────────

/// Whether the blocks of a function are in a form that passes leave: SSA values are defined once
/// and used after that, phis have a value from each block that leads to theirs, the entry has
/// none, and copies for phis overwrite nothing that counts on another way.
pub open spec fn in_form(blocks: Seq<BlockV>) -> bool {
    &&& numbering_meaning::defined_once(blocks)
    &&& forall|b: int|
        0 <= b < blocks.len() ==> numbering_meaning::used_after((#[trigger] blocks[b]).instrs)
    &&& lowering_meaning::all_ways(blocks)
    &&& blocks.len() > 0
    &&& forall|i: int|
        0 <= i < blocks[0].instrs.len() ==> !(#[trigger] blocks[0].instrs[i] is Phi)
    &&& exists|live: Seq<Set<usize>>| live_lowering::kept_apart(blocks, live)
}

/// Thinned blocks are in form if the blocks are.
proof fn thinned_in_form(old: Seq<BlockV>, new: Seq<BlockV>, at: Seq<Seq<int>>, gone: Set<usize>)
    requires
        old.len() <= usize::MAX,
        thinned(old, new, at, gone),
        in_form(old),
    ensures
        in_form(new),
{
    let live = choose|live: Seq<Set<usize>>| live_lowering::kept_apart(old, live);
    thinned_kept_apart(old, new, at, gone, live);
    thinned_defined_once(old, new, at, gone);
    thinned_all_ways(old, new, at, gone);
    assert forall|b: int| 0 <= b < new.len() implies numbering_meaning::used_after(
        (#[trigger] new[b]).instrs,
    ) by {
        assert(numbering_meaning::used_after(old[b].instrs));
        thinned_used_after(old, new, at, gone, b);
    }
    assert forall|i: int| 0 <= i < new[0].instrs.len() implies !(
    #[trigger] new[0].instrs[i] is Phi) by {
        assert(new[0].label == old[0].label);
        assert(left_of(new[0].instrs, i, old[0].instrs[at[0][i]]));
    }
}

/// The positions below `n` that are marked.
pub open spec fn marked(n: int, flag: spec_fn(int) -> bool) -> Seq<int>
    decreases n,
{
    if n <= 0 {
        Seq::empty()
    } else if flag(n - 1) {
        marked(n - 1, flag).push(n - 1)
    } else {
        marked(n - 1, flag)
    }
}

pub(crate) proof fn marked_positions(n: int, flag: spec_fn(int) -> bool)
    ensures
        forall|j: int|
            0 <= j < marked(n, flag).len() ==> 0 <= #[trigger] marked(n, flag)[j] < n && flag(
                marked(n, flag)[j],
            ),
        forall|j: int, k: int|
            0 <= j < k < marked(n, flag).len() ==> #[trigger] marked(n, flag)[j]
                < #[trigger] marked(n, flag)[k],
        forall|i: int| 0 <= i < n && flag(i) ==> #[trigger] marked(n, flag).contains(i),
    decreases n,
{
    if n > 0 {
        marked_positions(n - 1, flag);
        let before = marked(n - 1, flag);
        let all = marked(n, flag);
        assert forall|i: int| 0 <= i < n && flag(i) implies #[trigger] all.contains(i) by {
            if i < n - 1 {
                assert(before.contains(i));
                let k = choose|k: int| 0 <= k < before.len() && before[k] == i;
                assert(all[k] == i);
            } else {
                assert(all[all.len() - 1] == i);
            }
        }
    }
}

// ── Folding ──────────────────────────────────────────────────────────────────

/// Folded blocks are in form if the blocks are.
pub proof fn folding_keeps_form(f: FuncV)
    requires
        f.blocks.len() <= usize::MAX,
        forall|b: int| 0 <= b < f.blocks.len() ==> (#[trigger] f.blocks[b]).instrs.len() > 0,
        in_form(f.blocks),
    ensures
        in_form(const_fold::folded_func(f).blocks),
{
    let old = f.blocks;
    let new = const_fold::folded_func(f).blocks;
    let at = old.map_values(|b: BlockV| Seq::new(b.instrs.len(), |j: int| j));
    let gone = Set::<usize>::empty();
    assert forall|b: int| 0 <= b < old.len() implies (#[trigger] new[b]).label == old[b].label
        && list_left(old[b].instrs, new[b].instrs, at[b], gone) && forall|label: usize| #[trigger]
        cfg::exits(new[b]).contains(label) ==> cfg::exits(old[b]).contains(label) by {
        let a = old[b].instrs;
        let c = new[b].instrs;
        assert forall|j: int| 0 <= j < at[b].len() implies 0 <= #[trigger] at[b][j] < a.len()
            && left_of(c, j, a[at[b][j]]) by {
            folded_is_left(c, j, a[j]);
        }
        assert forall|i: int, l: usize|
            0 <= i < a.len() && #[trigger] numbering_meaning::defines(a[i], l) && !gone.contains(
                l,
            ) implies at[b].contains(i) by {
            assert(at[b][i] == i);
        }
        assert(c.last() == const_fold::folded(a.last()));
        assert forall|label: usize| #[trigger] cfg::exits(new[b]).contains(label) implies cfg::exits(
            old[b],
        ).contains(label) by {
            if let InstV::Br { then_bb, else_bb, .. } = a.last() {
                assert(cfg::exits(old[b])[0] == then_bb && cfg::exits(old[b])[1] == else_bb);
                let e = cfg::exits(new[b]);
                let k = choose|k: int| 0 <= k < e.len() && e[k] == label;
                assert(label == then_bb || label == else_bb);
            }
        }
    }
    thinned_in_form(old, new, at, gone);
}

proof fn folded_is_left(new: Seq<InstV>, j: int, i: InstV)
    requires
        new[j] == const_fold::folded(i),
    ensures
        left_of(new, j, i),
{
    let ops = ir::inst_operands(i);
    let h = new[j];
    assert forall|l: usize| #[trigger] numbering_meaning::uses(h, l) implies numbering_meaning::uses(
        i,
        l,
    ) by {
        let all = ir::inst_operands(h);
        let k = choose|k: int| 0 <= k < all.len() && all[k] == IrOperand::Local(l);
        match i {
            InstV::Arith { lhs, rhs, .. } => {
                assert(ops[0] == lhs && ops[1] == rhs);
                assert(all[k] == lhs || all[k] == rhs);
            },
            InstV::Br { cond, .. } => {
                assert(ops[0] == cond);
            },
            _ => {},
        }
    }
}

// ── Elimination ──────────────────────────────────────────────────────────────

/// The needed instructions of a list are those at the marked positions.
proof fn live_at_marked(blocks: Seq<BlockV>, instrs: Seq<InstV>, n: int)
    requires
        0 <= n <= instrs.len(),
    ensures
        ({
            let at = marked(n, |k: int| dce::needed(blocks, instrs[k]));
            dce::live_insts(blocks, instrs.take(n)) =~= Seq::new(at.len(), |j: int| instrs[at[j]])
        }),
    decreases n,
{
    reveal(Seq::filter);
    if n > 0 {
        live_at_marked(blocks, instrs, n - 1);
        assert(instrs.take(n).drop_last() =~= instrs.take(n - 1));
        assert(instrs.take(n).last() == instrs[n - 1]);
    }
}

/// Blocks without dead code are in form if the blocks are.
pub proof fn elimination_keeps_form(f: FuncV)
    requires
        f.blocks.len() <= usize::MAX,
        forall|b: int|
            0 <= b < f.blocks.len() ==> (#[trigger] f.blocks[b]).instrs.len() > 0 && ir::terminator(
                f.blocks[b].instrs.last(),
            ),
        in_form(f.blocks),
    ensures
        in_form(dce::live_func(f).blocks),
{
    let old = f.blocks;
    let new = dce::live_func(f).blocks;
    let at = old.map_values(
        |b: BlockV| marked(b.instrs.len() as int, |k: int| dce::needed(old, b.instrs[k])),
    );
    let gone = Set::new(|l: usize| !dce::index_used(old, l));
    assert forall|b: int| 0 <= b < old.len() implies (#[trigger] new[b]).label == old[b].label
        && list_left(old[b].instrs, new[b].instrs, at[b], gone) && forall|label: usize| #[trigger]
        cfg::exits(new[b]).contains(label) ==> cfg::exits(old[b]).contains(label) by {
        let a = old[b].instrs;
        let c = new[b].instrs;
        let n = a.len() as int;
        let flag = |k: int| dce::needed(old, a[k]);
        marked_positions(n, flag);
        live_at_marked(old, a, n);
        assert(a.take(n) =~= a);
        assert(at[b] == marked(n, flag));
        assert(c =~= Seq::new(at[b].len(), |j: int| a[at[b][j]]));
        assert(flag(n - 1));
        assert(at[b].contains(n - 1));
        let k = choose|k: int| 0 <= k < at[b].len() && at[b][k] == n - 1;
        if k < at[b].len() - 1 {
            assert(at[b][k] < at[b][at[b].len() - 1]);
        }
        assert(at[b].last() == n - 1);
        assert forall|i: int, l: usize|
            0 <= i < a.len() && #[trigger] numbering_meaning::defines(a[i], l) && !gone.contains(
                l,
            ) implies at[b].contains(i) by {
            assert(flag(i));
        }
    }
    assert forall|b: int, j: int, l: usize|
        0 <= b < new.len() && 0 <= j < new[b].instrs.len() && #[trigger] numbering_meaning::uses(
            new[b].instrs[j],
            l,
        ) implies !gone.contains(l) by {
        assert(new[b].label == old[b].label);
        let i = at[b][j];
        assert(left_of(new[b].instrs, j, old[b].instrs[i]));
        let flag = |k: int| dce::needed(old, old[b].instrs[k]);
        live_at_marked(old, old[b].instrs, old[b].instrs.len() as int);
        assert(old[b].instrs.take(old[b].instrs.len() as int) =~= old[b].instrs);
        assert(at[b] == marked(old[b].instrs.len() as int, flag));
        assert(new[b].instrs[j] == old[b].instrs[i]);
        assert(dce::inst_uses(old[b].instrs[i], IrOperand::Local(l)));
        assert(dce::insts_use(old[b].instrs, IrOperand::Local(l)));
        assert(dce::func_uses(old, IrOperand::Local(l)));
    }
    thinned_in_form(old, new, at, gone);
}

// ── Numbering ────────────────────────────────────────────────────────────────

/// The state of numbering after the first instructions of a list.
#[verifier::opaque]
spec fn after(instrs: Seq<InstV>, keep: Set<usize>, k: int) -> gvn::NumberingV {
    gvn::numbered(instrs.take(k), keep)
}

proof fn after_step(instrs: Seq<InstV>, keep: Set<usize>, k: int)
    requires
        0 <= k < instrs.len(),
    ensures
        after(instrs, keep, k + 1) == gvn::step(after(instrs, keep, k), instrs[k], keep),
{
    reveal(after);
    assert(instrs.take(k + 1).drop_last() =~= instrs.take(k));
    assert(instrs.take(k + 1).last() == instrs[k]);
}

proof fn after_ends(instrs: Seq<InstV>, keep: Set<usize>)
    ensures
        after(instrs, keep, 0) == gvn::fresh(),
        after(instrs, keep, instrs.len() as int) == gvn::numbered(instrs, keep),
{
    reveal(after);
    assert(instrs.take(0) =~= Seq::empty());
    assert(instrs.take(instrs.len() as int) =~= instrs);
}

proof fn after_settled(instrs: Seq<InstV>, keep: Set<usize>, k: int, l: usize)
    requires
        0 <= k <= instrs.len(),
        forall|j: int|
            k <= j < instrs.len() ==> !(#[trigger] numbering_meaning::defines(instrs[j], l)),
    ensures
        ({
            let n = instrs.len() as int;
            let r = after(instrs, keep, n).replacements;
            let p = after(instrs, keep, k).replacements;
            r.contains_key(l) == p.contains_key(l) && r[l] == p[l]
        }),
{
    reveal(after);
    numbering_meaning::settled(instrs, k, l, keep);
    assert(instrs.take(instrs.len() as int) =~= instrs);
}

/// Whether numbering keeps an instruction of a list.
#[verifier::opaque]
spec fn stays(instrs: Seq<InstV>, keep: Set<usize>, k: int) -> bool {
    after(instrs, keep, k + 1).out.len() > after(instrs, keep, k).out.len()
}

/// Marks the instructions of a list that numbering keeps.
spec fn keeps(instrs: Seq<InstV>, keep: Set<usize>) -> spec_fn(int) -> bool {
    |k: int| stays(instrs, keep, k)
}

/// What numbering keeps of an instruction.
spec fn kept_as(instrs: Seq<InstV>, keep: Set<usize>, k: int) -> InstV {
    if gvn::key_of(instrs[k]) is Some {
        opt::substituted(instrs[k], after(instrs, keep, k).replacements)
    } else {
        instrs[k]
    }
}

/// Whether an instruction that is kept defines an SSA value.
spec fn made(s: gvn::NumberingV, d: usize) -> bool {
    live_lowering::gives(s.out, s.out.len() as int, d)
}

/// What numbering has done with the first instructions of a list.
spec fn numbered_well(instrs: Seq<InstV>, keep: Set<usize>, n: int) -> bool {
    let s = after(instrs, keep, n);
    let at = marked(n, keeps(instrs, keep));
    &&& s.out =~= Seq::new(at.len(), |j: int| kept_as(instrs, keep, at[j]))
    &&& forall|e: int| 0 <= e < s.table.len() ==> made(s, (#[trigger] s.table[e]).1)
    &&& forall|x: usize| #[trigger]
        s.replacements.contains_key(x) ==> s.replacements[x] is Local && made(
            s,
            s.replacements[x]->Local_0,
        ) && exists|q: int|
            0 <= q < n && !stays(instrs, keep, q) && #[trigger] numbering_meaning::defines(
                instrs[q],
                x,
            )
    &&& forall|q: int, x: usize|
        0 <= q < n && !stays(instrs, keep, q) && #[trigger] numbering_meaning::defines(
            instrs[q],
            x,
        ) ==> s.replacements.contains_key(x)
}

proof fn numbering_goes_well(instrs: Seq<InstV>, keep: Set<usize>, n: int)
    requires
        0 <= n <= instrs.len(),
    ensures
        numbered_well(instrs, keep, n),
    decreases n,
{
    let s = after(instrs, keep, n);
    let flag = keeps(instrs, keep);
    if n > 0 {
        numbering_goes_well(instrs, keep, n - 1);
        let before = after(instrs, keep, n - 1);
        let i = instrs[n - 1];
        after_step(instrs, keep, n - 1);
        assert(s == gvn::step(before, i, keep));
        assert(stays(instrs, keep, n - 1) == (s.out.len() > before.out.len())) by {
            reveal(stays);
        }
        let canonical = opt::substituted(i, before.replacements);
        assert(ir::inst_dest(canonical) == ir::inst_dest(i));
        assert forall|d: usize| made(before, d) implies #[trigger] made(s, d) by {
            let j = choose|j: int|
                0 <= j < before.out.len() && #[trigger] live_lowering::makes(before.out[j], d);
            assert(live_lowering::makes(s.out[j], d));
        }
        if let (Some(_), Some(dest)) = (gvn::key_of(i), ir::inst_dest(i)) {
            let key = gvn::key_of(canonical)->0;
            match gvn::holder(before.table, key) {
                Some(d) => {
                    numbering_meaning::holder_is_entry(before.table, key);
                    let e = choose|e: int|
                        0 <= e < before.table.len() && #[trigger] before.table[e] == (key, d);
                    assert(made(before, before.table[e].1));
                },
                None => {
                    assert(s.out[s.out.len() - 1] == canonical);
                    assert(live_lowering::makes(s.out[s.out.len() - 1], dest));
                    assert(made(s, dest));
                },
            }
        }
        assert forall|e: int| 0 <= e < s.table.len() implies made(s, (#[trigger] s.table[e]).1) by {
            if e < before.table.len() {
                assert(s.table[e] == before.table[e]);
                assert(made(before, before.table[e].1));
            }
        }
        assert forall|x: usize| #[trigger] s.replacements.contains_key(x) implies s.replacements[x] is Local
            && made(s, s.replacements[x]->Local_0) && exists|q: int|
            0 <= q < n && !flag(q) && #[trigger] numbering_meaning::defines(instrs[q], x) by {
            if before.replacements.contains_key(x) && !(ir::inst_dest(i) == Some(x) && s.out.len()
                == before.out.len()) {
                assert(s.replacements[x] == before.replacements[x]);
                assert(made(before, before.replacements[x]->Local_0));
                let q = choose|q: int|
                    0 <= q < n - 1 && !flag(q) && #[trigger] numbering_meaning::defines(
                        instrs[q],
                        x,
                    );
                assert(numbering_meaning::defines(instrs[q], x));
            } else {
                assert(numbering_meaning::defines(instrs[n - 1], x));
                assert(!flag(n - 1));
            }
        }
        assert forall|q: int, x: usize|
            0 <= q < n && !flag(q) && #[trigger] numbering_meaning::defines(
                instrs[q],
                x,
            ) implies s.replacements.contains_key(x) by {
            if q < n - 1 {
                assert(before.replacements.contains_key(x));
            } else {
                assert(!flag(n - 1));
            }
        }
    } else {
        after_ends(instrs, keep);
    }
}

/// The marked positions below a marked one are those before it.
proof fn marked_before(n: int, flag: spec_fn(int) -> bool, j: int)
    requires
        0 <= j < marked(n, flag).len(),
    ensures
        marked(marked(n, flag)[j], flag) == marked(n, flag).take(j),
    decreases n,
{
    if n > 0 {
        let before = marked(n - 1, flag);
        let all = marked(n, flag);
        if j < before.len() {
            marked_before(n - 1, flag, j);
            assert(all[j] == before[j]);
            assert(all.take(j) =~= before.take(j));
        } else {
            assert(all[j] == n - 1);
            assert(all.take(j) =~= before);
        }
    }
}

/// What stands for an operand of an instruction that is kept: itself, or what an instruction
/// before it defines, for good.
proof fn kept_operand(blocks: Seq<BlockV>, b: int, j: int, x: usize)
    requires
        0 <= b < blocks.len(),
        numbering_meaning::defined_once(blocks),
        numbering_meaning::used_after(blocks[b].instrs),
        ({
            let a = blocks[b].instrs;
            let at = marked(a.len() as int, keeps(a, gvn::needed(blocks, b)));
            &&& 0 <= j < at.len()
            &&& !(a[at[j]] is Phi)
            &&& numbering_meaning::uses(a[at[j]], x)
        }),
    ensures
        ({
            let a = blocks[b].instrs;
            let keep = gvn::needed(blocks, b);
            let at = marked(a.len() as int, keeps(a, keep));
            let s = after(a, keep, a.len() as int);
            let r = s.replacements;
            let p = after(a, keep, at[j]).replacements;
            &&& p.contains_key(x) == r.contains_key(x)
            &&& r.contains_key(x) ==> {
                &&& r[x] == p[x]
                &&& r[x] is Local
                &&& !r.contains_key(r[x]->Local_0)
                &&& live_lowering::gives(s.out, j, r[x]->Local_0)
            }
        }),
{
    let a = blocks[b].instrs;
    let keep = gvn::needed(blocks, b);
    let n = a.len() as int;
    let flag = keeps(a, keep);
    let at = marked(n, flag);
    marked_positions(n, flag);
    let k = at[j];
    let s = after(a, keep, a.len() as int);
    let p = after(a, keep, k);
    numbering_goes_well(a, keep, n);
    numbering_goes_well(a, keep, k);
    marked_before(n, flag, j);
    assert forall|i: int| k <= i < a.len() implies !(#[trigger] numbering_meaning::defines(
        a[i],
        x,
    )) by {
        if numbering_meaning::defines(a[i], x) {
            assert(!numbering_meaning::uses(a[k], x));
        }
    }
    after_settled(a, keep, k, x);
    if s.replacements.contains_key(x) {
        assert(p.replacements.contains_key(x));
        let d = p.replacements[x]->Local_0;
        assert(made(p, d));
        let y = choose|y: int| 0 <= y < p.out.len() && #[trigger] live_lowering::makes(p.out[y], d);
        assert(p.out.len() == j);
        assert(at.take(j)[y] == at[y]);
        assert(s.out[y] == kept_as(a, keep, at[y]));
        assert(p.out[y] == s.out[y]);
        assert(live_lowering::makes(s.out[y], d));
        if s.replacements.contains_key(d) {
            let q = choose|q: int|
                0 <= q < n && !flag(q) && #[trigger] numbering_meaning::defines(a[q], d);
            assert(numbering_meaning::defines(kept_as(a, keep, at[y]), d));
            assert(numbering_meaning::defines(a[at[y]], d));
            assert(numbering_meaning::defines(blocks[b].instrs[q], d));
            assert(numbering_meaning::defines(blocks[b].instrs[at[y]], d));
            assert(q == at[y]);
        }
    }
}

/// What a kept instruction of a numbered block uses.
proof fn kept_uses(blocks: Seq<BlockV>, b: int, j: int, l: usize)
    requires
        0 <= b < blocks.len(),
        numbering_meaning::defined_once(blocks),
        numbering_meaning::used_after(blocks[b].instrs),
        ({
            let a = blocks[b].instrs;
            let keep = gvn::needed(blocks, b);
            let s = after(a, keep, a.len() as int);
            &&& 0 <= j < s.out.len()
            &&& !(s.out[j] is Phi)
            &&& numbering_meaning::uses(opt::substituted(s.out[j], s.replacements), l)
        }),
    ensures
        ({
            let a = blocks[b].instrs;
            let keep = gvn::needed(blocks, b);
            let at = marked(a.len() as int, keeps(a, keep));
            let s = after(a, keep, a.len() as int);
            &&& at.len() == s.out.len()
            &&& !s.replacements.contains_key(l)
            &&& numbering_meaning::uses(a[at[j]], l) || live_lowering::gives(s.out, j, l)
        }),
{
    let a = blocks[b].instrs;
    let keep = gvn::needed(blocks, b);
    let n = a.len() as int;
    let at = marked(n, keeps(a, keep));
    let s = after(a, keep, a.len() as int);
    let r = s.replacements;
    numbering_goes_well(a, keep, n);
    marked_positions(n, keeps(a, keep));
    let i = a[at[j]];
    let p = after(a, keep, at[j]).replacements;
    assert(s.out[j] == kept_as(a, keep, at[j]));
    let h = opt::substituted(s.out[j], r);
    let all = ir::inst_operands(h);
    let mid = ir::inst_operands(s.out[j]);
    let ops = ir::inst_operands(i);
    let k = choose|k: int| 0 <= k < all.len() && all[k] == IrOperand::Local(l);
    assert(all.len() == ops.len() && mid.len() == ops.len());
    assert(all[k] == opt::replaced(mid[k], r));
    assert(mid[k] == ops[k] || mid[k] == opt::replaced(ops[k], p));
    if let IrOperand::Local(x) = ops[k] {
        assert(ops.contains(IrOperand::Local(x)));
        assert(numbering_meaning::uses(i, x));
        kept_operand(blocks, b, j, x);
    }
}

/// Blocks without repeated expressions are in form if the blocks are.
pub proof fn numbering_keeps_form(f: FuncV)
    requires
        f.blocks.len() <= usize::MAX,
        forall|b: int|
            0 <= b < f.blocks.len() ==> (#[trigger] f.blocks[b]).instrs.len() > 0 && ir::terminator(
                f.blocks[b].instrs.last(),
            ),
        in_form(f.blocks),
    ensures
        in_form(gvn::numbered_func(f).blocks),
{
    let old = f.blocks;
    let new = gvn::numbered_func(f).blocks;
    let at = Seq::new(
        old.len(),
        |b: int| marked(
            old[b].instrs.len() as int,
            keeps(old[b].instrs, gvn::needed(old, b)),
        ),
    );
    let gone = Set::new(|l: usize| numbering_meaning::left_out(old, l));
    numbering_meaning::left_out_used_inside(old);
    assert forall|b: int| 0 <= b < old.len() implies (#[trigger] new[b]).label == old[b].label
        && list_left(old[b].instrs, new[b].instrs, at[b], gone) && forall|label: usize| #[trigger]
        cfg::exits(new[b]).contains(label) ==> cfg::exits(old[b]).contains(label) by {
        let a = old[b].instrs;
        let keep = gvn::needed(old, b);
        let s = after(a, keep, a.len() as int);
        block_after(old[b], keep);
        assert forall|l: usize| #[trigger] s.replacements.contains_key(l) implies gone.contains(
            l,
        ) by {
            after_ends(a, keep);
            assert(numbering_meaning::left_out_of(old, b, l));
        }
        assert(numbering_meaning::used_after(old[b].instrs));
        numbered_list_left(old, b, gone, new[b].instrs);
        same_exits(old[b], new[b]);
    }
    assert forall|b: int, j: int, l: usize|
        0 <= b < new.len() && 0 <= j < new[b].instrs.len() && #[trigger] numbering_meaning::uses(
            new[b].instrs[j],
            l,
        ) implies !gone.contains(l) by {
        let keep = gvn::needed(old, b);
        let a = old[b].instrs;
        let s = after(a, keep, a.len() as int);
        assert(numbering_meaning::used_after(old[b].instrs));
        numbering_meaning::numbered_block_insts(old[b], keep);
        after_ends(a, keep);
        assert(new[b].instrs[j] == opt::substituted(s.out[j], s.replacements));
        numbering_goes_well(a, keep, a.len() as int);
        marked_positions(a.len() as int, keeps(a, keep));
        let i = at[b][j];
        assert(s.out[j] == kept_as(a, keep, i));
        if numbering_meaning::left_out(old, l) {
            let c = choose|c: int|
                0 <= c < old.len() && #[trigger] numbering_meaning::left_out_of(old, c, l);
            if s.out[j] is Phi {
                assert(numbering_meaning::uses(old[b].instrs[i], l));
            } else {
                kept_uses(old, b, j, l);
                if numbering_meaning::uses(a[i], l) {
                    assert(numbering_meaning::uses(old[b].instrs[i], l));
                    assert(b == c);
                } else {
                    let y = choose|y: int| 0 <= y < j && #[trigger] live_lowering::makes(s.out[y], l);
                    assert(s.out[y] == kept_as(a, keep, at[b][y]));
                    assert(numbering_meaning::defines(old[b].instrs[at[b][y]], l));
                    numbering_meaning::left_out_is_defined(
                        old[c].instrs,
                        l,
                        gvn::needed(old, c),
                    );
                    let q = choose|q: int|
                        0 <= q < old[c].instrs.len() && #[trigger] numbering_meaning::defines(
                            old[c].instrs[q],
                            l,
                        );
                    assert(b == c);
                }
            }
        }
    }
    thinned_in_form(old, new, at, gone);
}

/// Blocks that go to the same labels have the same exits.
proof fn same_exits(a: BlockV, b: BlockV)
    requires
        a.instrs.len() > 0,
        b.instrs.len() > 0,
        forall|t: usize| #[trigger]
            links::goes_to(b.instrs.last(), t) <==> links::goes_to(a.instrs.last(), t),
    ensures
        forall|label: usize| #[trigger]
            cfg::exits(b).contains(label) ==> cfg::exits(a).contains(label),
{
    assert forall|label: usize| #[trigger] cfg::exits(b).contains(label) implies cfg::exits(
        a,
    ).contains(label) by {
        let e = cfg::exits(b);
        let k = choose|k: int| 0 <= k < e.len() && e[k] == label;
        assert(links::goes_to(b.instrs.last(), label));
        match a.instrs.last() {
            InstV::Br { then_bb, else_bb, .. } => {
                assert(cfg::exits(a)[0] == then_bb && cfg::exits(a)[1] == else_bb);
            },
            InstV::Jump { target } => {
                assert(cfg::exits(a)[0] == target);
            },
            _ => {},
        }
    }
}

/// The instructions of a numbered block.
proof fn block_after(b: BlockV, keep: Set<usize>)
    ensures
        ({
            let s = after(b.instrs, keep, b.instrs.len() as int);
            &&& gvn::numbered_block(b, keep).instrs == numbering_meaning::kept_insts(
                s.out,
                s.replacements,
            )
            &&& gvn::numbered_block(b, keep).label == b.label
        }),
{
    numbering_meaning::numbered_block_insts(b, keep);
    after_ends(b.instrs, keep);
}

/// An instruction of a numbered block is what is left of one of the block.
proof fn numbered_left_at(old: Seq<BlockV>, b: int, j: int, c: Seq<InstV>)
    requires
        0 <= b < old.len(),
        numbering_meaning::defined_once(old),
        numbering_meaning::used_after(old[b].instrs),
        ({
            let a = old[b].instrs;
            let s = after(a, gvn::needed(old, b), a.len() as int);
            &&& c == numbering_meaning::kept_insts(s.out, s.replacements)
            &&& 0 <= j < c.len()
        }),
    ensures
        left_of(
            c,
            j,
            old[b].instrs[marked(
                old[b].instrs.len() as int,
                keeps(old[b].instrs, gvn::needed(old, b)),
            )[j]],
        ),
{
    let a = old[b].instrs;
    let keep = gvn::needed(old, b);
    let at = marked(a.len() as int, keeps(a, keep));
    let s = after(a, keep, a.len() as int);
    numbering_goes_well(a, keep, a.len() as int);
    let i = a[at[j]];
    assert(s.out[j] == kept_as(a, keep, at[j]));
    assert(c[j] == opt::substituted(s.out[j], s.replacements));
    assert forall|l: usize| #[trigger] numbering_meaning::uses(c[j], l) implies
        numbering_meaning::uses(i, l) || live_lowering::gives(c, j, l) by {
        if !(s.out[j] is Phi) {
            kept_uses(old, b, j, l);
            if !numbering_meaning::uses(i, l) {
                let y = choose|y: int| 0 <= y < j && #[trigger] live_lowering::makes(s.out[y], l);
                assert(c[y] == opt::substituted(s.out[y], s.replacements));
                assert(live_lowering::makes(c[y], l));
            }
        }
    }
}

proof fn numbered_list_left(old: Seq<BlockV>, b: int, gone: Set<usize>, c: Seq<InstV>)
    requires
        0 <= b < old.len(),
        old[b].instrs.len() > 0,
        ir::terminator(old[b].instrs.last()),
        numbering_meaning::defined_once(old),
        numbering_meaning::used_after(old[b].instrs),
        ({
            let a = old[b].instrs;
            let s = after(a, gvn::needed(old, b), a.len() as int);
            &&& c == numbering_meaning::kept_insts(s.out, s.replacements)
            &&& forall|l: usize| #[trigger] s.replacements.contains_key(l) ==> gone.contains(l)
        }),
    ensures
        ({
            let keep = gvn::needed(old, b);
            let at = marked(old[b].instrs.len() as int, keeps(old[b].instrs, keep));
            list_left(old[b].instrs, c, at, gone)
        }),
        ir::terminator(c.last()),
        forall|t: usize| #[trigger]
            links::goes_to(c.last(), t) <==> links::goes_to(old[b].instrs.last(), t),
{
    let keep = gvn::needed(old, b);
    let a = old[b].instrs;
    let n = a.len() as int;
    let flag = keeps(a, keep);
    let at = marked(n, flag);
    let s = after(a, keep, n);
    numbering_goes_well(a, keep, n);
    marked_positions(n, flag);
    assert(c.len() == at.len());
    last_stays(a, keep);
    assert(flag(n - 1));
    assert(at.contains(n - 1));
    let k = choose|k: int| 0 <= k < at.len() && at[k] == n - 1;
    if k < at.len() - 1 {
        assert(at[k] < at[at.len() - 1]);
    }
    assert(at.last() == n - 1);
    assert forall|j: int| 0 <= j < at.len() implies 0 <= #[trigger] at[j] < a.len() && left_of(
        c,
        j,
        a[at[j]],
    ) by {
        numbered_left_at(old, b, j, c);
    }
    assert forall|i: int, l: usize|
        0 <= i < a.len() && #[trigger] numbering_meaning::defines(a[i], l) && !gone.contains(
            l,
        ) implies at.contains(i) by {
        if !stays(a, keep, i) {
            assert(s.replacements.contains_key(l));
        } else {
            assert(flag(i));
        }
    }
    assert(c.last() == opt::substituted(s.out[at.len() - 1], s.replacements));
    assert(s.out[at.len() - 1] == kept_as(a, keep, n - 1));
}

/// The end of a block is kept.
proof fn last_stays(a: Seq<InstV>, keep: Set<usize>)
    requires
        a.len() > 0,
        ir::terminator(a.last()),
    ensures
        stays(a, keep, a.len() - 1),
{
    after_step(a, keep, a.len() - 1);
    reveal(stays);
}

} // verus!

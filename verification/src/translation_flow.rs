//! What a syntax tree is translated to computes every SSA value on all ways to where it is used.

use crate::ast::{
    BinaryOp, BlockItemV, ConstDefV, DeclV, ExprV, FuncDefV, FuncParamV, GlobalItemV, StmtV,
    UnaryOp, VarDefV,
};
use crate::cfg;
use crate::domtree;
use crate::error::ErrorView;
use crate::ir::{self, BlockV, FuncV, InstV, IrArithOp, IrCmpOp, IrOperand, IrType, ProgV};
use crate::ir_builder;
use crate::numbering_meaning::{self, defines, uses};
use crate::promoted_form;
use crate::promotion;
use crate::promotion_meaning;
use crate::promotion_values;
use crate::text;
use crate::thinning;
use crate::translate::{self, GenV, SymV};
use crate::translation_blocks::{
    self, current_is_last, emit_tidy, labels_tidy, later, open_at, same_blocks, start_tidy, started,
    tidy,
};
use crate::translation_links;
use crate::translation_meaning::{go_on, starts};
use vstd::prelude::*;

verus! {

// ── The control flow so far ──────────────────────────────────────────────────

/// Whether a block ends in a branch to a label.
pub open spec fn edge(blocks: Seq<BlockV>, x: int, t: usize) -> bool {
    0 <= x < blocks.len() && cfg::exits(blocks[x]).contains(t)
}

/// Whether an instruction goes to a label.
spec fn aims(i: InstV, t: usize) -> bool {
    match i {
        InstV::Br { then_bb, else_bb, .. } => t == then_bb || t == else_bb,
        InstV::Jump { target } => t == target,
        _ => false,
    }
}

/// Whether an instruction defines an SSA value.
spec fn defined_at(blocks: Seq<BlockV>, b: int, j: int, l: usize) -> bool {
    0 <= b < blocks.len() && 0 <= j < blocks[b].instrs.len() && defines(blocks[b].instrs[j], l)
}

/// The blocks after `b` up to `c` are entered only from `b` and from one another, and nothing goes
/// to them any more.
#[verifier::opaque]
spec fn reaches(blocks: Seq<BlockV>, live: Set<usize>, b: int, c: int) -> bool {
    &&& 0 <= b <= c < blocks.len()
    &&& forall|k: int| b < k <= c ==> !live.contains((#[trigger] blocks[k]).label)
    &&& forall|k: int, x: int|
        b < k <= c && #[trigger] edge(blocks, x, (#[trigger] blocks[k]).label) ==> b <= x < c
}

/// An SSA value that is used has been computed on every way there.
spec fn served(blocks: Seq<BlockV>, live: Set<usize>, c: int, i: int, l: usize) -> bool {
    exists|b: int, j: int| #[trigger]
        defined_at(blocks, b, j, l) && ((b == c && j < i) || (b < c && reaches(blocks, live, b, c)))
}

/// A block that an earlier one leads to.
spec fn led(blocks: Seq<BlockV>, k: int) -> bool {
    exists|x: int| x < k && #[trigger] edge(blocks, x, blocks[k].label)
}

/// The index that the first variable of the function has.
spec fn floor(g: GenV) -> int {
    g.b.global_counter - g.b.names.global_names.len()
}

/// All SSA values that are used have been computed, all blocks can be reached, and the variables
/// that are to be allocated are those of the function. The labels in `live` are those of blocks that
/// may still be gone to.
#[verifier::opaque]
spec fn sure(g: GenV, live: Set<usize>) -> bool {
    let blocks = g.b.blocks;
    &&& floor(g) >= 0
    &&& forall|k: int| 0 <= k < g.b.pending.len() ==> (#[trigger] g.b.pending[k]).0 >= floor(g)
    &&& forall|b: int, i: int|
        0 <= b < blocks.len() && 0 <= i < blocks[b].instrs.len()
            ==> !(#[trigger] blocks[b].instrs[i] is Alloc)
    &&& forall|t: usize| #[trigger] live.contains(t) ==> t < g.b.block_counter
    &&& forall|x: int, t: usize| #[trigger] edge(blocks, x, t) ==> t < g.b.block_counter
    &&& forall|k: int| 0 < k < blocks.len() ==> #[trigger] led(blocks, k)
    &&& forall|c: int, i: int, l: usize|
        0 <= c < blocks.len() && 0 <= i < blocks[c].instrs.len() && #[trigger] uses(
            blocks[c].instrs[i],
            l,
        ) ==> served(blocks, live, c, i, l)
}

/// An SSA value that has been computed on every way to the end of the last block.
spec fn computed(blocks: Seq<BlockV>, live: Set<usize>, l: usize) -> bool {
    exists|b: int, j: int| #[trigger]
        defined_at(blocks, b, j, l) && reaches(blocks, live, b, blocks.len() - 1)
}

/// An operand whose value has been computed on every way to the current block.
#[verifier::opaque]
spec fn available(g: GenV, live: Set<usize>, v: IrOperand) -> bool {
    match v {
        IrOperand::Local(l) => computed(g.b.blocks, live, l),
        _ => true,
    }
}

/// Whether a branch goes to a label.
spec fn awaited(g: GenV, t: usize) -> bool {
    exists|x: int| #[trigger] edge(g.b.blocks, x, t)
}

/// A state goes on from another by blocks that are entered only from the current one and from one
/// another.
#[verifier::opaque]
spec fn onward(g: GenV, h: GenV) -> bool {
    let p = g.b.blocks.len() - 1;
    let q = h.b.blocks.len() - 1;
    &&& go_on(h.b.blocks, g.b.blocks)
    &&& h.loops == g.loops
    &&& floor(h) == floor(g)
    &&& g.b.block_counter <= h.b.block_counter
    &&& forall|x: int, t: usize| #[trigger]
        edge(h.b.blocks, x, t) && !edge(g.b.blocks, x, t) ==> t >= g.b.block_counter && x >= p
    &&& forall|k: int| p < k <= q ==> (#[trigger] h.b.blocks[k]).label >= g.b.block_counter
    &&& forall|k: int, x: int|
        p < k <= q && #[trigger] edge(h.b.blocks, x, (#[trigger] h.b.blocks[k]).label) ==> p <= x
            < q
}

/// No branch goes away.
spec fn kept(g: GenV, h: GenV) -> bool {
    forall|x: int, t: usize| #[trigger]
        edge(g.b.blocks, x, t) ==> edge(h.b.blocks, x, t)
}

/// A state where instructions can go on and SSA values have been computed where they are used.
spec fn fine(g: GenV, live: Set<usize>) -> bool {
    open_at(g) && sure(g, live)
}

/// A step leads on to a state with a value that has been computed.
spec fn gives(g: GenV, live: Set<usize>, r: translate::Step<IrOperand>) -> bool {
    match r {
        Ok((h, v)) => fine(h, live) && later(g, h) && onward(g, h) && available(h, live, v),
        Err(_) => true,
    }
}

/// A state further on in a translation.
spec fn further(g: GenV, live: Set<usize>, h: GenV) -> bool {
    tidy(h) && sure(h, live) && later(g, h) && kept(g, h) && h.loops == g.loops && floor(h) == floor(
        g,
    )
}

/// A step leads to a state further on.
spec fn leads(g: GenV, live: Set<usize>, r: Result<GenV, ErrorView>) -> bool {
    match r {
        Ok(h) => further(g, live, h),
        Err(_) => true,
    }
}

/// A step leads to a state further on, where instructions can go on.
spec fn stays(g: GenV, live: Set<usize>, r: Result<GenV, ErrorView>) -> bool {
    match r {
        Ok(h) => further(g, live, h) && open_at(h),
        Err(_) => true,
    }
}

// ── Single steps ─────────────────────────────────────────────────────────────

/// An instruction that is added adds the branches that it makes.
proof fn emit_edges(g: GenV, i: InstV)
    requires
        open_at(g),
    ensures
        ({
            let h = g.emit(i);
            let n = g.b.blocks.len() - 1;
            &&& n >= 0
            &&& h.b.blocks == g.b.blocks.update(n, ir_builder::block_push(g.b.blocks[n], i))
            &&& h.b.block_counter == g.b.block_counter
            &&& h.b.pending == g.b.pending
            &&& h.loops == g.loops
            &&& floor(h) == floor(g)
            &&& forall|x: int, t: usize| #[trigger]
                edge(h.b.blocks, x, t) <==> edge(g.b.blocks, x, t) || (x == n && aims(i, t))
        }),
{
    current_is_last(g);
    reveal(tidy);
    let h = g.emit(i);
    let n = g.b.blocks.len() - 1;
    assert(h.b.blocks =~= g.b.blocks.update(n, ir_builder::block_push(g.b.blocks[n], i)));
    assert(h.b.blocks[n].instrs.last() == i);
    assert forall|t: usize| #[trigger] cfg::exits(h.b.blocks[n]).contains(t) <==> aims(i, t) by {
        let all = cfg::exits(h.b.blocks[n]);
        if aims(i, t) {
            assert(all[0] == t || all[1] == t);
        }
    }
    assert forall|t: usize| !#[trigger] cfg::exits(g.b.blocks[n]).contains(t) by {
        let instrs = g.b.blocks[n].instrs;
        if instrs.len() > 0 {
            assert(!ir::terminator(instrs[instrs.len() - 1]));
        }
    }
}

/// A block with a label has been started.
proof fn here(g: GenV, k: int)
    requires
        0 <= k < g.b.blocks.len(),
    ensures
        started(g, g.b.blocks[k].label),
{
    reveal(started);
}

proof fn reaches_emit(g: GenV, live: Set<usize>, i: InstV, b: int, c: int)
    requires
        open_at(g),
        reaches(g.b.blocks, live, b, c),
        forall|t: usize| #[trigger] aims(i, t) ==> live.contains(t) || !started(g, t),
    ensures
        reaches(g.emit(i).b.blocks, live, b, c),
{
    reveal(reaches);
    emit_edges(g, i);
    let h = g.emit(i);
    assert forall|k: int| b < k <= c implies !live.contains((#[trigger] h.b.blocks[k]).label) by {
        assert(h.b.blocks[k].label == g.b.blocks[k].label);
    }
    assert forall|k: int, x: int|
        b < k <= c && #[trigger] edge(h.b.blocks, x, (#[trigger] h.b.blocks[k]).label) implies b
        <= x < c by {
        assert(h.b.blocks[k].label == g.b.blocks[k].label);
        here(g, k);
        assert(edge(g.b.blocks, x, g.b.blocks[k].label));
    }
}

/// An instruction that uses what has been computed, and goes to where may be gone to.
proof fn emit_fine(g: GenV, live: Set<usize>, i: InstV)
    requires
        fine(g, live),
        !(i is Phi),
        !(i is Alloc),
        forall|t: usize| #[trigger]
            aims(i, t) ==> t < g.b.block_counter && (live.contains(t) || !started(g, t)),
        forall|l: usize| #[trigger] uses(i, l) ==> available(g, live, IrOperand::Local(l)),
    ensures
        further(g, live, g.emit(i)),
        g.emit(i).b.terminated == ir::terminator(i),
        g.emit(i).b.block_counter == g.b.block_counter,
{
    emit_tidy(g, i);
    emit_edges(g, i);
    let h = g.emit(i);
    let n = g.b.blocks.len() - 1;
    reveal(sure);
    assert forall|b: int, k: int|
        0 <= b < h.b.blocks.len() && 0 <= k < h.b.blocks[b].instrs.len() implies !(
    #[trigger] h.b.blocks[b].instrs[k] is Alloc) by {
        if b == n && k == g.b.blocks[n].instrs.len() {
            assert(h.b.blocks[b].instrs[k] == i);
        } else {
            assert(h.b.blocks[b].instrs[k] == g.b.blocks[b].instrs[k]);
        }
    }
    assert forall|k: int| 0 < k < h.b.blocks.len() implies #[trigger] led(h.b.blocks, k) by {
        assert(led(g.b.blocks, k));
        let x = choose|x: int| x < k && #[trigger] edge(g.b.blocks, x, g.b.blocks[k].label);
        assert(h.b.blocks[k].label == g.b.blocks[k].label);
        assert(edge(h.b.blocks, x, h.b.blocks[k].label));
    }
    assert forall|b: int, j: int, l: usize| defined_at(g.b.blocks, b, j, l) implies #[trigger]
        defined_at(h.b.blocks, b, j, l) by {
        assert(h.b.blocks[b].instrs[j] == g.b.blocks[b].instrs[j]);
    }
    assert forall|c: int, k: int, l: usize|
        0 <= c < h.b.blocks.len() && 0 <= k < h.b.blocks[c].instrs.len() && #[trigger] uses(
            h.b.blocks[c].instrs[k],
            l,
        ) implies served(h.b.blocks, live, c, k, l) by {
        if c == n && k == g.b.blocks[n].instrs.len() {
            assert(uses(i, l));
            reveal(available);
            assert(computed(g.b.blocks, live, l));
            let (b, j) = choose|b: int, j: int| #[trigger]
                defined_at(g.b.blocks, b, j, l) && reaches(g.b.blocks, live, b, n);
            reaches_emit(g, live, i, b, n);
            assert(b <= n) by {
                reveal(reaches);
            }
            assert(defined_at(h.b.blocks, b, j, l));
        } else {
            assert(h.b.blocks[c].instrs[k] == g.b.blocks[c].instrs[k]);
            assert(served(g.b.blocks, live, c, k, l));
            let (b, j) = choose|b: int, j: int| #[trigger]
                defined_at(g.b.blocks, b, j, l) && ((b == c && j < k) || (b < c && reaches(
                    g.b.blocks,
                    live,
                    b,
                    c,
                )));
            if b < c {
                reaches_emit(g, live, i, b, c);
            }
            assert(defined_at(h.b.blocks, b, j, l));
        }
    }
}

/// A block that a branch leads to.
proof fn start_fine(g: GenV, live: Set<usize>, label: usize)
    requires
        tidy(g),
        sure(g, live),
        g.b.terminated,
        label < g.b.block_counter,
        !started(g, label),
        awaited(g, label),
    ensures
        fine(g.start(label), live),
        kept(g, g.start(label)),
        g.start(label).loops == g.loops,
        floor(g.start(label)) == floor(g),
        g.start(label).b.block_counter == g.b.block_counter,
        g.start(label).program.funcs == g.program.funcs,
        forall|t: usize| #[trigger]
            started(g.start(label), t) ==> started(g, t) || t == label,
{
    start_tidy(g, label);
    let h = g.start(label);
    let n = g.b.blocks.len() as int;
    start_edges(g, label);
    reveal(sure);
    assert forall|b: int, i: int|
        0 <= b < h.b.blocks.len() && 0 <= i < h.b.blocks[b].instrs.len() implies !(
    #[trigger] h.b.blocks[b].instrs[i] is Alloc) by {
        assert(h.b.blocks[b] == g.b.blocks[b]);
    }
    assert forall|k: int| 0 < k < h.b.blocks.len() implies #[trigger] led(h.b.blocks, k) by {
        if k < n {
            assert(led(g.b.blocks, k));
            let x = choose|x: int| x < k && #[trigger] edge(g.b.blocks, x, g.b.blocks[k].label);
            assert(edge(h.b.blocks, x, h.b.blocks[k].label));
        } else {
            let x = choose|x: int| #[trigger] edge(g.b.blocks, x, label);
            assert(edge(h.b.blocks, x, h.b.blocks[k].label));
        }
    }
    assert forall|c: int, k: int, l: usize|
        0 <= c < h.b.blocks.len() && 0 <= k < h.b.blocks[c].instrs.len() && #[trigger] uses(
            h.b.blocks[c].instrs[k],
            l,
        ) implies served(h.b.blocks, live, c, k, l) by {
        assert(h.b.blocks[c] == g.b.blocks[c]);
        assert(served(g.b.blocks, live, c, k, l));
        let (b, j) = choose|b: int, j: int| #[trigger]
            defined_at(g.b.blocks, b, j, l) && ((b == c && j < k) || (b < c && reaches(
                g.b.blocks,
                live,
                b,
                c,
            )));
        assert(h.b.blocks[b] == g.b.blocks[b]);
        assert(defined_at(h.b.blocks, b, j, l));
        if b < c {
            reveal(reaches);
            assert forall|m: int, x: int|
                b < m <= c && #[trigger] edge(
                    h.b.blocks,
                    x,
                    (#[trigger] h.b.blocks[m]).label,
                ) implies b <= x < c by {
                assert(edge(g.b.blocks, x, g.b.blocks[m].label));
            }
            assert(reaches(h.b.blocks, live, b, c));
        }
    }
}

/// A new block makes no branches.
proof fn start_edges(g: GenV, label: usize)
    ensures
        ({
            let h = g.start(label);
            let n = g.b.blocks.len() as int;
            &&& h.b.blocks.len() == n + 1
            &&& h.b.blocks[n].label == label
            &&& forall|k: int| 0 <= k < n ==> #[trigger] h.b.blocks[k] == g.b.blocks[k]
            &&& forall|x: int, t: usize| #[trigger]
                edge(h.b.blocks, x, t) <==> edge(g.b.blocks, x, t)
        }),
{
    let h = g.start(label);
    let n = g.b.blocks.len() as int;
    assert(h.b.blocks[n].instrs.len() == 0);
    assert forall|x: int, t: usize| #[trigger] edge(h.b.blocks, x, t) <==> edge(g.b.blocks, x, t) by {
        if 0 <= x < n {
            assert(h.b.blocks[x] == g.b.blocks[x]);
        }
    }
}

/// A state with the same blocks.
proof fn same_fine(g: GenV, h: GenV, live: Set<usize>)
    requires
        tidy(g),
        sure(g, live),
        h.b.blocks == g.b.blocks,
        h.b.cur_block == g.b.cur_block,
        h.b.terminated == g.b.terminated,
        h.b.block_counter >= g.b.block_counter,
        h.program.funcs == g.program.funcs,
        floor(h) == floor(g),
        forall|k: int|
            0 <= k < h.b.pending.len() ==> (#[trigger] h.b.pending[k]).0 >= floor(g) || (k
                < g.b.pending.len() && h.b.pending[k] == g.b.pending[k]),
    ensures
        tidy(h),
        sure(h, live),
        later(g, h),
        kept(g, h),
        forall|t: usize| started(h, t) == started(g, t),
        h.loops == g.loops ==> further(g, live, h) && onward(g, h),
        forall|v: IrOperand| #[trigger] available(g, live, v) ==> available(h, live, v),
{
    same_blocks(g, h);
    reveal(sure);
    reveal(available);
    if h.loops == g.loops {
        onward_same(g, h);
    }
}

proof fn onward_same(g: GenV, h: GenV)
    requires
        tidy(g),
        h.b.blocks == g.b.blocks,
        h.b.block_counter >= g.b.block_counter,
        h.loops == g.loops,
        floor(h) == floor(g),
    ensures
        onward(g, h),
{
    reveal(onward);
    reveal(tidy);
}

proof fn onward_on(a: GenV, b: GenV, c: GenV)
    requires
        tidy(b),
        onward(a, b),
        onward(b, c),
    ensures
        onward(a, c),
{
    reveal(onward);
    let p = a.b.blocks.len() - 1;
    let q = b.b.blocks.len() - 1;
    let r = c.b.blocks.len() - 1;
    assert(b.b.blocks[p].label == a.b.blocks[p].label);
    if p < q {
        assert(c.b.blocks[p] == b.b.blocks[p]);
    }
    assert forall|k: int| 0 <= k < p implies #[trigger] c.b.blocks[k] == a.b.blocks[k] by {
        assert(b.b.blocks[k] == a.b.blocks[k]);
    }
    assert(starts(c.b.blocks[p].instrs, a.b.blocks[p].instrs)) by {
        let last = c.b.blocks[p].instrs;
        let mid = b.b.blocks[p].instrs;
        assert forall|i: int| 0 <= i < a.b.blocks[p].instrs.len() implies #[trigger] last[i]
            == a.b.blocks[p].instrs[i] by {
            assert(mid[i] == a.b.blocks[p].instrs[i]);
            assert(last[i] == mid[i]);
        }
    }
    assert forall|k: int| p < k <= r implies (#[trigger] c.b.blocks[k]).label
        >= a.b.block_counter by {
        if k <= q {
            assert(c.b.blocks[k].label == b.b.blocks[k].label);
        }
    }
    assert forall|x: int, t: usize| #[trigger]
        edge(c.b.blocks, x, t) && !edge(a.b.blocks, x, t) implies t >= a.b.block_counter && x
        >= p by {
        if edge(b.b.blocks, x, t) {
        }
    }
    assert forall|k: int, x: int|
        p < k <= r && #[trigger] edge(c.b.blocks, x, (#[trigger] c.b.blocks[k]).label) implies p
        <= x < r by {
        if k <= q {
            let t = b.b.blocks[k].label;
            assert(c.b.blocks[k].label == t);
            assert(t < b.b.block_counter) by {
                reveal(tidy);
            }
            assert(edge(b.b.blocks, x, t));
        }
    }
}

/// What has been computed stays so as a state goes on.
proof fn available_on(g: GenV, h: GenV, live: Set<usize>, v: IrOperand)
    requires
        tidy(g),
        sure(g, live),
        onward(g, h),
        available(g, live, v),
    ensures
        available(h, live, v),
{
    reveal(available);
    reveal(onward);
    reveal(reaches);
    if let IrOperand::Local(l) = v {
        let p = g.b.blocks.len() - 1;
        let q = h.b.blocks.len() - 1;
        let (b, j) = choose|b: int, j: int| #[trigger]
            defined_at(g.b.blocks, b, j, l) && reaches(g.b.blocks, live, b, p);
        assert(h.b.blocks[b].instrs[j] == g.b.blocks[b].instrs[j]) by {
            if b < p {
                assert(h.b.blocks[b] == g.b.blocks[b]);
            }
        }
        assert(defined_at(h.b.blocks, b, j, l));
        assert forall|k: int| b < k <= q implies !live.contains((#[trigger] h.b.blocks[k]).label) by {
            if k <= p {
                assert(h.b.blocks[k].label == g.b.blocks[k].label);
            } else {
                reveal(sure);
            }
        }
        assert forall|k: int, x: int|
            b < k <= q && #[trigger] edge(h.b.blocks, x, (#[trigger] h.b.blocks[k]).label) implies b
            <= x < q by {
            if k <= p {
                let t = g.b.blocks[k].label;
                assert(h.b.blocks[k].label == t);
                assert(t < g.b.block_counter) by {
                    reveal(tidy);
                }
                assert(edge(g.b.blocks, x, t));
            }
        }
        assert(reaches(h.b.blocks, live, b, q));
    }
}

/// An instruction that goes to new labels leads on.
proof fn emit_onward(base: GenV, g: GenV, i: InstV)
    requires
        open_at(g),
        onward(base, g),
        forall|t: usize| #[trigger]
            aims(i, t) ==> t >= base.b.block_counter && !started(g, t),
    ensures
        onward(base, g.emit(i)),
{
    emit_edges(g, i);
    reveal(onward);
    let h = g.emit(i);
    let p = base.b.blocks.len() - 1;
    let q = g.b.blocks.len() - 1;
    assert forall|k: int| 0 <= k < p implies #[trigger] h.b.blocks[k] == base.b.blocks[k] by {
        assert(g.b.blocks[k] == base.b.blocks[k]);
    }
    assert(starts(h.b.blocks[p].instrs, base.b.blocks[p].instrs)) by {
        let old = g.b.blocks[p].instrs;
        let new = h.b.blocks[p].instrs;
        assert forall|m: int| 0 <= m < base.b.blocks[p].instrs.len() implies #[trigger] new[m]
            == base.b.blocks[p].instrs[m] by {
            assert(old[m] == base.b.blocks[p].instrs[m]);
            assert(new[m] == old[m]);
        }
    }
    assert forall|k: int| p < k <= q implies (#[trigger] h.b.blocks[k]).label
        >= base.b.block_counter by {
        assert(h.b.blocks[k].label == g.b.blocks[k].label);
    }
    assert forall|k: int, x: int|
        p < k <= q && #[trigger] edge(h.b.blocks, x, (#[trigger] h.b.blocks[k]).label) implies p
        <= x < q by {
        assert(h.b.blocks[k].label == g.b.blocks[k].label);
        here(g, k);
        assert(edge(g.b.blocks, x, g.b.blocks[k].label));
    }
}

/// A block with a new label leads on.
proof fn start_onward(base: GenV, live: Set<usize>, g: GenV, label: usize)
    requires
        sure(base, live),
        onward(base, g),
        label >= base.b.block_counter,
    ensures
        onward(base, g.start(label)),
{
    start_edges(g, label);
    reveal(onward);
    let h = g.start(label);
    let p = base.b.blocks.len() - 1;
    let q = g.b.blocks.len() - 1;
    assert forall|k: int| 0 <= k < p implies #[trigger] h.b.blocks[k] == base.b.blocks[k] by {
        assert(g.b.blocks[k] == base.b.blocks[k]);
    }
    assert(h.b.blocks[p] == g.b.blocks[p]);
    assert forall|k: int, x: int|
        p < k <= q + 1 && #[trigger] edge(
            h.b.blocks,
            x,
            (#[trigger] h.b.blocks[k]).label,
        ) implies p <= x < q + 1 by {
        if k <= q {
            assert(edge(g.b.blocks, x, g.b.blocks[k].label));
        } else {
            assert(edge(g.b.blocks, x, label));
            reveal(sure);
            assert(!edge(base.b.blocks, x, label));
        }
    }
}

/// No branch goes away as a state goes on.
proof fn onward_keeps(g: GenV, h: GenV)
    requires
        open_at(g),
        onward(g, h),
    ensures
        kept(g, h),
{
    reveal(onward);
    reveal(tidy);
    let p = g.b.blocks.len() - 1;
    assert forall|x: int, t: usize| #[trigger] edge(g.b.blocks, x, t) implies edge(
        h.b.blocks,
        x,
        t,
    ) by {
        if x < p {
            assert(h.b.blocks[x] == g.b.blocks[x]);
        } else {
            let instrs = g.b.blocks[p].instrs;
            if instrs.len() > 0 {
                assert(!ir::terminator(instrs[instrs.len() - 1]));
            }
        }
    }
}

/// A step of an expression leads further on.
proof fn onward_further(g: GenV, live: Set<usize>, h: GenV)
    requires
        open_at(g),
        fine(h, live),
        later(g, h),
        onward(g, h),
    ensures
        further(g, live, h),
{
    onward_keeps(g, h);
    assert(h.loops == g.loops && floor(h) == floor(g)) by {
        reveal(onward);
    }
}

proof fn gives_on(g: GenV, live: Set<usize>, h: GenV, r: translate::Step<IrOperand>)
    requires
        tidy(h),
        later(g, h),
        onward(g, h),
        gives(h, live, r),
    ensures
        gives(g, live, r),
{
    if let Ok((k, _)) = r {
        onward_on(g, h, k);
    }
}

proof fn plain_available(g: GenV, live: Set<usize>, v: IrOperand)
    requires
        !(v is Local),
    ensures
        available(g, live, v),
{
    reveal(available);
}

proof fn now_available(g: GenV, live: Set<usize>, l: usize, b: int, j: int)
    requires
        defined_at(g.b.blocks, b, j, l),
        reaches(g.b.blocks, live, b, g.b.blocks.len() - 1),
    ensures
        available(g, live, IrOperand::Local(l)),
{
    reveal(available);
}

/// A value that an instruction computes from what has been computed.
proof fn def_gives(g: GenV, live: Set<usize>, i: InstV)
    requires
        fine(g, live),
        !ir::terminator(i),
        !(i is Phi),
        !(i is Alloc),
        ir::inst_dest(i) is Some,
        forall|l: usize| #[trigger] uses(i, l) ==> available(g, live, IrOperand::Local(l)),
    ensures
        gives(g, live, g.def(i)),
{
    if g.b.tmp_left() {
        let g1 = GenV { b: g.b.with_tmp(), ..g };
        same_fine(g, g1, live);
        let d = g.b.local_counter;
        let j = ir::with_dest(i, d);
        assert forall|l: usize| #[trigger] uses(j, l) implies available(
            g1,
            live,
            IrOperand::Local(l),
        ) by {
            assert(uses(i, l));
            assert(available(g, live, IrOperand::Local(l)));
        }
        emit_fine(g1, live, j);
        emit_onward(g, g1, j);
        emit_edges(g1, j);
        let h = g1.emit(j);
        let n = h.b.blocks.len() - 1;
        let k = g1.b.blocks[n].instrs.len() as int;
        assert(h.b.blocks[n].instrs[k] == j);
        assert(defined_at(h.b.blocks, n, k, d));
        assert(reaches(h.b.blocks, live, n, n)) by {
            reveal(reaches);
        }
        now_available(h, live, d, n, k);
    }
}

/// The operands of an instruction are what it uses.
proof fn pair_gives(g: GenV, live: Set<usize>, i: InstV, a: IrOperand, b: IrOperand)
    requires
        fine(g, live),
        !ir::terminator(i),
        !(i is Phi),
        !(i is Alloc),
        ir::inst_dest(i) is Some,
        ir::inst_operands(i) == seq![a, b],
        available(g, live, a),
        available(g, live, b),
    ensures
        gives(g, live, g.def(i)),
{
    assert forall|l: usize| #[trigger] uses(i, l) implies available(
        g,
        live,
        IrOperand::Local(l),
    ) by {}
    def_gives(g, live, i);
}

proof fn single_gives(g: GenV, live: Set<usize>, i: InstV, a: IrOperand)
    requires
        fine(g, live),
        !ir::terminator(i),
        !(i is Phi),
        !(i is Alloc),
        ir::inst_dest(i) is Some,
        ir::inst_operands(i) == seq![a],
        available(g, live, a),
    ensures
        gives(g, live, g.def(i)),
{
    assert forall|l: usize| #[trigger] uses(i, l) implies available(
        g,
        live,
        IrOperand::Local(l),
    ) by {}
    def_gives(g, live, i);
}

proof fn store_fine(g: GenV, live: Set<usize>, value: IrOperand, ptr: IrOperand)
    requires
        fine(g, live),
        available(g, live, value),
        available(g, live, ptr),
    ensures
        further(g, live, g.emit(InstV::Store { value, ptr })),
        fine(g.emit(InstV::Store { value, ptr }), live),
        onward(g, g.emit(InstV::Store { value, ptr })),
        g.emit(InstV::Store { value, ptr }).b.block_counter == g.b.block_counter,
{
    let i = InstV::Store { value, ptr };
    assert(ir::inst_operands(i) == seq![value, ptr]);
    assert forall|l: usize| #[trigger] uses(i, l) implies available(
        g,
        live,
        IrOperand::Local(l),
    ) by {}
    emit_fine(g, live, i);
    onward_same(g, g);
    emit_onward(g, g, i);
}

// ── Expressions ──────────────────────────────────────────────────────────────

proof fn element_gives(g: GenV, live: Set<usize>, p: IrOperand, whole: bool, size: i32)
    requires
        fine(g, live),
        available(g, live, p),
    ensures
        gives(g, live, translate::element(g, p, whole, size)),
{
    single_gives(g, live, InstV::Load { dest: 0, src: p }, p);
    plain_available(g, live, IrOperand::Int(0));
    pair_gives(
        g,
        live,
        InstV::GetElemPtr { dest: 0, ptr: p, index: IrOperand::Int(0), elem_size: size },
        p,
        IrOperand::Int(0),
    );
}

proof fn array_step_gives(
    g: GenV,
    live: Set<usize>,
    base: IrOperand,
    index: IrOperand,
    size: i32,
)
    requires
        fine(g, live),
        available(g, live, base),
        available(g, live, index),
    ensures
        gives(g, live, translate::array_step(g, base, index, size)),
{
    let i = InstV::GetElemPtr { dest: 0, ptr: base, index: IrOperand::Int(0), elem_size: size };
    plain_available(g, live, IrOperand::Int(0));
    pair_gives(g, live, i, base, IrOperand::Int(0));
    if let Ok((g1, p)) = g.def(i) {
        available_on(g, g1, live, index);
        let j = InstV::GetPtr { dest: 0, ptr: p, index, elem_size: size };
        pair_gives(g1, live, j, p, index);
        gives_on(g, live, g1, g1.def(j));
    }
}

proof fn index_step_gives(
    g: GenV,
    live: Set<usize>,
    pointer: bool,
    base: IrOperand,
    index: IrOperand,
    size: i32,
)
    requires
        fine(g, live),
        available(g, live, base),
        available(g, live, index),
    ensures
        gives(g, live, translate::index_step(g, pointer, base, index, size)),
{
    pair_gives(g, live, InstV::GetPtr { dest: 0, ptr: base, index, elem_size: size }, base, index);
    array_step_gives(g, live, base, index, size);
}

/// The end of a branch that decides.
proof fn decided_fine(base: GenV, g: GenV, live: Set<usize>, value: i32, sc: usize, end: usize)
    requires
        fine(g, live),
        onward(base, g),
        base.b.block_counter <= end < g.b.block_counter,
        !started(g, end),
    ensures
        ({
            let h = translate::decided(g, value, sc, end);
            &&& further(g, live, h)
            &&& onward(base, h)
            &&& h.b.terminated
            &&& h.b.block_counter == g.b.block_counter
            &&& edge(h.b.blocks, h.b.blocks.len() - 1, end)
        }),
{
    let v = IrOperand::Int(value);
    let p = IrOperand::Global(sc);
    plain_available(g, live, v);
    plain_available(g, live, p);
    stored_jump(base, g, live, v, p, end);
}

proof fn stored_jump(
    base: GenV,
    g: GenV,
    live: Set<usize>,
    value: IrOperand,
    ptr: IrOperand,
    end: usize,
)
    requires
        fine(g, live),
        onward(base, g),
        base.b.block_counter <= end < g.b.block_counter,
        !started(g, end),
        available(g, live, value),
        available(g, live, ptr),
    ensures
        ({
            let h = g.emit(InstV::Store { value, ptr }).emit(InstV::Jump { target: end });
            &&& further(g, live, h)
            &&& onward(base, h)
            &&& h.b.terminated
            &&& h.b.block_counter == g.b.block_counter
            &&& edge(h.b.blocks, h.b.blocks.len() - 1, end)
        }),
{
    store_fine(g, live, value, ptr);
    let g1 = g.emit(InstV::Store { value, ptr });
    onward_on(base, g, g1);
    assert(!started(g1, end));
    let i = InstV::Jump { target: end };
    assert(ir::inst_operands(i) == Seq::<IrOperand>::empty());
    emit_fine(g1, live, i);
    emit_onward(base, g1, i);
    emit_edges(g1, i);
}

proof fn call_gives(g: GenV, live: Set<usize>, name: Seq<char>, args: Seq<IrOperand>)
    requires
        fine(g, live),
        forall|k: int| 0 <= k < args.len() ==> available(g, live, #[trigger] args[k]),
    ensures
        gives(g, live, translate::call(g, name, args)),
{
    let func = g.program.func_names.len() as usize;
    let g1 = GenV {
        program: ProgV { func_names: g.program.func_names.push(name), ..g.program },
        ..g
    };
    same_fine(g, g1, live);
    let i = InstV::Call { dest: None, func, args };
    let j = InstV::Call { dest: Some(0), func, args };
    assert forall|l: usize| uses(i, l) || uses(j, l) implies #[trigger] available(
        g1,
        live,
        IrOperand::Local(l),
    ) by {
        let k = choose|k: int| 0 <= k < args.len() && args[k] == IrOperand::Local(l);
        assert(available(g, live, args[k]));
    }
    emit_fine(g1, live, i);
    onward_same(g1, g1);
    emit_onward(g1, g1, i);
    plain_available(g1.emit(i), live, IrOperand::Int(0));
    onward_on(g, g1, g1.emit(i));
    def_gives(g1, live, j);
    gives_on(g, live, g1, g1.def(j));
}

proof fn test_gives(g: GenV, live: Set<usize>, v: IrOperand)
    requires
        fine(g, live),
        available(g, live, v),
    ensures
        gives(g, live, translate::test(g, v)),
        gives(g, live, translate::branch_cond(g, v)),
{
    plain_available(g, live, IrOperand::Int(0));
    pair_gives(
        g,
        live,
        InstV::Icmp { dest: 0, op: IrCmpOp::Ne, lhs: v, rhs: IrOperand::Int(0) },
        v,
        IrOperand::Int(0),
    );
    if let IrOperand::Int(n) = v {
        itself_gives(g, live, IrOperand::Int(crate::eval::truth(n != 0)));
    }
}

/// A value that needs no instruction.
proof fn itself_gives(g: GenV, live: Set<usize>, v: IrOperand)
    requires
        fine(g, live),
        available(g, live, v) || !(v is Local),
    ensures
        gives(g, live, Ok::<(GenV, IrOperand), ErrorView>((g, v))),
{
    onward_same(g, g);
    if !(v is Local) {
        plain_available(g, live, v);
    }
}

proof fn name_gives(g: GenV, live: Set<usize>, name: Seq<char>)
    requires
        fine(g, live),
    ensures
        gives(g, live, translate::name_value(g, name)),
{
    match g.lookup(name) {
        Some(SymV::Const(v)) => itself_gives(g, live, IrOperand::Int(v)),
        Some(SymV::Var(n)) => {
            plain_available(g, live, IrOperand::Global(n));
            single_gives(
                g,
                live,
                InstV::Load { dest: 0, src: IrOperand::Global(n) },
                IrOperand::Global(n),
            );
        },
        Some(SymV::Array(n, dims)) => {
            plain_available(g, live, IrOperand::Global(n));
            plain_available(g, live, IrOperand::Int(0));
            pair_gives(
                g,
                live,
                InstV::GetElemPtr {
                    dest: 0,
                    ptr: IrOperand::Global(n),
                    index: IrOperand::Int(0),
                    elem_size: translate::size_from(dims, 1),
                },
                IrOperand::Global(n),
                IrOperand::Int(0),
            );
        },
        Some(SymV::PtrArray(n)) => itself_gives(g, live, IrOperand::Global(n)),
        Some(SymV::NdParam { name: n, .. }) => itself_gives(g, live, IrOperand::Global(n)),
        None => {},
    }
}

proof fn expr_gives(g: GenV, live: Set<usize>, e: ExprV)
    requires
        fine(g, live),
    ensures
        gives(g, live, translate::expr(g, e)),
    decreases e, 2int,
{
    match e {
        ExprV::Int(n) => itself_gives(g, live, IrOperand::Int(n)),
        ExprV::LVal(name) => name_gives(g, live, name),
        ExprV::Unary { op, expr: x } => {
            expr_gives(g, live, *x);
            if let Ok((g1, v)) = translate::expr(g, *x) {
                plain_available(g1, live, IrOperand::Int(0));
                let neg = InstV::Arith {
                    dest: 0,
                    op: IrArithOp::Sub,
                    lhs: IrOperand::Int(0),
                    rhs: v,
                };
                let not = InstV::Icmp {
                    dest: 0,
                    op: IrCmpOp::Eq,
                    lhs: v,
                    rhs: IrOperand::Int(0),
                };
                pair_gives(g1, live, neg, IrOperand::Int(0), v);
                gives_on(g, live, g1, g1.def(neg));
                pair_gives(g1, live, not, v, IrOperand::Int(0));
                gives_on(g, live, g1, g1.def(not));
                match op {
                    UnaryOp::Plus => {},
                    UnaryOp::Minus => {},
                    UnaryOp::Not => {},
                }
            }
        },
        ExprV::Binary { op, lhs, rhs } => {
            if op == BinaryOp::And || op == BinaryOp::Or {
                short_gives(g, live, e);
            } else {
                expr_gives(g, live, *lhs);
                if let Ok((g1, l)) = translate::expr(g, *lhs) {
                    expr_gives(g1, live, *rhs);
                    if let Ok((g2, r)) = translate::expr(g1, *rhs) {
                        available_on(g1, g2, live, l);
                        onward_on(g, g1, g2);
                        let i = translate::binary_inst(op, l, r);
                        pair_gives(g2, live, i, l, r);
                        gives_on(g, live, g2, g2.def(i));
                    }
                }
            }
        },
        ExprV::Call { name, args } => {
            onward_same(g, g);
            args_give(g, g, live, args, 0, Seq::empty());
            if let Ok((g1, vals)) = translate::call_args(g, args, 0, Seq::empty()) {
                call_gives(g1, live, name, vals);
                gives_on(g, live, g1, translate::call(g1, name, vals));
            }
        },
        ExprV::Index { .. } => index_gives(g, live, e),
        ExprV::InitList(_) => {},
        ExprV::Asm(code) => {
            let i = InstV::Asm { dest: Some(0), code };
            assert(ir::inst_operands(i) == Seq::<IrOperand>::empty());
            def_gives(g, live, i);
        },
    }
}

/// The branch of a short-circuit operator, up to the second operand.
proof fn branch_fine(
    base: GenV,
    g: GenV,
    live: Set<usize>,
    op: BinaryOp,
    cond: IrOperand,
    sc: usize,
    a: usize,
    b: usize,
    end: usize,
)
    requires
        sure(base, live),
        fine(g, live),
        onward(base, g),
        later(base, g),
        available(g, live, cond),
        base.b.block_counter <= a < g.b.block_counter,
        base.b.block_counter <= b < g.b.block_counter,
        base.b.block_counter <= end < g.b.block_counter,
        a != b,
        a != end,
        b != end,
        !started(g, a),
        !started(g, b),
        !started(g, end),
    ensures
        ({
            let br = g.emit(InstV::Br { cond, then_bb: a, else_bb: b }).start(a);
            let h = if op == BinaryOp::And {
                br
            } else {
                translate::decided(br, 1, sc, end).start(b)
            };
            &&& fine(h, live)
            &&& onward(base, h)
            &&& later(base, h)
            &&& h.b.block_counter == g.b.block_counter
            &&& !started(h, end)
            &&& op == BinaryOp::And ==> !started(h, b)
            &&& awaited(h, b)
        }),
{
    let br = InstV::Br { cond, then_bb: a, else_bb: b };
    assert(ir::inst_operands(br) == seq![cond]);
    assert forall|l: usize| #[trigger] uses(br, l) implies available(
        g,
        live,
        IrOperand::Local(l),
    ) by {}
    emit_fine(g, live, br);
    emit_onward(base, g, br);
    emit_edges(g, br);
    let h = g.emit(br);
    let n = g.b.blocks.len() - 1;
    assert(edge(h.b.blocks, n, a));
    assert(edge(h.b.blocks, n, b));
    assert(!started(h, a) && !started(h, b) && !started(h, end));
    start_fine(h, live, a);
    start_onward(base, live, h, a);
    let h1 = h.start(a);
    assert(edge(h1.b.blocks, n, b));
    assert(!started(h1, b) && !started(h1, end));
    if op != BinaryOp::And {
        decided_fine(base, h1, live, 1, sc, end);
        let h2 = translate::decided(h1, 1, sc, end);
        assert(edge(h2.b.blocks, n, b));
        assert(!started(h2, b) && !started(h2, end));
        start_fine(h2, live, b);
        start_onward(base, live, h2, b);
        let h3 = h2.start(b);
        assert(edge(h3.b.blocks, n, b));
        assert(!started(h3, end));
        assert(later(base, h3));
    } else {
        assert(later(base, h1));
    }
}

/// The end of a short-circuit operator, from the value of the second operand on.
proof fn join_gives(
    base: GenV,
    g: GenV,
    live: Set<usize>,
    op: BinaryOp,
    t: IrOperand,
    sc: usize,
    b: usize,
    end: usize,
)
    requires
        sure(base, live),
        fine(g, live),
        onward(base, g),
        later(base, g),
        available(g, live, t),
        base.b.block_counter <= b < g.b.block_counter,
        base.b.block_counter <= end < g.b.block_counter,
        b != end,
        op == BinaryOp::And ==> !started(g, b),
        !started(g, end),
        awaited(g, b),
    ensures
        ({
            let g8 = g.emit(InstV::Store { value: t, ptr: IrOperand::Global(sc) }).emit(
                InstV::Jump { target: end },
            );
            let g9 = if op == BinaryOp::And {
                translate::decided(g8.start(b), 0, sc, end)
            } else {
                g8
            };
            gives(
                base,
                live,
                g9.start(end).def(InstV::Load { dest: 0, src: IrOperand::Global(sc) }),
            )
        }),
{
    let p = IrOperand::Global(sc);
    plain_available(g, live, p);
    stored_jump(base, g, live, t, p, end);
    let g8 = g.emit(InstV::Store { value: t, ptr: p }).emit(InstV::Jump { target: end });
    let x = choose|x: int| #[trigger] edge(g.b.blocks, x, b);
    assert(edge(g8.b.blocks, x, b));
    assert(!started(g8, end));
    if op == BinaryOp::And {
        assert(!started(g8, b));
        start_fine(g8, live, b);
        start_onward(base, live, g8, b);
        assert(!started(g8.start(b), end));
        decided_fine(base, g8.start(b), live, 0, sc, end);
    }
    let g9 = if op == BinaryOp::And {
        translate::decided(g8.start(b), 0, sc, end)
    } else {
        g8
    };
    assert(!started(g9, end));
    assert(edge(g9.b.blocks, g9.b.blocks.len() - 1, end));
    start_fine(g9, live, end);
    start_onward(base, live, g9, end);
    let g10 = g9.start(end);
    assert(later(base, g10));
    plain_available(g10, live, p);
    let i = InstV::Load { dest: 0, src: p };
    single_gives(g10, live, i, p);
    gives_on(base, live, g10, g10.def(i));
}

proof fn short_gives(g: GenV, live: Set<usize>, e: ExprV)
    requires
        fine(g, live),
        e matches ExprV::Binary { op, .. } && (op == BinaryOp::And || op == BinaryOp::Or),
    ensures
        gives(g, live, translate::expr(g, e)),
    decreases e, 0int,
{
    if let ExprV::Binary { op, lhs, rhs } = e {
        if let Ok((g1, sc)) = g.short_circuit() {
            same_fine(g, g1, live);
            expr_gives(g1, live, *lhs);
            if let Ok((g2, l)) = translate::expr(g1, *lhs) {
                onward_on(g, g1, g2);
                test_gives(g2, live, l);
                if let Ok((g3, cond)) = translate::branch_cond(g2, l) {
                    onward_on(g, g2, g3);
                    labels_tidy(g3);
                    if let Ok((g4, (a, b, end))) = g3.labels() {
                        same_fine(g3, g4, live);
                        onward_on(g, g3, g4);
                        branch_fine(g, g4, live, op, cond, sc, a, b, end);
                        let h1 = g4.emit(InstV::Br { cond, then_bb: a, else_bb: b }).start(a);
                        let g5 = if op == BinaryOp::And {
                            h1
                        } else {
                            translate::decided(h1, 1, sc, end).start(b)
                        };
                        let x = choose|x: int| #[trigger] edge(g5.b.blocks, x, b);
                        expr_gives(g5, live, *rhs);
                        if let Ok((g6, r)) = translate::expr(g5, *rhs) {
                            onward_on(g, g5, g6);
                            onward_keeps(g5, g6);
                            test_gives(g6, live, r);
                            if let Ok((g7, t)) = translate::test(g6, r) {
                                onward_on(g, g6, g7);
                                onward_keeps(g6, g7);
                                assert(edge(g7.b.blocks, x, b));
                                assert(!started(g7, end));
                                join_gives(g, g7, live, op, t, sc, b, end);
                            }
                        }
                    }
                }
            }
        }
    }
}

/// The values of arguments have all been computed.
proof fn args_give(
    base: GenV,
    g: GenV,
    live: Set<usize>,
    args: Seq<ExprV>,
    k: int,
    done: Seq<IrOperand>,
)
    requires
        fine(g, live),
        onward(base, g),
        later(base, g),
        forall|i: int| 0 <= i < done.len() ==> available(g, live, #[trigger] done[i]),
    ensures
        translate::call_args(g, args, k, done) matches Ok((h, vals)) ==> fine(h, live) && onward(
            base,
            h,
        ) && later(base, h) && forall|i: int|
            0 <= i < vals.len() ==> available(h, live, #[trigger] vals[i]),
    decreases args, args.len() - k,
{
    if 0 <= k < args.len() {
        expr_gives(g, live, args[k]);
        if let Ok((g1, v)) = translate::expr(g, args[k]) {
            onward_on(base, g, g1);
            let all = done.push(v);
            assert forall|i: int| 0 <= i < all.len() implies available(
                g1,
                live,
                #[trigger] all[i],
            ) by {
                if i < done.len() {
                    available_on(g, g1, live, done[i]);
                }
            }
            args_give(base, g1, live, args, k + 1, all);
        }
    }
}

proof fn index_gives(g: GenV, live: Set<usize>, e: ExprV)
    requires
        fine(g, live),
    ensures
        gives(g, live, translate::index_value(g, e)),
    decreases e, 1int,
{
    if let ExprV::Index { array, index } = e {
        if translate::is_param(translate::base_symbol(g, e)) {
            param_ptr_gives(g, live, e);
            if let Ok((g1, p)) = translate::param_ptr(g, e) {
                let whole = translate::index_count(e) >= translate::total_dims(g, e);
                let size = translate::size_from(
                    translate::base_dims(g, e),
                    translate::index_count(e),
                );
                element_gives(g1, live, p, whole, size);
                gives_on(g, live, g1, translate::element(g1, p, whole, size));
            }
        } else {
            let dims = translate::base_dims(g, *array);
            let depth = translate::index_count(*array);
            expr_gives(g, live, *index);
            if let Ok((g1, i)) = translate::expr(g, *index) {
                base_gives(g1, live, *array);
                if let Ok((g2, b)) = translate::base(g1, *array) {
                    available_on(g1, g2, live, i);
                    onward_on(g, g1, g2);
                    let pointer = *array is LVal && translate::is_ptr(
                        translate::base_symbol(g, *array),
                    );
                    let size = translate::size_from(dims, depth + 1);
                    index_step_gives(g2, live, pointer, b, i, size);
                    if let Ok((g3, p)) = translate::index_step(g2, pointer, b, i, size) {
                        onward_on(g, g2, g3);
                        let whole = 1 + depth >= translate::total_dims(g, *array);
                        let row = translate::size_from(dims, depth + 2);
                        element_gives(g3, live, p, whole, row);
                        gives_on(g, live, g3, translate::element(g3, p, whole, row));
                    }
                }
            }
        }
    }
}

proof fn param_ptr_gives(g: GenV, live: Set<usize>, e: ExprV)
    requires
        fine(g, live),
    ensures
        gives(g, live, translate::param_ptr(g, e)),
    decreases e, 0int,
{
    if let ExprV::Index { array, index } = e {
        match *array {
            ExprV::LVal(name) => {
                if let Some(SymV::NdParam { name: n, dims }) = g.lookup(name) {
                    expr_gives(g, live, *index);
                    if let Ok((g1, i)) = translate::expr(g, *index) {
                        let p = IrOperand::Global(n);
                        plain_available(g1, live, p);
                        let step = InstV::GetPtr {
                            dest: 0,
                            ptr: p,
                            index: i,
                            elem_size: translate::size_from(dims, 0),
                        };
                        pair_gives(g1, live, step, p, i);
                        gives_on(g, live, g1, g1.def(step));
                    }
                }
            },
            _ => {
                param_ptr_gives(g, live, *array);
                if let Ok((g1, p)) = translate::param_ptr(g, *array) {
                    expr_gives(g1, live, *index);
                    if let Ok((g2, i)) = translate::expr(g1, *index) {
                        available_on(g1, g2, live, p);
                        onward_on(g, g1, g2);
                        let step = InstV::GetElemPtr {
                            dest: 0,
                            ptr: p,
                            index: i,
                            elem_size: translate::size_from(
                                translate::base_dims(g, *array),
                                translate::index_count(*array),
                            ),
                        };
                        pair_gives(g2, live, step, p, i);
                        gives_on(g, live, g2, g2.def(step));
                    }
                }
            },
        }
    }
}

proof fn base_gives(g: GenV, live: Set<usize>, e: ExprV)
    requires
        fine(g, live),
    ensures
        gives(g, live, translate::base(g, e)),
    decreases e, 0int,
{
    match e {
        ExprV::LVal(name) => {
            if let Ok(b) = translate::name_base(g, name) {
                itself_gives(g, live, b);
            }
        },
        ExprV::Index { array, index } => {
            expr_gives(g, live, *index);
            if let Ok((g1, i)) = translate::expr(g, *index) {
                base_gives(g1, live, *array);
                if let Ok((g2, b)) = translate::base(g1, *array) {
                    available_on(g1, g2, live, i);
                    onward_on(g, g1, g2);
                    let size = translate::size_from(
                        translate::base_dims(g, *array),
                        translate::index_count(*array) + 1,
                    );
                    array_step_gives(g2, live, b, i, size);
                    gives_on(g, live, g2, translate::array_step(g2, b, i, size));
                }
            }
        },
        _ => {},
    }
}

// ── Declarations ─────────────────────────────────────────────────────────────

proof fn inner_ptr_gives(g: GenV, live: Set<usize>, p: IrOperand, dims: Seq<i32>, k: int)
    requires
        fine(g, live),
        available(g, live, p),
    ensures
        gives(g, live, translate::inner_ptr(g, p, dims, k)),
    decreases dims.len() - k,
{
    if k < dims.len() {
        let i = InstV::GetElemPtr {
            dest: 0,
            ptr: p,
            index: IrOperand::Int(0),
            elem_size: translate::size_from(dims, k + 1),
        };
        plain_available(g, live, IrOperand::Int(0));
        pair_gives(g, live, i, p, IrOperand::Int(0));
        if let Ok((g1, q)) = g.def(i) {
            inner_ptr_gives(g1, live, q, dims, k + 1);
            gives_on(g, live, g1, translate::inner_ptr(g1, q, dims, k + 1));
        }
    } else {
        itself_gives(g, live, p);
    }
}

proof fn elem_ptr_gives(g: GenV, live: Set<usize>, base: usize, dims: Seq<i32>, flat: i32)
    requires
        fine(g, live),
    ensures
        gives(g, live, translate::elem_ptr(g, base, dims, flat)),
{
    let first = IrOperand::Global(base);
    if dims.len() == 0 {
        itself_gives(g, live, first);
    } else {
        plain_available(g, live, first);
        inner_ptr_gives(g, live, first, dims, 0);
        if let Ok((g1, p)) = translate::inner_ptr(g, first, dims, 0) {
            let i = InstV::GetPtr { dest: 0, ptr: p, index: IrOperand::Int(flat), elem_size: 4 };
            plain_available(g1, live, IrOperand::Int(flat));
            pair_gives(g1, live, i, p, IrOperand::Int(flat));
            gives_on(g, live, g1, g1.def(i));
        }
    }
}

proof fn init_stores_stay(
    g: GenV,
    live: Set<usize>,
    base: usize,
    dims: Seq<i32>,
    flat: Seq<ExprV>,
    i: int,
    n: int,
)
    requires
        fine(g, live),
    ensures
        stays(g, live, translate::init_stores(g, base, dims, flat, i, n)),
    decreases n - i,
{
    if i < n {
        let at = (i as usize) as i32;
        expr_gives(g, live, flat[i]);
        if let Ok((g1, value)) = translate::expr(g, flat[i]) {
            elem_ptr_gives(g1, live, base, dims, at);
            if let Ok((g2, ptr)) = translate::elem_ptr(g1, base, dims, at) {
                available_on(g1, g2, live, value);
                onward_on(g, g1, g2);
                onward_further(g, live, g2);
                store_fine(g2, live, value, ptr);
                let g3 = g2.emit(InstV::Store { value, ptr });
                init_stores_stay(g3, live, base, dims, flat, i + 1, n);
            }
        }
    }
}

proof fn array_init_stays(g: GenV, live: Set<usize>, base: usize, dims: Seq<i32>, init: ExprV)
    requires
        fine(g, live),
    ensures
        stays(g, live, translate::array_init(g, base, dims, init)),
{
    if let Ok(flat) = translate::local_flat(dims, init, Seq::empty()) {
        if let Some(t) = translate::total(dims) {
            init_stores_stay(g, live, base, dims, translate::fill(flat, t as int), 0, t as int);
        }
    }
}

/// The index of a variable of the function is one of its own.
proof fn index_is_own(g: GenV, live: Set<usize>, name: Seq<char>)
    requires
        sure(g, live),
    ensures
        g.b.global_index(name) >= floor(g),
{
    reveal(sure);
    text::position_is_first(g.b.names.global_names, ir::global_mark(name));
}

proof fn named_fine(g: GenV, live: Set<usize>, name: Seq<char>)
    requires
        fine(g, live),
    ensures
        match g.local_name(name) {
            Ok((h, _)) => fine(h, live) && further(g, live, h),
            Err(_) => true,
        },
{
    if let Ok((g1, _)) = g.local_name(name) {
        same_fine(g, g1, live);
    }
}

proof fn new_array_fine(
    g: GenV,
    live: Set<usize>,
    name: Seq<char>,
    mangled: Seq<char>,
    dims: Seq<i32>,
)
    requires
        fine(g, live),
    ensures
        match translate::new_array(g, name, mangled, dims) {
            Ok((h, _)) => fine(h, live) && further(g, live, h),
            Err(_) => true,
        },
{
    index_is_own(g, live, mangled);
    if let Ok((g1, _)) = translate::new_array(g, name, mangled, dims) {
        same_fine(g, g1, live);
    }
}

proof fn const_def_stays(g: GenV, live: Set<usize>, d: ConstDefV)
    requires
        fine(g, live),
    ensures
        stays(g, live, translate::const_def(g, d)),
{
    if translate::declared(g, d.name) {
    } else if d.dims.len() == 0 && !(d.init is InitList) {
        if let Ok(v) = translate::const_value(g, d.init) {
            same_fine(g, g.bind(d.name, SymV::Const(v)), live);
        }
    } else {
        named_fine(g, live, d.name);
        if let Ok((g1, mangled)) = g.local_name(d.name) {
            if let Ok(dims) = translate::const_values(g1, d.dims) {
                new_array_fine(g1, live, d.name, mangled, dims);
                if let Ok((g2, n)) = translate::new_array(g1, d.name, mangled, dims) {
                    array_init_stays(g2, live, n, dims, d.init);
                }
            }
        }
    }
}

proof fn var_def_stays(g: GenV, live: Set<usize>, d: VarDefV)
    requires
        fine(g, live),
    ensures
        stays(g, live, translate::var_def(g, d)),
{
    if !translate::declared(g, d.name) {
        named_fine(g, live, d.name);
        if let Ok((g1, mangled)) = g.local_name(d.name) {
            if d.dims.len() == 0 {
                index_is_own(g1, live, mangled);
                if let Ok((g2, n)) = g1.intern(mangled) {
                    let g3 = g2.pend(n, IrType::I32);
                    same_fine(g1, g3, live);
                    match d.init {
                        None => same_fine(g3, g3.bind(d.name, SymV::Var(n)), live),
                        Some(init) => {
                            expr_gives(g3, live, init);
                            if let Ok((g4, v)) = translate::expr(g3, init) {
                                onward_further(g3, live, g4);
                                let p = IrOperand::Global(n);
                                plain_available(g4, live, p);
                                store_fine(g4, live, v, p);
                                let g5 = g4.emit(InstV::Store { value: v, ptr: p });
                                same_fine(g5, g5.bind(d.name, SymV::Var(n)), live);
                            }
                        },
                    }
                }
            } else if let Ok(dims) = translate::const_values(g1, d.dims) {
                new_array_fine(g1, live, d.name, mangled, dims);
                if let Ok((g2, n)) = translate::new_array(g1, d.name, mangled, dims) {
                    if let Some(init) = d.init {
                        array_init_stays(g2, live, n, dims, init);
                    }
                }
            }
        }
    }
}

proof fn const_defs_stay(g: GenV, live: Set<usize>, defs: Seq<ConstDefV>, k: int)
    requires
        fine(g, live),
    ensures
        stays(g, live, translate::const_defs(g, defs, k)),
    decreases defs.len() - k,
{
    if 0 <= k < defs.len() {
        const_def_stays(g, live, defs[k]);
        if let Ok(g1) = translate::const_def(g, defs[k]) {
            const_defs_stay(g1, live, defs, k + 1);
        }
    }
}

proof fn var_defs_stay(g: GenV, live: Set<usize>, defs: Seq<VarDefV>, k: int)
    requires
        fine(g, live),
    ensures
        stays(g, live, translate::var_defs(g, defs, k)),
    decreases defs.len() - k,
{
    if 0 <= k < defs.len() {
        var_def_stays(g, live, defs[k]);
        if let Ok(g1) = translate::var_def(g, defs[k]) {
            var_defs_stay(g1, live, defs, k + 1);
        }
    }
}

// ── Statements ───────────────────────────────────────────────────────────────

proof fn param_target_gives(
    g: GenV,
    live: Set<usize>,
    p: IrOperand,
    dims: Seq<i32>,
    index: Seq<ExprV>,
    k: int,
)
    requires
        fine(g, live),
        available(g, live, p),
    ensures
        gives(g, live, translate::param_target(g, p, dims, index, k)),
    decreases index.len() - k,
{
    if 0 <= k < index.len() {
        expr_gives(g, live, index[k]);
        if let Ok((g1, i)) = translate::expr(g, index[k]) {
            available_on(g, g1, live, p);
            let step = InstV::GetElemPtr {
                dest: 0,
                ptr: p,
                index: i,
                elem_size: translate::size_from(dims, k),
            };
            pair_gives(g1, live, step, p, i);
            if let Ok((g2, q)) = g1.def(step) {
                onward_on(g, g1, g2);
                param_target_gives(g2, live, q, dims, index, k + 1);
                gives_on(g, live, g2, translate::param_target(g2, q, dims, index, k + 1));
            }
        }
    } else {
        itself_gives(g, live, p);
    }
}

proof fn array_target_gives(
    g: GenV,
    live: Set<usize>,
    p: IrOperand,
    pointer: bool,
    dims: Seq<i32>,
    index: Seq<ExprV>,
    k: int,
)
    requires
        fine(g, live),
        available(g, live, p),
    ensures
        gives(g, live, translate::array_target(g, p, pointer, dims, index, k)),
    decreases index.len() - k,
{
    if 0 <= k < index.len() {
        expr_gives(g, live, index[k]);
        if let Ok((g1, i)) = translate::expr(g, index[k]) {
            available_on(g, g1, live, p);
            let size = translate::size_from(dims, k + 1);
            index_step_gives(g1, live, pointer, p, i, size);
            if let Ok((g2, q)) = translate::index_step(g1, pointer, p, i, size) {
                onward_on(g, g1, g2);
                array_target_gives(g2, live, q, pointer, dims, index, k + 1);
                gives_on(
                    g,
                    live,
                    g2,
                    translate::array_target(g2, q, pointer, dims, index, k + 1),
                );
            }
        }
    } else {
        itself_gives(g, live, p);
    }
}

proof fn store_to_leads(g: GenV, live: Set<usize>, r: translate::Step<IrOperand>, value: IrOperand)
    requires
        fine(g, live),
        available(g, live, value),
        gives(g, live, r),
    ensures
        stays(g, live, translate::store_to(r, value)),
{
    if let Ok((h, p)) = r {
        available_on(g, h, live, value);
        onward_further(g, live, h);
        store_fine(h, live, value, p);
    }
}

proof fn array_assign_leads(
    g: GenV,
    live: Set<usize>,
    name: Seq<char>,
    index: Seq<ExprV>,
    e: ExprV,
)
    requires
        fine(g, live),
    ensures
        stays(g, live, translate::array_assign(g, name, index, e)),
{
    expr_gives(g, live, e);
    if let Ok((g1, v)) = translate::expr(g, e) {
        onward_further(g, live, g1);
        match g.lookup(name) {
            Some(SymV::NdParam { name: n, dims }) => {
                expr_gives(g1, live, index[0]);
                if let Ok((g2, i)) = translate::expr(g1, index[0]) {
                    let first = IrOperand::Global(n);
                    plain_available(g2, live, first);
                    let step = InstV::GetPtr {
                        dest: 0,
                        ptr: first,
                        index: i,
                        elem_size: translate::size_from(dims, 0),
                    };
                    pair_gives(g2, live, step, first, i);
                    if let Ok((g3, p)) = g2.def(step) {
                        onward_on(g1, g2, g3);
                        let r = translate::param_target(g3, p, dims, index, 1);
                        param_target_gives(g3, live, p, dims, index, 1);
                        gives_on(g1, live, g3, r);
                        store_to_leads(g1, live, r, v);
                    }
                }
            },
            Some(SymV::Array(n, dims)) => {
                let first = IrOperand::Global(n);
                plain_available(g1, live, first);
                array_target_gives(g1, live, first, false, dims, index, 0);
                store_to_leads(
                    g1,
                    live,
                    translate::array_target(g1, first, false, dims, index, 0),
                    v,
                );
            },
            Some(SymV::PtrArray(n)) => {
                let first = IrOperand::Global(n);
                plain_available(g1, live, first);
                array_target_gives(g1, live, first, true, Seq::empty(), index, 0);
                store_to_leads(
                    g1,
                    live,
                    translate::array_target(g1, first, true, Seq::empty(), index, 0),
                    v,
                );
            },
            _ => {},
        }
    }
}

proof fn assign_leads(g: GenV, live: Set<usize>, name: Seq<char>, index: Seq<ExprV>, e: ExprV)
    requires
        fine(g, live),
    ensures
        leads(g, live, translate::assign(g, name, index, e)),
{
    if index.len() > 0 {
        array_assign_leads(g, live, name, index, e);
    } else if let Some(SymV::Var(n)) = g.lookup(name) {
        expr_gives(g, live, e);
        if let Ok((g1, v)) = translate::expr(g, e) {
            onward_further(g, live, g1);
            plain_available(g1, live, IrOperand::Global(n));
            store_fine(g1, live, v, IrOperand::Global(n));
        }
    }
}

/// Labels that no block has yet, and that may be gone to.
proof fn widened(g: GenV, live: Set<usize>, more: Set<usize>)
    requires
        tidy(g),
        sure(g, live),
        forall|t: usize| #[trigger]
            more.contains(t) ==> t < g.b.block_counter && (live.contains(t) || !started(g, t)),
    ensures
        sure(g, more),
{
    reveal(sure);
    let blocks = g.b.blocks;
    assert forall|c: int, i: int, l: usize|
        0 <= c < blocks.len() && 0 <= i < blocks[c].instrs.len() && #[trigger] uses(
            blocks[c].instrs[i],
            l,
        ) implies served(blocks, more, c, i, l) by {
        assert(served(blocks, live, c, i, l));
        let (b, j) = choose|b: int, j: int| #[trigger]
            defined_at(blocks, b, j, l) && ((b == c && j < i) || (b < c && reaches(
                blocks,
                live,
                b,
                c,
            )));
        if b < c {
            reveal(reaches);
            assert forall|k: int| b < k <= c implies !more.contains(
                (#[trigger] blocks[k]).label,
            ) by {
                here(g, k);
            }
            assert(reaches(blocks, more, b, c));
        }
        assert(defined_at(blocks, b, j, l));
    }
}

proof fn return_leads(g: GenV, live: Set<usize>, v: Option<IrOperand>)
    requires
        fine(g, live),
        v matches Some(x) ==> available(g, live, x),
    ensures
        further(g, live, g.emit(InstV::Ret { value: v })),
        g.emit(InstV::Ret { value: v }).b.terminated,
{
    let i = InstV::Ret { value: v };
    assert forall|l: usize| #[trigger] uses(i, l) implies available(
        g,
        live,
        IrOperand::Local(l),
    ) by {
        assert(v == Some(IrOperand::Local(l)));
    }
    emit_fine(g, live, i);
}

proof fn jump_leads(g: GenV, live: Set<usize>, target: usize)
    requires
        fine(g, live),
        target < g.b.block_counter,
        live.contains(target) || !started(g, target),
    ensures
        further(g, live, g.emit(InstV::Jump { target })),
        g.emit(InstV::Jump { target }).b.terminated,
        awaited(g.emit(InstV::Jump { target }), target),
{
    let i = InstV::Jump { target };
    assert(ir::inst_operands(i) == Seq::<IrOperand>::empty());
    emit_fine(g, live, i);
    emit_edges(g, i);
    assert(edge(g.emit(i).b.blocks, g.b.blocks.len() - 1, target));
}

proof fn jump_on_leads(g: GenV, live: Set<usize>, target: usize)
    requires
        tidy(g),
        sure(g, live),
        target < g.b.block_counter,
        live.contains(target) || !started(g, target),
    ensures
        further(g, live, translate::jump_on(g, target)),
        translate::jump_on(g, target).b.terminated,
        !g.b.terminated ==> awaited(translate::jump_on(g, target), target),
{
    if !g.b.terminated {
        jump_leads(g, live, target);
    }
}

proof fn branch_leads(g: GenV, live: Set<usize>, cond: IrOperand, yes: usize, no: usize)
    requires
        fine(g, live),
        available(g, live, cond),
        yes < g.b.block_counter,
        no < g.b.block_counter,
        !started(g, yes),
        !started(g, no),
    ensures
        ({
            let h = g.emit(InstV::Br { cond, then_bb: yes, else_bb: no });
            &&& further(g, live, h)
            &&& h.b.terminated
            &&& h.b.block_counter == g.b.block_counter
            &&& awaited(h, yes)
            &&& awaited(h, no)
        }),
{
    let br = InstV::Br { cond, then_bb: yes, else_bb: no };
    assert(ir::inst_operands(br) == seq![cond]);
    assert forall|l: usize| #[trigger] uses(br, l) implies available(
        g,
        live,
        IrOperand::Local(l),
    ) by {}
    emit_fine(g, live, br);
    emit_edges(g, br);
    let n = g.b.blocks.len() - 1;
    assert(edge(g.emit(br).b.blocks, n, yes));
    assert(edge(g.emit(br).b.blocks, n, no));
}

proof fn awaited_on(g: GenV, h: GenV, t: usize)
    requires
        kept(g, h),
        awaited(g, t),
    ensures
        awaited(h, t),
{
    let x = choose|x: int| #[trigger] edge(g.b.blocks, x, t);
    assert(edge(h.b.blocks, x, t));
}

/// The labels of the loops around may be gone to.
spec fn loops_live(g: GenV, live: Set<usize>) -> bool {
    forall|i: int|
        0 <= i < g.loops.len() ==> live.contains((#[trigger] g.loops[i]).0) && live.contains(
            g.loops[i].1,
        )
}

proof fn stmt_leads(g: GenV, live: Set<usize>, s: StmtV)
    requires
        fine(g, live),
        loops_live(g, live),
    ensures
        leads(g, live, translate::stmt(g, s)),
    decreases s, 1int,
{
    match s {
        StmtV::Return(None) => return_leads(g, live, None),
        StmtV::Return(Some(e)) => {
            expr_gives(g, live, e);
            if let Ok((g1, v)) = translate::expr(g, e) {
                onward_further(g, live, g1);
                return_leads(g1, live, Some(v));
            }
        },
        StmtV::Assign { name, index, expr } => assign_leads(g, live, name, index, expr),
        StmtV::Expr(e) => {
            expr_gives(g, live, e);
            if let Ok((g1, _)) = translate::expr(g, e) {
                onward_further(g, live, g1);
            }
        },
        StmtV::Block(items) => {
            let inner = GenV { scopes: g.scopes.push(Map::empty()), ..g };
            same_fine(g, inner, live);
            block_leads(inner, live, items, 0);
            if let Ok(g1) = translate::block(inner, items, 0) {
                same_fine(g1, GenV { scopes: g1.scopes.drop_last(), ..g1 }, live);
            }
        },
        StmtV::If { .. } => if_leads(g, live, s),
        StmtV::While { .. } => while_leads(g, live, s),
        StmtV::Break => {
            if g.loops.len() > 0 {
                let last = g.loops[g.loops.len() - 1];
                assert(last.1 < g.b.block_counter) by {
                    reveal(sure);
                }
                jump_leads(g, live, last.1);
            }
        },
        StmtV::Continue => {
            if g.loops.len() > 0 {
                let last = g.loops[g.loops.len() - 1];
                assert(last.0 < g.b.block_counter) by {
                    reveal(sure);
                }
                jump_leads(g, live, last.0);
            }
        },
        StmtV::Empty => {},
        StmtV::Asm(code) => {
            let i = InstV::Asm { dest: None, code };
            assert(ir::inst_operands(i) == Seq::<IrOperand>::empty());
            emit_fine(g, live, i);
        },
    }
}

proof fn if_leads(g: GenV, live: Set<usize>, s: StmtV)
    requires
        fine(g, live),
        loops_live(g, live),
        s is If,
    ensures
        leads(g, live, translate::stmt(g, s)),
    decreases s, 0int,
{
    if let StmtV::If { cond, then_branch, else_branch } = s {
        expr_gives(g, live, cond);
        if let Ok((g1, c)) = translate::expr(g, cond) {
            onward_further(g, live, g1);
            labels_tidy(g1);
            if let Ok((g2, (yes, no, end))) = g1.labels() {
                same_fine(g1, g2, live);
                let target = if else_branch is Some {
                    no
                } else {
                    end
                };
                branch_leads(g2, live, c, yes, target);
                let h = g2.emit(InstV::Br { cond: c, then_bb: yes, else_bb: target });
                assert(!started(h, yes) && !started(h, no) && !started(h, end));
                start_fine(h, live, yes);
                let g3 = h.start(yes);
                assert(kept(h, g3));
                awaited_on(h, g3, target);
                assert(!started(g3, no) && !started(g3, end));
                stmt_leads(g3, live, *then_branch);
                if let Ok(g4) = translate::stmt(g3, *then_branch) {
                    awaited_on(g3, g4, target);
                    assert(!started(g4, no) && !started(g4, end));
                    jump_on_leads(g4, live, end);
                    let g5 = translate::jump_on(g4, end);
                    awaited_on(g4, g5, target);
                    assert(!started(g5, no) && !started(g5, end));
                    match else_branch {
                        None => {
                            start_fine(g5, live, end);
                            assert(later(g, g5.start(end)));
                            assert(kept(g, g5.start(end)));
                        },
                        Some(els) => {
                            start_fine(g5, live, no);
                            let g51 = g5.start(no);
                            assert(!started(g51, end));
                            stmt_leads(g51, live, *els);
                            if let Ok(g6) = translate::stmt(g51, *els) {
                                assert(later(g, g6));
                                assert(kept(g, g6));
                                assert(!started(g6, end));
                                jump_on_leads(g6, live, end);
                                let g7 = translate::jump_on(g6, end);
                                assert(!started(g7, end));
                                if !g4.b.terminated {
                                    awaited_on(g5, g51, end);
                                    awaited_on(g51, g6, end);
                                    awaited_on(g6, g7, end);
                                }
                                if !(g4.b.terminated && g6.b.terminated) {
                                    start_fine(g7, live, end);
                                    assert(later(g, g7.start(end)));
                                    assert(kept(g, g7.start(end)));
                                }
                            }
                        },
                    }
                }
            }
        }
    }
}

proof fn while_leads(g: GenV, live: Set<usize>, s: StmtV)
    requires
        fine(g, live),
        loops_live(g, live),
        s is While,
    ensures
        leads(g, live, translate::stmt(g, s)),
    decreases s, 0int,
{
    if let StmtV::While { cond, body } = s {
        labels_tidy(g);
        if let Ok((g1, (top, inside, end))) = g.labels() {
            same_fine(g, g1, live);
            let more = live.insert(top).insert(end);
            assert forall|t: usize| #[trigger] more.contains(t) implies t < g1.b.block_counter && (
            live.contains(t) || !started(g1, t)) by {
                reveal(sure);
            }
            widened(g1, live, more);
            jump_leads(g1, more, top);
            let h = g1.emit(InstV::Jump { target: top });
            assert(!started(h, top) && !started(h, inside) && !started(h, end));
            start_fine(h, more, top);
            let h1 = h.start(top);
            assert(!started(h1, inside) && !started(h1, end));
            expr_gives(h1, more, cond);
            if let Ok((g2, c)) = translate::expr(h1, cond) {
                onward_further(h1, more, g2);
                assert(!started(g2, inside) && !started(g2, end));
                branch_leads(g2, more, c, inside, end);
                let g3 = g2.emit(InstV::Br { cond: c, then_bb: inside, else_bb: end });
                let inner = GenV { loops: g3.loops.push((top, end)), ..g3 };
                same_fine(g3, inner, more);
                awaited_on(g3, inner, inside);
                awaited_on(g3, inner, end);
                assert(!started(inner, inside) && !started(inner, end));
                start_fine(inner, more, inside);
                let g4 = inner.start(inside);
                awaited_on(inner, g4, end);
                assert(!started(g4, end));
                assert(loops_live(g4, more)) by {
                    assert forall|i: int| 0 <= i < g4.loops.len() implies more.contains(
                        (#[trigger] g4.loops[i]).0,
                    ) && more.contains(g4.loops[i].1) by {
                        if i < g.loops.len() {
                            assert(g4.loops[i] == g.loops[i]);
                        }
                    }
                }
                stmt_leads(g4, more, *body);
                if let Ok(g5) = translate::stmt(g4, *body) {
                    awaited_on(g4, g5, end);
                    assert(!started(g5, end));
                    jump_on_leads(g5, more, top);
                    let g6 = translate::jump_on(g5, top);
                    awaited_on(g5, g6, end);
                    let g7 = GenV { loops: g5.loops.drop_last(), ..g6 };
                    same_fine(g6, g7, more);
                    awaited_on(g6, g7, end);
                    assert(!started(g7, end));
                    assert forall|t: usize| #[trigger] live.contains(t) implies t
                        < g7.b.block_counter by {
                        reveal(sure);
                        assert(more.contains(t));
                    }
                    widened(g7, more, live);
                    start_fine(g7, live, end);
                    assert(g7.loops =~= g.loops);
                    assert(later(g, g7.start(end)));
                    assert(kept(g, g7.start(end)));
                }
            }
        }
    }
}

proof fn block_leads(g: GenV, live: Set<usize>, items: Seq<BlockItemV>, k: int)
    requires
        tidy(g),
        sure(g, live),
        loops_live(g, live),
    ensures
        leads(g, live, translate::block(g, items, k)),
    decreases items, items.len() - k,
{
    if 0 <= k < items.len() && !g.b.terminated {
        match items[k] {
            BlockItemV::Stmt(s) => {
                stmt_leads(g, live, s);
                if let Ok(g1) = translate::stmt(g, s) {
                    block_leads(g1, live, items, k + 1);
                }
            },
            BlockItemV::Decl(d) => {
                match d {
                    DeclV::Const(defs) => const_defs_stay(g, live, defs, 0),
                    DeclV::Var(defs) => var_defs_stay(g, live, defs, 0),
                }
                if let Ok(g1) = translate::decl(g, d) {
                    block_leads(g1, live, items, k + 1);
                }
            },
        }
    }
}

// ── Functions and programs ───────────────────────────────────────────────────

proof fn param_fine(g: GenV, live: Set<usize>, p: FuncParamV)
    requires
        fine(g, live),
    ensures
        translate::param(g, p) matches Ok((h, _)) ==> fine(h, live) && further(g, live, h),
{
    named_fine(g, live, p.name);
    if let Ok((g1, first)) = g.local_name(p.name) {
        if p.is_array {
            if let Ok((h, _)) = translate::param(g, p) {
                same_fine(g1, h, live);
            }
        } else if let Ok((g2, second)) = g1.mangle(p.name) {
            if let Ok((g3, sig)) = g2.intern(first) {
                if let Ok((g4, n)) = g3.intern(second) {
                    same_fine(g1, g3, live);
                    index_is_own(g3, live, second);
                    let g5 = g4.pend(n, IrType::I32);
                    same_fine(g1, g5, live);
                    let value = IrOperand::Global(sig);
                    let ptr = IrOperand::Global(n);
                    plain_available(g5, live, value);
                    plain_available(g5, live, ptr);
                    store_fine(g5, live, value, ptr);
                    let g6 = g5.emit(InstV::Store { value, ptr });
                    same_fine(g6, g6.bind(p.name, SymV::Var(n)), live);
                }
            }
        }
    }
}

proof fn params_fine(
    g: GenV,
    live: Set<usize>,
    ps: Seq<FuncParamV>,
    k: int,
    done: Seq<(usize, IrType)>,
)
    requires
        fine(g, live),
    ensures
        translate::params(g, ps, k, done) matches Ok((h, _)) ==> fine(h, live) && further(
            g,
            live,
            h,
        ),
    decreases ps.len() - k,
{
    if 0 <= k < ps.len() {
        param_fine(g, live, ps[k]);
        if let Ok((g1, q)) = translate::param(g, ps[k]) {
            params_fine(g1, live, ps, k + 1, done.push(q));
        }
    }
}

/// A function whose SSA values are computed on all ways to where they are used, and whose blocks
/// can be reached.
spec fn flows(f: FuncV) -> bool {
    &&& f.blocks.len() <= usize::MAX
    &&& forall|k: int| 0 < k < f.blocks.len() ==> #[trigger] led(f.blocks, k)
    &&& forall|c: int, i: int, l: usize|
        0 <= c < f.blocks.len() && 0 <= i < f.blocks[c].instrs.len() && #[trigger] uses(
            f.blocks[c].instrs[i],
            l,
        ) ==> served(f.blocks, Set::empty(), c, i, l)
}

/// Whether the variables of a function have indices from an index on.
spec fn vars_from(f: FuncV, n: int) -> bool {
    forall|b: int, i: int|
        0 <= b < f.blocks.len() && 0 <= i < f.blocks[b].instrs.len() ==> (
        #[trigger] f.blocks[b].instrs[i] matches InstV::Alloc { dest, .. } ==> dest >= n)
}

/// There are no more blocks than labels.
proof fn blocks_fit(blocks: Seq<BlockV>, n: int)
    requires
        0 <= n,
        forall|a: int, b: int|
            0 <= a < b < blocks.len() ==> (#[trigger] blocks[a]).label != (
            #[trigger] blocks[b]).label,
        forall|b: int| 0 <= b < blocks.len() ==> (#[trigger] blocks[b]).label < n,
    ensures
        blocks.len() <= n,
{
    let labels = Seq::new(blocks.len(), |b: int| blocks[b].label as int);
    assert(labels.no_duplicates());
    labels.unique_seq_to_set();
    let all = vstd::set_lib::set_int_range(0, n);
    vstd::set_lib::lemma_int_range(0, n);
    assert(labels.to_set().subset_of(all)) by {
        assert forall|t: int| labels.to_set().contains(t) implies all.contains(t) by {
            let b = choose|b: int| 0 <= b < labels.len() && labels[b] == t;
            assert(blocks[b].label == t);
        }
    }
    vstd::set_lib::lemma_len_subset(labels.to_set(), all);
}

/// The variables that are set up at the start of a function change nothing about its branches.
proof fn built_flows(g: GenV, ps: Seq<(usize, IrType)>)
    requires
        tidy(g),
        g.b.terminated,
        sure(g, Set::empty()),
    ensures
        flows((FuncV { params: ps, ..g.b.built() })),
        vars_from((FuncV { params: ps, ..g.b.built() }), floor(g)),
{
    reveal(tidy);
    reveal(sure);
    let f = FuncV { params: ps, ..g.b.built() };
    let old = g.b.blocks;
    let new = f.blocks;
    let vars = ir_builder::allocs(g.b.pending);
    let m = vars.len() as int;
    blocks_fit(old, g.b.block_counter as int);
    assert(new.len() == old.len());
    assert(new[0].instrs == vars + old[0].instrs);
    assert forall|b: int| 0 < b < old.len() implies #[trigger] new[b] == old[b] by {}
    assert forall|b: int| 0 <= b < old.len() implies (#[trigger] new[b]).label == old[b].label by {}
    assert(translation_blocks::block_ends(old[0])) by {
        if old.len() > 1 {
            assert(translation_blocks::block_ends(old[0]));
        }
    }
    assert(new[0].instrs.last() == old[0].instrs.last());
    assert forall|b: int, i: int|
        0 <= b < new.len() && 0 <= i < new[b].instrs.len() implies (
    #[trigger] new[b].instrs[i] matches InstV::Alloc { dest, .. } ==> dest >= floor(g)) by {
        if b == 0 && i < m {
            assert(new[0].instrs[i] == vars[i]);
            assert(g.b.pending[i].0 >= floor(g));
        } else if b == 0 {
            assert(new[0].instrs[i] == old[0].instrs[i - m]);
        } else {
            assert(new[b].instrs[i] == old[b].instrs[i]);
        }
    }
    assert forall|x: int, t: usize| #[trigger] edge(new, x, t) <==> edge(old, x, t) by {
        if 0 < x < old.len() {
            assert(new[x] == old[x]);
        }
    }
    assert forall|k: int| 0 < k < new.len() implies #[trigger] led(new, k) by {
        assert(led(old, k));
        let x = choose|x: int| x < k && #[trigger] edge(old, x, old[k].label);
        assert(edge(new, x, new[k].label));
    }
    assert forall|c: int, i: int, l: usize|
        0 <= c < new.len() && 0 <= i < new[c].instrs.len() && #[trigger] uses(
            new[c].instrs[i],
            l,
        ) implies served(new, Set::empty(), c, i, l) by {
        let shift = if c == 0 {
            m
        } else {
            0
        };
        if c == 0 && i < m {
            assert(new[0].instrs[i] == vars[i]);
            assert(vars[i] is Alloc);
            assert(ir::inst_operands(vars[i]) == Seq::<IrOperand>::empty());
        } else {
            let i0 = i - shift;
            assert(new[c].instrs[i] == old[c].instrs[i0]);
            assert(served(old, Set::empty(), c, i0, l));
            let (b, j) = choose|b: int, j: int| #[trigger]
                defined_at(old, b, j, l) && ((b == c && j < i0) || (b < c && reaches(
                    old,
                    Set::empty(),
                    b,
                    c,
                )));
            let j1 = if b == 0 {
                j + m
            } else {
                j
            };
            assert(new[b].instrs[j1] == old[b].instrs[j]);
            assert(defined_at(new, b, j1, l));
            if b < c {
                reveal(reaches);
                assert forall|k: int, x: int|
                    b < k <= c && #[trigger] edge(
                        new,
                        x,
                        (#[trigger] new[k]).label,
                    ) implies b <= x < c by {
                    assert(edge(old, x, old[k].label));
                }
                assert(reaches(new, Set::empty(), b, c));
            }
        }
    }
}

proof fn func_flows(g: GenV, f: FuncDefV)
    ensures
        translate::func(g, f) matches Ok(h) ==> {
            let new = h.program.funcs.last();
            &&& h.program.funcs == g.program.funcs.push(new)
            &&& flows(new)
            &&& vars_from(new, g.program.global_names.len() as int)
        },
{
    if g.program.block_names.len() < usize::MAX && g.program.global_names.len() <= usize::MAX {
        let none = Set::<usize>::empty();
        let g0 = translate::enter(g, f);
        assert(fine(g0, none)) by {
            reveal(tidy);
            reveal(sure);
        }
        params_fine(g0, none, f.params, 0, Seq::empty());
        if let Ok((g1, ps)) = translate::params(g0, f.params, 0, Seq::empty()) {
            translation_blocks::lib_block_apart(g1, f.body, 0);
            let g2 = translate::lib_block(g1, f.body, 0);
            same_fine(g1, g2, none);
            assert(loops_live(g2, none));
            block_leads(g2, none, f.body, 0);
            if let Ok(g3) = translate::block(g2, f.body, 0) {
                if !g3.b.terminated {
                    return_leads(g3, none, None);
                    plain_available(g3, none, IrOperand::Int(0));
                    return_leads(g3, none, Some(IrOperand::Int(0)));
                }
                let done = if g3.b.terminated {
                    g3
                } else if g3.ret_type is Void {
                    g3.emit(InstV::Ret { value: None })
                } else {
                    g3.emit(InstV::Ret { value: Some(IrOperand::Int(0)) })
                };
                built_flows(done, ps);
                let h = translate::leave(g3, ps);
                let new = FuncV { params: ps, ..done.b.built() };
                assert(h.program.funcs == g.program.funcs.push(new));
                assert(h.program.funcs.last() == new);
                assert(floor(done) == g.program.global_names.len());
            }
        }
    }
}

proof fn functions_flow(g: GenV, items: Seq<GlobalItemV>, k: int)
    requires
        forall|i: int| 0 <= i < g.program.funcs.len() ==> flows(#[trigger] g.program.funcs[i]),
    ensures
        translate::functions(g, items, k) matches Ok(h) ==> forall|i: int|
            0 <= i < h.program.funcs.len() ==> flows(#[trigger] h.program.funcs[i]),
    decreases items.len() - k,
{
    if 0 <= k < items.len() {
        match items[k] {
            GlobalItemV::FuncDef(f) => {
                func_flows(g, f);
                if let Ok(g1) = translate::func(g, f) {
                    functions_flow(g1, items, k + 1);
                }
            },
            _ => functions_flow(g, items, k + 1),
        }
    }
}

/// A block is where its label is found.
proof fn found_there(f: FuncV, k: int)
    requires
        translation_blocks::func_ends(f),
        f.blocks.len() <= usize::MAX,
        0 <= k < f.blocks.len(),
    ensures
        cfg::label_position(f.blocks, f.blocks[k].label) == Some(k as usize),
{
    cfg::label_position_is_last(f.blocks, f.blocks[k].label);
    if let Some(i) = cfg::label_position(f.blocks, f.blocks[k].label) {
        if i < k {
            assert(f.blocks[i as int].label != f.blocks[k].label);
        }
    } else {
        assert(f.blocks[k].label != f.blocks[k].label);
    }
}

/// A branch to a block makes a predecessor.
proof fn edge_is_pred(f: FuncV, x: int, k: int) -> (i: int)
    requires
        translation_blocks::func_ends(f),
        f.blocks.len() <= usize::MAX,
        0 <= k < f.blocks.len(),
        edge(f.blocks, x, f.blocks[k].label),
    ensures
        0 <= i < promotion::func_preds(f.blocks)[k].len(),
        promotion::func_preds(f.blocks)[k][i] == x,
{
    found_there(f, k);
    assert(translation_blocks::block_ends(f.blocks[x]));
    promotion_meaning::branch_is_edge(f.blocks, x, f.blocks[k].label, k as usize);
    let all = cfg::preds(f.blocks, k);
    choose|i: int| 0 <= i < all.len() && all[i] == x as usize
}

/// A predecessor makes a branch.
proof fn pred_is_edge(f: FuncV, k: int, i: int)
    requires
        translation_blocks::func_ends(f),
        f.blocks.len() <= usize::MAX,
        0 <= k < f.blocks.len(),
        0 <= i < promotion::func_preds(f.blocks)[k].len(),
    ensures
        edge(
            f.blocks,
            promotion::func_preds(f.blocks)[k][i] as int,
            f.blocks[k].label,
        ),
{
    let all = cfg::preds(f.blocks, k);
    let y = all[i];
    assert(all.contains(y));
    cfg::edges_have_two_ends(f.blocks, f.blocks.len() as int, y, k as usize);
    let labels = cfg::exits(f.blocks[y as int]);
    let m = thinning::position_has_label(f.blocks, labels, k as usize);
    cfg::label_position_is_last(f.blocks, labels[m]);
}

/// The blocks that are entered only from one another and from the first are dominated by it.
proof fn reached_through(f: FuncV, b: int, c: int, k: int, m: nat)
    requires
        translation_blocks::func_ends(f),
        flows(f),
        reaches(f.blocks, Set::empty(), b, c),
        b < k <= c,
    ensures
        !domtree::avoids(promotion::func_preds(f.blocks), b, k, m),
    decreases m,
{
    reveal(reaches);
    let preds = promotion::func_preds(f.blocks);
    assert(led(f.blocks, k));
    let x = choose|x: int| x < k && #[trigger] edge(f.blocks, x, f.blocks[k].label);
    let at = edge_is_pred(f, x, k);
    if domtree::avoids(preds, b, k, m) {
        let i = choose|i: int|
            0 <= i < preds[k].len() && domtree::avoids(
                preds,
                b,
                (#[trigger] preds[k][i]) as int,
                (m - 1) as nat,
            );
        pred_is_edge(f, k, i);
        let y = preds[k][i] as int;
        assert(edge(f.blocks, y, f.blocks[k].label));
        assert(b <= y < c);
        if y > b {
            reached_through(f, b, c, y, (m - 1) as nat);
        }
    }
}

proof fn reached_from_start(f: FuncV, k: int) -> (m: nat)
    requires
        translation_blocks::func_ends(f),
        flows(f),
        0 <= k < f.blocks.len(),
    ensures
        domtree::avoids(promotion::func_preds(f.blocks), -1, k, m),
    decreases k,
{
    if k == 0 {
        0
    } else {
        assert(led(f.blocks, k));
        let x = choose|x: int| x < k && #[trigger] edge(f.blocks, x, f.blocks[k].label);
        let m = reached_from_start(f, x);
        let at = edge_is_pred(f, x, k);
        let preds = promotion::func_preds(f.blocks);
        assert(domtree::avoids(preds, -1, preds[k][at] as int, m));
        m + 1
    }
}

proof fn flows_is_plain(f: FuncV)
    requires
        translation_blocks::func_ends(f),
        flows(f),
        numbering_meaning::defined_once(f.blocks),
    ensures
        promotion_values::used_below(f.blocks),
        promoted_form::all_reachable(f),
{
    let blocks = f.blocks;
    let preds = promotion::func_preds(blocks);
    assert forall|k: int| 0 <= k < blocks.len() implies #[trigger] domtree::reachable(
        preds,
        k,
    ) by {
        let m = reached_from_start(f, k);
        assert(domtree::avoids(preds, -1, k, m));
    }
    assert forall|b: int, j: int, c: int, i: int, l: usize|
        0 <= b < blocks.len() && 0 <= j < blocks[b].instrs.len() && 0 <= c < blocks.len() && 0 <= i
            < blocks[c].instrs.len() && #[trigger] defines(blocks[b].instrs[j], l)
            && #[trigger] uses(blocks[c].instrs[i], l) implies (b == c && j < i) || (b != c
        && domtree::dominates(preds, b, c)) by {
        assert(served(blocks, Set::empty(), c, i, l));
        let (d, n) = choose|d: int, n: int| #[trigger]
            defined_at(blocks, d, n, l) && ((d == c && n < i) || (d < c && reaches(
                blocks,
                Set::empty(),
                d,
                c,
            )));
        assert(defines(blocks[d].instrs[n], l));
        assert(d == b && n == j);
        if b < c {
            assert forall|m: nat| !#[trigger] domtree::avoids(preds, b, c, m) by {
                reached_through(f, b, c, c, m);
            }
        }
    }
}

/// A variable that instructions allocate is that of one of them.
proof fn allocated(instrs: Seq<InstV>, v: usize)
    requires
        promotion::int_vars(instrs).contains(v),
    ensures
        exists|i: int|
            0 <= i < instrs.len() && (#[trigger] instrs[i] matches InstV::Alloc { dest, .. } && dest
                == v),
    decreases instrs.len(),
{
    if instrs.len() > 0 {
        let front = instrs.drop_last();
        let n = instrs.len() - 1;
        if promotion::int_vars(front).contains(v) {
            allocated(front, v);
            let i = choose|i: int|
                0 <= i < front.len() && (#[trigger] front[i] matches InstV::Alloc { dest, .. }
                    && dest == v);
            assert(instrs[i] == front[i]);
        } else {
            let all = promotion::int_vars(instrs);
            let k = choose|k: int| 0 <= k < all.len() && all[k] == v;
            if k < promotion::int_vars(front).len() {
                assert(promotion::int_vars(front)[k] == v);
            }
            assert(instrs[n] is Alloc);
        }
    }
}

proof fn allocated_in(f: FuncV, n: int, k: int, v: usize)
    requires
        vars_from(f, n),
        0 <= k <= f.blocks.len(),
        promotion::block_vars(f.blocks, k).contains(v),
    ensures
        v >= n,
    decreases k,
{
    if k > 0 {
        let before = promotion::block_vars(f.blocks, k - 1);
        let last = promotion::int_vars(f.blocks[k - 1].instrs);
        let all = promotion::block_vars(f.blocks, k);
        let i = choose|i: int| 0 <= i < all.len() && all[i] == v;
        if i < before.len() {
            assert(before[i] == v);
            allocated_in(f, n, k - 1, v);
        } else {
            assert(last[i - before.len()] == v);
            allocated(f.blocks[k - 1].instrs, v);
        }
    }
}

/// What is kept of a list is in the list.
proof fn kept_is_there(all: Seq<usize>, pred: spec_fn(usize) -> bool, v: usize)
    requires
        all.filter(pred).contains(v),
    ensures
        all.contains(v),
    decreases all.len(),
{
    reveal(Seq::filter);
    if all.len() > 0 {
        let front = all.drop_last();
        let kept = all.filter(pred);
        let i = choose|i: int| 0 <= i < kept.len() && kept[i] == v;
        if i < front.filter(pred).len() {
            assert(front.filter(pred)[i] == v);
            kept_is_there(front, pred, v);
            let k = choose|k: int| 0 <= k < front.len() && front[k] == v;
            assert(all[k] == v);
        } else {
            assert(all[all.len() - 1] == v);
        }
    }
}

/// The variables of a translated function that are only loaded and stored are new in it.
pub(crate) proof fn promotable_is_new(g: GenV, f: FuncDefV)
    requires
        translate::func(g, f) is Ok,
    ensures
        forall|v: usize| #[trigger]
            promotion::promotable(translate::func(g, f)->Ok_0.program.funcs.last().blocks).contains(
                v,
            ) ==> v >= g.program.global_names.len(),
{
    func_flows(g, f);
    let code = translate::func(g, f)->Ok_0.program.funcs.last();
    let n = g.program.global_names.len() as int;
    let all = promotion::block_vars(code.blocks, code.blocks.len() as int);
    let kept = promotion::promotable(code.blocks);
    assert forall|v: usize| #[trigger] kept.contains(v) implies v >= n by {
        kept_is_there(all, |g: usize| promotion::only_moved(code.blocks, g), v);
        allocated_in(code, n, code.blocks.len() as int, v);
    }
}

/// In every function of a translated program each SSA value is used only where its definition has
/// been passed on every way there, and every block can be reached.
pub proof fn translated_is_plain(items: Seq<GlobalItemV>)
    requires
        translate::program(items) is Ok,
    ensures
        forall|x: int|
            0 <= x < translate::program(items)->Ok_0.funcs.len() ==> ({
                let f = #[trigger] translate::program(items)->Ok_0.funcs[x];
                &&& promotion_values::used_below(f.blocks)
                &&& promoted_form::all_reachable(f)
                &&& f.blocks.len() <= usize::MAX
            }),
{
    let g = translate::start();
    translation_blocks::signatures_apart(g, items, 0);
    translation_blocks::translated_blocks_end(items);
    translation_links::translated_is_linked(items);
    if let Ok(g1) = translate::signatures(g, items, 0) {
        functions_flow(g1, items, 0);
    }
    let p = translate::program(items)->Ok_0;
    assert forall|x: int| 0 <= x < p.funcs.len() implies promotion_values::used_below(
        (#[trigger] p.funcs[x]).blocks,
    ) && promoted_form::all_reachable(p.funcs[x]) && p.funcs[x].blocks.len() <= usize::MAX by {
        flows_is_plain(p.funcs[x]);
    }
}

} // verus!

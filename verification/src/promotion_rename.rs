//! What renaming makes of the blocks of a function: phis with the values that come in, and the
//! instructions with the values of promoted variables in place.

use crate::ir::{BlockV, InstV, IrOperand};
use crate::promotion::{self, Env, Phis, RenameV};
use crate::promotion_tree;
use crate::ssa;
use vstd::prelude::*;

verus! {

// ── Values of variables ──────────────────────────────────────────────────────

/// The values of variables that a block `k` levels below the entry has from above.
pub open spec fn env_above(r: RenameV, idom: Seq<usize>, x: int, k: nat) -> Env
    decreases k,
{
    if k == 0 {
        Seq::empty()
    } else {
        let u = idom[x] as int;
        promotion::renamed(
            r.promoted,
            r.blocks[u].instrs,
            (env_above(r, idom, u, (k - 1) as nat) + promotion::phi_values(r.phis[u]), Seq::empty()),
        ).0
    }
}

/// The values of variables at the start of a block `k` levels below the entry.
pub open spec fn env_start(r: RenameV, idom: Seq<usize>, x: int, k: nat) -> Env {
    env_above(r, idom, x, k) + promotion::phi_values(r.phis[x])
}

/// The values of variables at the end of a block `k` levels below the entry, and its instructions.
pub open spec fn renamed_block(r: RenameV, idom: Seq<usize>, x: int, k: nat) -> (Env, Seq<InstV>) {
    promotion::renamed(
        r.promoted,
        r.blocks[x].instrs,
        (env_start(r, idom, x, k), Seq::empty()),
    )
}

/// The depth of a block in the tree.
pub open spec fn depth_of(idom: Seq<usize>, x: int) -> nat {
    choose|k: nat| promotion_tree::at_depth(idom, x, k)
}

/// The values of variables at the end of a block of the tree.
pub open spec fn env_end(r: RenameV, idom: Seq<usize>, x: int) -> Env {
    renamed_block(r, idom, x, depth_of(idom, x)).0
}

/// The instructions of a block of the tree, without phis.
pub open spec fn body(r: RenameV, idom: Seq<usize>, x: int) -> Seq<InstV> {
    renamed_block(r, idom, x, depth_of(idom, x)).1
}

/// The depth of a block is the depth that it is at.
pub(crate) proof fn depth_is(idom: Seq<usize>, x: int, k: nat)
    requires
        promotion_tree::at_depth(idom, x, k),
    ensures
        depth_of(idom, x) == k,
{
    promotion_tree::depth_unique(idom, x, depth_of(idom, x), k);
}

/// Renaming adds to the instructions that are there.
proof fn renamed_adds(promoted: Seq<usize>, instrs: Seq<InstV>, env: Env, out: Seq<InstV>)
    ensures
        promotion::renamed(promoted, instrs, (env, out)).0 == promotion::renamed(
            promoted,
            instrs,
            (env, Seq::empty()),
        ).0,
        promotion::renamed(promoted, instrs, (env, out)).1 == out + promotion::renamed(
            promoted,
            instrs,
            (env, Seq::empty()),
        ).1,
    decreases instrs.len(),
{
    if instrs.len() > 0 {
        renamed_adds(promoted, instrs.drop_last(), env, out);
    }
    assert(promotion::renamed(promoted, instrs, (env, out)).1 =~= out + promotion::renamed(
        promoted,
        instrs,
        (env, Seq::empty()),
    ).1);
}

// ── Phis ─────────────────────────────────────────────────────────────────────

/// Whether a block leads to another; `b` so far only to the first `done` of its successors.
pub open spec fn leads_to(r: RenameV, b: int, done: int, p: int, x: int) -> bool {
    0 <= p < r.succ.len() && r.succ[p].contains(x as usize) && (p != b || r.succ[b].take(
        done,
    ).contains(x as usize))
}

/// Whether the `k`th phi of a block has, for each of some blocks that lead to the block, the value
/// of its variable at the end of that block.
pub open spec fn phi_filled(
    r: RenameV,
    idom: Seq<usize>,
    v: Set<int>,
    b: int,
    done: int,
    x: int,
    k: int,
    i: InstV,
) -> bool {
    &&& i matches InstV::Phi { dest, incoming } && {
        &&& dest == r.phis[x][k].1
        &&& forall|e: int|
            0 <= e < incoming.len() ==> v.contains((#[trigger] incoming[e]).1 as int)
                && incoming[e].0 == promotion::value_of(
                env_end(r, idom, incoming[e].1 as int),
                r.phis[x][k].0,
            )
        &&& forall|p: int|
            v.contains(p) && #[trigger] leads_to(r, b, done, p, x) ==> exists|e: int|
                0 <= e < incoming.len() && (#[trigger] incoming[e]).1 == p
    }
}

/// Whether a block is as renaming leaves it once some blocks have been renamed.
pub open spec fn block_renamed(
    r: RenameV,
    idom: Seq<usize>,
    v: Set<int>,
    b: int,
    done: int,
    x: int,
    new: BlockV,
) -> bool {
    &&& new.label == r.blocks[x].label
    &&& new.instrs.len() >= r.phis[x].len()
    &&& forall|k: int|
        0 <= k < r.phis[x].len() ==> phi_filled(
            r,
            idom,
            v,
            b,
            done,
            x,
            k,
            #[trigger] new.instrs[k],
        )
    &&& new.instrs.skip(r.phis[x].len() as int) == if v.contains(x) {
        body(r, idom, x)
    } else {
        Seq::empty()
    }
}

/// Whether all blocks are as renaming leaves them once some blocks have been renamed.
pub open spec fn progress(
    r: RenameV,
    idom: Seq<usize>,
    v: Set<int>,
    b: int,
    done: int,
    new: Seq<BlockV>,
) -> bool {
    &&& new.len() == r.blocks.len()
    &&& forall|x: int|
        0 <= x < new.len() ==> block_renamed(r, idom, v, b, done, x, #[trigger] new[x])
}

/// What renaming works from is what the graph and the placing of phis give.
pub open spec fn prepared(r: RenameV, idom: Seq<usize>) -> bool {
    let n = r.blocks.len();
    &&& 0 < n <= usize::MAX
    &&& idom.len() == n
    &&& r.phis.len() == n
    &&& r.succ.len() == n
    &&& r.children.len() == n
    &&& forall|p: int|
        0 <= p < n ==> #[trigger] r.children[p] == ssa::children_below(idom, n as int, p)
    &&& forall|p: int, i: int|
        0 <= p < n && 0 <= i < r.succ[p].len() ==> #[trigger] r.succ[p][i] < n
    &&& forall|b: int, k: int, j: int|
        0 <= b < n && 0 <= k < r.phis[b].len() && 0 <= j < r.phis[b].len() && (
        #[trigger] r.phis[b][k]).1 == (#[trigger] r.phis[b][j]).1 ==> k == j
}

/// The first phi with a value gets the incoming value.
proof fn incoming_goes_to(instrs: Seq<InstV>, k: int, dest: usize, v: IrOperand, from: usize)
    requires
        0 <= k < instrs.len(),
        instrs[k] matches InstV::Phi { dest: d, .. } && d == dest,
        forall|i: int|
            0 <= i < k ==> !(#[trigger] instrs[i] matches InstV::Phi { dest: d, .. } && d == dest),
    ensures
        promotion::with_incoming(instrs, dest, v, from) == instrs.update(
            k,
            InstV::Phi { dest, incoming: instrs[k]->Phi_incoming.push((v, from)) },
        ),
    decreases k,
{
    if k > 0 {
        let rest = instrs.drop_first();
        assert forall|i: int| 0 <= i < k - 1 implies !(#[trigger] rest[i] matches InstV::Phi {
            dest: d,
            ..
        } && d == dest) by {
            assert(rest[i] == instrs[i + 1]);
        }
        assert(!(instrs[0] matches InstV::Phi { dest: d, .. } && d == dest));
        incoming_goes_to(rest, k - 1, dest, v, from);
        assert(seq![instrs[0]] + rest.update(
            k - 1,
            InstV::Phi { dest, incoming: rest[k - 1]->Phi_incoming.push((v, from)) },
        ) =~= instrs.update(
            k,
            InstV::Phi { dest, incoming: instrs[k]->Phi_incoming.push((v, from)) },
        ));
    }
}

/// Whether a list of instructions starts with phis of the given values.
spec fn starts_with(instrs: Seq<InstV>, phis: Phis) -> bool {
    &&& instrs.len() >= phis.len()
    &&& forall|i: int|
        0 <= i < phis.len() ==> (#[trigger] instrs[i] matches InstV::Phi { dest, .. } && dest
            == phis[i].1)
}

/// Each phi of a block from the `k`th on gets an incoming value.
proof fn values_come_in(b: BlockV, phis: Phis, k: int, env: Env, from: usize)
    requires
        0 <= k <= phis.len(),
        starts_with(b.instrs, phis),
        forall|i: int, j: int|
            0 <= i < phis.len() && 0 <= j < phis.len() && (#[trigger] phis[i]).1 == (
            #[trigger] phis[j]).1 ==> i == j,
    ensures
        ({
            let new = promotion::with_values(b, phis, k, env, from);
            &&& new.label == b.label
            &&& new.instrs.len() == b.instrs.len()
            &&& forall|i: int|
                0 <= i < b.instrs.len() && (i < k || i >= phis.len()) ==> #[trigger] new.instrs[i]
                    == b.instrs[i]
            &&& forall|i: int|
                k <= i < phis.len() ==> #[trigger] new.instrs[i] == (InstV::Phi {
                    dest: phis[i].1,
                    incoming: b.instrs[i]->Phi_incoming.push(
                        (promotion::value_of(env, phis[i].0), from),
                    ),
                })
        }),
    decreases phis.len() - k,
{
    if k < phis.len() {
        let v = promotion::value_of(env, phis[k].0);
        assert forall|i: int| 0 <= i < k implies !(#[trigger] b.instrs[i] matches InstV::Phi {
            dest: d,
            ..
        } && d == phis[k].1) by {
            assert(phis[i].1 == phis[k].1 ==> i == k);
        }
        incoming_goes_to(b.instrs, k, phis[k].1, v, from);
        let next = BlockV {
            instrs: promotion::with_incoming(b.instrs, phis[k].1, v, from),
            ..b
        };
        values_come_in(next, phis, k + 1, env, from);
    }
}

/// Once a block has been renamed, its values come in at each of its successors.
proof fn filled_in(r: RenameV, idom: Seq<usize>, v: Set<int>, b: int, k: int, new: Seq<BlockV>)
    requires
        prepared(r, idom),
        0 <= b < r.blocks.len(),
        v.contains(b),
        0 <= k <= r.succ[b].len(),
        progress(r, idom, v, b, k, new),
    ensures
        progress(
            r,
            idom,
            v,
            b,
            r.succ[b].len() as int,
            promotion::filled(r, b, k, env_end(r, idom, b), new),
        ),
    decreases r.succ[b].len() - k,
{
    if k < r.succ[b].len() {
        let s = r.succ[b][k] as int;
        let env = env_end(r, idom, b);
        let phis = r.phis[s];
        assert(block_renamed(r, idom, v, b, k, s, new[s]));
        assert(starts_with(new[s].instrs, phis)) by {
            assert forall|i: int| 0 <= i < phis.len() implies (
            #[trigger] new[s].instrs[i] matches InstV::Phi { dest, .. } && dest == phis[i].1) by {
                assert(phi_filled(r, idom, v, b, k, s, i, new[s].instrs[i]));
            }
        }
        assert forall|i: int, j: int|
            0 <= i < phis.len() && 0 <= j < phis.len() && (#[trigger] phis[i]).1 == (
            #[trigger] phis[j]).1 implies i == j by {
            assert(r.phis[s][i].1 == r.phis[s][j].1);
        }
        values_come_in(new[s], phis, 0, env, b as usize);
        let w = promotion::with_values(new[s], phis, 0, env, b as usize);
        let next = new.update(s, w);
        let now = r.succ[b].take(k + 1);
        let before = r.succ[b].take(k);
        assert forall|x: int| 0 <= x < next.len() implies block_renamed(
            r,
            idom,
            v,
            b,
            k + 1,
            x,
            #[trigger] next[x],
        ) by {
            assert(block_renamed(r, idom, v, b, k, x, new[x]));
            if x == s {
                assert(w.instrs.skip(phis.len() as int) =~= new[s].instrs.skip(phis.len() as int));
                assert forall|i: int| 0 <= i < phis.len() implies phi_filled(
                    r,
                    idom,
                    v,
                    b,
                    k + 1,
                    x,
                    i,
                    #[trigger] w.instrs[i],
                ) by {
                    let old_phi = new[s].instrs[i];
                    assert(phi_filled(r, idom, v, b, k, s, i, old_phi));
                    let old_in = old_phi->Phi_incoming;
                    let new_in = w.instrs[i]->Phi_incoming;
                    assert(new_in == old_in.push((promotion::value_of(env, phis[i].0), b as usize)));
                    assert forall|e: int| 0 <= e < new_in.len() implies v.contains(
                        (#[trigger] new_in[e]).1 as int,
                    ) && new_in[e].0 == promotion::value_of(
                        env_end(r, idom, new_in[e].1 as int),
                        r.phis[x][i].0,
                    ) by {
                        if e < old_in.len() {
                            assert(new_in[e] == old_in[e]);
                        }
                    }
                    assert forall|p: int|
                        v.contains(p) && #[trigger] leads_to(r, b, k + 1, p, x) implies exists|
                            e: int,
                        |
                            0 <= e < new_in.len() && (#[trigger] new_in[e]).1 == p by {
                        if p == b {
                            assert(new_in[old_in.len() as int].1 == p);
                        } else {
                            assert(leads_to(r, b, k, p, x));
                            let e = choose|e: int|
                                0 <= e < old_in.len() && (#[trigger] old_in[e]).1 == p;
                            assert(new_in[e].1 == p);
                        }
                    }
                }
            } else {
                assert forall|i: int| 0 <= i < r.phis[x].len() implies phi_filled(
                    r,
                    idom,
                    v,
                    b,
                    k + 1,
                    x,
                    i,
                    #[trigger] next[x].instrs[i],
                ) by {
                    assert(phi_filled(r, idom, v, b, k, x, i, new[x].instrs[i]));
                    assert forall|p: int| #[trigger] leads_to(r, b, k + 1, p, x) implies leads_to(
                        r,
                        b,
                        k,
                        p,
                        x,
                    ) by {
                        if p == b {
                            let j = choose|j: int| 0 <= j < now.len() && now[j] == x as usize;
                            assert(j < k);
                            assert(before[j] == x as usize);
                        }
                    }
                }
            }
        }
        filled_in(r, idom, v, b, k + 1, next);
    }
}

/// Renaming a block, before anything has come in from it.
proof fn block_is_renamed(
    r: RenameV,
    idom: Seq<usize>,
    v: Set<int>,
    b: int,
    kb: nat,
    new: Seq<BlockV>,
)
    requires
        prepared(r, idom),
        promotion_tree::at_depth(idom, b, kb),
        0 <= b < r.blocks.len(),
        !v.contains(b),
        progress(r, idom, v, -1, 0, new),
    ensures
        ({
            let (after, out) = promotion::renamed(
                r.promoted,
                r.blocks[b].instrs,
                (env_above(r, idom, b, kb) + promotion::phi_values(r.phis[b]), new[b].instrs),
            );
            &&& after == env_end(r, idom, b)
            &&& progress(
                r,
                idom,
                v.insert(b),
                b,
                0,
                new.update(b, BlockV { instrs: out, ..new[b] }),
            )
        }),
{
    depth_is(idom, b, kb);
    renamed_adds(r.promoted, r.blocks[b].instrs, env_start(r, idom, b, kb), new[b].instrs);
    let (after, out) = promotion::renamed(
        r.promoted,
        r.blocks[b].instrs,
        (env_above(r, idom, b, kb) + promotion::phi_values(r.phis[b]), new[b].instrs),
    );
    let w = v.insert(b);
    let next = new.update(b, BlockV { instrs: out, ..new[b] });
    assert forall|x: int| 0 <= x < next.len() implies block_renamed(
        r,
        idom,
        w,
        b,
        0,
        x,
        #[trigger] next[x],
    ) by {
        assert(block_renamed(r, idom, v, -1, 0, x, new[x]));
        let m = r.phis[x].len() as int;
        if x == b {
            assert(new[x].instrs.skip(m) =~= Seq::empty());
            assert(new[x].instrs.skip(m).len() == new[x].instrs.len() - m);
            assert(next[x].instrs.skip(m) =~= body(r, idom, b));
        }
        assert forall|i: int| 0 <= i < m implies phi_filled(
            r,
            idom,
            w,
            b,
            0,
            x,
            i,
            #[trigger] next[x].instrs[i],
        ) by {
            assert(next[x].instrs[i] == new[x].instrs[i]);
            assert(phi_filled(r, idom, v, -1, 0, x, i, new[x].instrs[i]));
            assert forall|p: int| w.contains(p) && #[trigger] leads_to(
                r,
                b,
                0,
                p,
                x,
            ) implies leads_to(r, -1, 0, p, x) && v.contains(p) by {
                if p == b {
                    assert(!r.succ[b].take(0).contains(x as usize));
                }
            }
        }
    }
}

/// What has come in from all successors of a block has come in.
proof fn all_came_in(r: RenameV, idom: Seq<usize>, v: Set<int>, b: int, new: Seq<BlockV>)
    requires
        0 <= b < r.blocks.len(),
        progress(r, idom, v, b, r.succ[b].len() as int, new),
    ensures
        progress(r, idom, v, -1, 0, new),
{
    let n = r.succ[b].len() as int;
    assert(r.succ[b].take(n) =~= r.succ[b]);
    assert forall|x: int| 0 <= x < new.len() implies block_renamed(
        r,
        idom,
        v,
        -1,
        0,
        x,
        #[trigger] new[x],
    ) by {
        assert(block_renamed(r, idom, v, b, n, x, new[x]));
        assert forall|i: int| 0 <= i < r.phis[x].len() implies phi_filled(
            r,
            idom,
            v,
            -1,
            0,
            x,
            i,
            #[trigger] new[x].instrs[i],
        ) by {
            assert(phi_filled(r, idom, v, b, n, x, i, new[x].instrs[i]));
            assert forall|p: int| #[trigger] leads_to(r, -1, 0, p, x) implies leads_to(
                r,
                b,
                n,
                p,
                x,
            ) by {}
        }
    }
}

// ── The walk down the tree ───────────────────────────────────────────────────

/// The blocks of a tree below a block.
pub open spec fn subtree(idom: Seq<usize>, b: int) -> Set<int> {
    Set::new(|x: int| promotion_tree::in_subtree(idom, b, x))
}

/// The blocks below the children of a block from the `k`th on.
spec fn subtrees(idom: Seq<usize>, children: Seq<usize>, k: int) -> Set<int> {
    Set::new(
        |x: int|
            exists|i: int|
                k <= i < children.len() && promotion_tree::in_subtree(
                    idom,
                    (#[trigger] children[i]) as int,
                    x,
                ),
    )
}

/// Renaming a block renames it and all blocks below it.
proof fn rename_walks(
    r: RenameV,
    idom: Seq<usize>,
    v: Set<int>,
    b: int,
    kb: nat,
    new: Seq<BlockV>,
    fuel: nat,
)
    requires
        prepared(r, idom),
        promotion_tree::at_depth(idom, b, kb),
        fuel + kb >= idom.len(),
        progress(r, idom, v, -1, 0, new),
        v.disjoint(subtree(idom, b)),
    ensures
        progress(
            r,
            idom,
            v.union(subtree(idom, b)),
            -1,
            0,
            promotion::rename(r, b, env_above(r, idom, b, kb), new, fuel),
        ),
    decreases fuel, 1int, 0int,
{
    promotion_tree::depth_bound(idom, b, kb);
    assert(promotion_tree::below(idom, b, b, 0));
    assert(subtree(idom, b).contains(b));
    block_is_renamed(r, idom, v, b, kb, new);
    let env = env_above(r, idom, b, kb);
    let (after, out) = promotion::renamed(
        r.promoted,
        r.blocks[b].instrs,
        (env + promotion::phi_values(r.phis[b]), new[b].instrs),
    );
    let w = v.insert(b);
    let own = new.update(b, BlockV { instrs: out, ..new[b] });
    filled_in(r, idom, w, b, 0, own);
    let mid = promotion::filled(r, b, 0, after, own);
    all_came_in(r, idom, w, b, mid);
    let children = r.children[b];
    let n = idom.len() as int;
    promotion_tree::children_are(idom, n, b);
    assert(w.disjoint(subtrees(idom, children, 0))) by {
        assert forall|x: int| w.contains(x) implies !(#[trigger] subtrees(
            idom,
            children,
            0,
        ).contains(x)) by {
            if subtrees(idom, children, 0).contains(x) {
                let i = choose|i: int|
                    0 <= i < children.len() && promotion_tree::in_subtree(
                        idom,
                        (#[trigger] children[i]) as int,
                        x,
                    );
                let c = children[i] as int;
                let j = choose|j: nat| #[trigger] promotion_tree::below(idom, c, x, j);
                promotion_tree::child_below(idom, b, c, x, j);
                promotion_tree::below_depth(idom, b, x, j + 1, kb);
                if x == b {
                    promotion_tree::depth_unique(idom, b, kb, j + 1 + kb);
                } else {
                    assert(subtree(idom, b).contains(x));
                }
            }
        }
    }
    children_walk(r, idom, w, b, kb, 0, mid, (fuel - 1) as nat);
    let all = w.union(subtrees(idom, children, 0));
    assert(all =~= v.union(subtree(idom, b))) by {
        assert forall|x: int| all.contains(x) == v.union(subtree(idom, b)).contains(x) by {
            if subtrees(idom, children, 0).contains(x) {
                let i = choose|i: int|
                    0 <= i < children.len() && promotion_tree::in_subtree(
                        idom,
                        (#[trigger] children[i]) as int,
                        x,
                    );
                let c = children[i] as int;
                let j = choose|j: nat| #[trigger] promotion_tree::below(idom, c, x, j);
                promotion_tree::child_below(idom, b, c, x, j);
            }
            if subtree(idom, b).contains(x) && x != b {
                let j = choose|j: nat| #[trigger] promotion_tree::below(idom, b, x, j);
                let c = promotion_tree::below_child(idom, b, x, j);
                promotion_tree::below_depth(idom, b, x, j, kb);
                assert(idom[c] == b);
                if c == b {
                    assert(promotion_tree::at_depth(idom, idom[c] as int, (kb - 1) as nat));
                    promotion_tree::depth_unique(idom, b, kb, (kb - 1) as nat);
                }
                let i = choose|i: int|
                    0 <= i < children.len() && #[trigger] children[i] == c;
                assert(promotion_tree::in_subtree(idom, children[i] as int, x));
            }
        }
    }
}

/// Renaming the children of a block renames all blocks below them.
proof fn children_walk(
    r: RenameV,
    idom: Seq<usize>,
    v: Set<int>,
    b: int,
    kb: nat,
    k: int,
    new: Seq<BlockV>,
    fuel: nat,
)
    requires
        prepared(r, idom),
        promotion_tree::at_depth(idom, b, kb),
        0 <= b < r.blocks.len(),
        0 <= k <= r.children[b].len(),
        fuel + kb + 1 >= idom.len(),
        progress(r, idom, v, -1, 0, new),
        v.disjoint(subtrees(idom, r.children[b], k)),
    ensures
        progress(
            r,
            idom,
            v.union(subtrees(idom, r.children[b], k)),
            -1,
            0,
            promotion::rename_children(r, b, k, env_end(r, idom, b), new, fuel),
        ),
    decreases fuel, 2int, r.children[b].len() - k,
{
    let children = r.children[b];
    let n = idom.len() as int;
    depth_is(idom, b, kb);
    promotion_tree::children_are(idom, n, b);
    if k < children.len() {
        let c = children[k] as int;
        assert(0 < c < n && idom[c] == b);
        assert(promotion_tree::at_depth(idom, c, kb + 1));
        assert(env_above(r, idom, c, kb + 1) == env_end(r, idom, b));
        assert(v.disjoint(subtree(idom, c))) by {
            assert forall|x: int| subtree(idom, c).contains(x) implies subtrees(
                idom,
                children,
                k,
            ).contains(x) by {
                assert(promotion_tree::in_subtree(idom, children[k] as int, x));
            }
        }
        rename_walks(r, idom, v, c, kb + 1, new, fuel);
        let next = promotion::rename(r, c, env_end(r, idom, b), new, fuel);
        let w = v.union(subtree(idom, c));
        assert(w.disjoint(subtrees(idom, children, k + 1))) by {
            assert forall|x: int| w.contains(x) implies !(#[trigger] subtrees(
                idom,
                children,
                k + 1,
            ).contains(x)) by {
                if subtrees(idom, children, k + 1).contains(x) {
                    let i = choose|i: int|
                        k + 1 <= i < children.len() && promotion_tree::in_subtree(
                            idom,
                            (#[trigger] children[i]) as int,
                            x,
                        );
                    let d = children[i] as int;
                    if v.contains(x) {
                        assert(subtrees(idom, children, k).contains(x));
                    } else {
                        let j1 = choose|j: nat| #[trigger] promotion_tree::below(idom, c, x, j);
                        let j2 = choose|j: nat| #[trigger] promotion_tree::below(idom, d, x, j);
                        assert(0 < d < n && idom[d] == b);
                        assert(promotion_tree::at_depth(idom, d, kb + 1));
                        promotion_tree::below_unique(idom, c, d, x, j1, j2, kb + 1);
                        assert(children[k] != children[i]);
                    }
                }
            }
        }
        children_walk(r, idom, w, b, kb, k + 1, next, fuel);
        assert(w.union(subtrees(idom, children, k + 1)) =~= v.union(
            subtrees(idom, children, k),
        )) by {
            assert forall|x: int| w.union(subtrees(idom, children, k + 1)).contains(x) == v.union(
                subtrees(idom, children, k),
            ).contains(x) by {
                if subtree(idom, c).contains(x) {
                    assert(promotion_tree::in_subtree(idom, children[k] as int, x));
                }
                if subtrees(idom, children, k).contains(x) {
                    let i = choose|i: int|
                        k <= i < children.len() && promotion_tree::in_subtree(
                            idom,
                            (#[trigger] children[i]) as int,
                            x,
                        );
                    if i > k {
                        assert(subtrees(idom, children, k + 1).contains(x));
                    }
                }
                if subtrees(idom, children, k + 1).contains(x) {
                    let i = choose|i: int|
                        k + 1 <= i < children.len() && promotion_tree::in_subtree(
                            idom,
                            (#[trigger] children[i]) as int,
                            x,
                        );
                    assert(promotion_tree::in_subtree(idom, children[i] as int, x));
                }
            }
        }
    } else {
        assert(v.union(subtrees(idom, children, k)) =~= v);
    }
}

/// Renaming leaves each block of the tree with its phis, filled in from all blocks of the tree
/// that lead to it, and its renamed instructions.
pub(crate) proof fn renaming_fills(r: RenameV, idom: Seq<usize>)
    requires
        prepared(r, idom),
    ensures
        progress(
            r,
            idom,
            subtree(idom, 0),
            -1,
            0,
            promotion::rename(
                r,
                0,
                Seq::empty(),
                promotion::with_phis(r.blocks, r.phis),
                r.blocks.len(),
            ),
        ),
{
    let none = Set::<int>::empty();
    let start = promotion::with_phis(r.blocks, r.phis);
    assert(progress(r, idom, none, -1, 0, start)) by {
        assert forall|x: int| 0 <= x < start.len() implies block_renamed(
            r,
            idom,
            none,
            -1,
            0,
            x,
            #[trigger] start[x],
        ) by {
            assert(start[x].instrs.skip(r.phis[x].len() as int) =~= Seq::empty());
        }
    }
    assert(env_above(r, idom, 0, 0) =~= Seq::empty());
    rename_walks(r, idom, none, 0, 0, start, r.blocks.len());
    assert(none.union(subtree(idom, 0)) =~= subtree(idom, 0));
}

} // verus!

//! The dominator tree that the promotion of variables walks.

use crate::domtree;
use crate::ssa;
use vstd::prelude::*;

verus! {

// ── Depth ────────────────────────────────────────────────────────────────────

/// Whether a block is `k` levels below the entry in the tree.
pub open spec fn at_depth(idom: Seq<usize>, x: int, k: nat) -> bool
    decreases k,
{
    if k == 0 {
        x == 0
    } else {
        0 < x < idom.len() && at_depth(idom, idom[x] as int, (k - 1) as nat)
    }
}

/// Whether a block is `j` levels below another in the tree.
pub open spec fn below(idom: Seq<usize>, b: int, x: int, j: nat) -> bool
    decreases j,
{
    if j == 0 {
        x == b
    } else {
        0 < x < idom.len() && below(idom, b, idom[x] as int, (j - 1) as nat)
    }
}

/// Whether a block is another, or below it.
pub open spec fn in_subtree(idom: Seq<usize>, b: int, x: int) -> bool {
    exists|j: nat| #[trigger] below(idom, b, x, j)
}

/// A block is at one depth.
pub(crate) proof fn depth_unique(idom: Seq<usize>, x: int, j: nat, k: nat)
    requires
        at_depth(idom, x, j),
        at_depth(idom, x, k),
    ensures
        j == k,
    decreases j,
{
    if j > 0 && k > 0 {
        depth_unique(idom, idom[x] as int, (j - 1) as nat, (k - 1) as nat);
    }
}

/// A block that is below another is that much deeper.
pub(crate) proof fn below_depth(idom: Seq<usize>, b: int, x: int, j: nat, k: nat)
    requires
        below(idom, b, x, j),
        at_depth(idom, b, k),
    ensures
        at_depth(idom, x, j + k),
    decreases j,
{
    if j > 0 {
        below_depth(idom, b, idom[x] as int, (j - 1) as nat, k);
    }
}

/// A block is below one block of each level.
pub(crate) proof fn below_unique(idom: Seq<usize>, a: int, b: int, x: int, i: nat, j: nat, k: nat)
    requires
        below(idom, a, x, i),
        below(idom, b, x, j),
        at_depth(idom, a, k),
        at_depth(idom, b, k),
    ensures
        a == b,
        i == j,
    decreases i,
{
    below_depth(idom, a, x, i, k);
    below_depth(idom, b, x, j, k);
    depth_unique(idom, x, i + k, j + k);
    if i > 0 {
        below_unique(idom, a, b, idom[x] as int, (i - 1) as nat, (j - 1) as nat, k);
    }
}

/// The block `i` levels up from a block is that much less deep.
pub(crate) proof fn climb_depth(idom: Seq<usize>, x: int, k: nat, i: nat)
    requires
        at_depth(idom, x, k),
        i <= k,
    ensures
        at_depth(idom, ssa::climb(idom, x, i), (k - i) as nat),
    decreases i,
{
    if i > 0 {
        climb_depth(idom, x, k, (i - 1) as nat);
    }
}

/// Going up from the immediate dominator is going up one level more.
pub(crate) proof fn climb_shift(idom: Seq<usize>, x: int, i: nat)
    ensures
        ssa::climb(idom, idom[x] as int, i) == ssa::climb(idom, x, i + 1),
    decreases i,
{
    if i > 0 {
        climb_shift(idom, x, (i - 1) as nat);
    } else {
        assert(ssa::climb(idom, x, 1) == idom[ssa::climb(idom, x, 0)] as int);
    }
}

/// No block is deeper than there are blocks above it.
pub(crate) proof fn depth_bound(idom: Seq<usize>, x: int, k: nat)
    requires
        at_depth(idom, x, k),
        idom.len() > 0,
    ensures
        k < idom.len(),
        0 <= x < idom.len(),
{
    let n = idom.len() as int;
    let way = Seq::new(k + 1, |i: int| ssa::climb(idom, x, i as nat));
    assert forall|i: int| 0 <= i < way.len() implies 0 <= #[trigger] way[i] < n by {
        climb_depth(idom, x, k, i as nat);
    }
    assert(way[0] == x);
    assert(way.no_duplicates()) by {
        assert forall|i: int, j: int|
            0 <= i < way.len() && 0 <= j < way.len() && i != j implies way[i] != way[j] by {
            climb_depth(idom, x, k, i as nat);
            climb_depth(idom, x, k, j as nat);
            if way[i] == way[j] {
                depth_unique(idom, way[i], (k - i) as nat, (k - j) as nat);
            }
        }
    }
    way.unique_seq_to_set();
    vstd::set_lib::lemma_int_range(0, n);
    assert(way.to_set().subset_of(vstd::set_lib::set_int_range(0, n)));
    vstd::set_lib::lemma_len_subset(way.to_set(), vstd::set_lib::set_int_range(0, n));
}

// ── Dominators in the tree ───────────────────────────────────────────────────

/// The immediate dominators of the blocks of a graph.
pub open spec fn idoms(preds: Seq<Seq<usize>>) -> Seq<usize> {
    Seq::new(preds.len(), |b: int| domtree::idom_of(preds, b))
}

/// What dominates a block that can be reached can be reached.
pub(crate) proof fn dominator_reachable(preds: Seq<Seq<usize>>, d: int, b: int)
    requires
        domtree::reachable(preds, b),
        domtree::dominates(preds, d, b),
    ensures
        domtree::reachable(preds, d),
{
    let k = choose|k: nat| #[trigger] domtree::avoids(preds, -1, b, k);
    domtree::reaches_through(preds, -1, d, b, k);
    assert(!domtree::avoids(preds, d, b, k));
}

/// The immediate dominator of a block that can be reached is the entry, or dominates the block and
/// has fewer dominators.
proof fn idom_is_above(preds: Seq<Seq<usize>>, b: int)
    requires
        0 < b < preds.len(),
        preds.len() <= usize::MAX,
        domtree::reachable(preds, b),
    ensures
        ({
            let d = domtree::idom_of(preds, b) as int;
            &&& 0 <= d < preds.len()
            &&& d != 0 ==> {
                &&& d != b
                &&& domtree::dominates(preds, d, b)
                &&& domtree::reachable(preds, d)
                &&& domtree::dom_count(preds, preds.len() as int, d) < domtree::dom_count(
                    preds,
                    preds.len() as int,
                    b,
                )
            }
        }),
{
    let n = preds.len() as int;
    domtree::nearest_is(preds, b, n);
    let d = domtree::idom_of(preds, b) as int;
    if d != 0 {
        dominator_reachable(preds, d, b);
        assert forall|c: int| domtree::dominates(preds, c, d) implies #[trigger] domtree::dominates(
            preds,
            c,
            b,
        ) by {
            domtree::dominates_transitive(preds, c, d, b);
        }
        domtree::dominates_itself(preds, b);
        if domtree::dominates(preds, b, d) {
            let k = choose|k: nat| #[trigger] domtree::avoids(preds, -1, b, k);
            domtree::mutual_is_same(preds, d, b, k);
        }
        assert(domtree::dominates(preds, b, b) && !domtree::dominates(preds, b, d));
        domtree::dom_count_grows(preds, n, d, b);
    }
}

/// A block that can be reached is in the tree.
pub(crate) proof fn reachable_in_tree(preds: Seq<Seq<usize>>, b: int) -> (k: nat)
    requires
        0 <= b < preds.len(),
        preds.len() <= usize::MAX,
        domtree::reachable(preds, b),
    ensures
        at_depth(idoms(preds), b, k),
    decreases domtree::dom_count(preds, preds.len() as int, b),
{
    if b == 0 {
        0
    } else {
        let d = domtree::idom_of(preds, b) as int;
        assert(idoms(preds)[b] == d);
        idom_is_above(preds, b);
        if d == 0 {
            assert(at_depth(idoms(preds), 0, 0));
            1
        } else {
            let k = reachable_in_tree(preds, d);
            (k + 1) as nat
        }
    }
}

/// A dominator of a block that can be reached, or the entry, is above the block in the tree.
pub(crate) proof fn dominator_above(preds: Seq<Seq<usize>>, d: int, p: int, k: nat) -> (j: nat)
    requires
        0 <= d < preds.len(),
        0 <= p < preds.len(),
        preds.len() <= usize::MAX,
        domtree::reachable(preds, p),
        at_depth(idoms(preds), p, k),
        d == 0 || domtree::dominates(preds, d, p),
    ensures
        below(idoms(preds), d, p, j),
        j <= k,
    decreases k,
{
    if p == d {
        0
    } else if p == 0 {
        assert(domtree::avoids(preds, d, 0, 0));
        0
    } else {
        let u = domtree::idom_of(preds, p) as int;
        assert(idoms(preds)[p] == u);
        idom_is_above(preds, p);
        if d != 0 {
            domtree::idom_is_immediate(preds, p, d);
            if u == 0 {
                assert(domtree::avoids(preds, d, 0, 0));
            }
        }
        if u == 0 {
            assert(below(idoms(preds), d, 0, 0));
            1
        } else {
            let j = dominator_above(preds, d, u, (k - 1) as nat);
            (j + 1) as nat
        }
    }
}

/// A block above another in the tree, other than the entry, dominates it.
pub(crate) proof fn above_dominates(preds: Seq<Seq<usize>>, d: int, p: int, j: nat)
    requires
        0 <= p < preds.len(),
        preds.len() <= usize::MAX,
        domtree::reachable(preds, p),
        below(idoms(preds), d, p, j),
        d != 0,
    ensures
        domtree::dominates(preds, d, p),
    decreases j,
{
    if j == 0 {
        domtree::dominates_itself(preds, p);
    } else {
        let u = domtree::idom_of(preds, p) as int;
        assert(idoms(preds)[p] == u);
        idom_is_above(preds, p);
        if u == 0 {
            if j > 1 {
                assert(!below(idoms(preds), d, 0, (j - 1) as nat));
            }
        } else {
            above_dominates(preds, d, u, (j - 1) as nat);
            domtree::dominates_transitive(preds, d, u, p);
        }
    }
}

/// The immediate dominator of a block is above every block that leads to it.
pub(crate) proof fn idom_above_preds(preds: Seq<Seq<usize>>, p: int, b: int, i: int, k: nat) -> (j: nat)
    requires
        0 < b < preds.len(),
        0 <= p < preds.len(),
        preds.len() <= usize::MAX,
        0 <= i < preds[b].len(),
        preds[b][i] == p,
        domtree::reachable(preds, b),
        domtree::reachable(preds, p),
        at_depth(idoms(preds), p, k),
    ensures
        below(idoms(preds), domtree::idom_of(preds, b) as int, p, j),
        j <= k,
{
    let d = domtree::idom_of(preds, b) as int;
    idom_is_above(preds, b);
    if d != 0 {
        domtree::dominates_preds(preds, d, b, i);
    }
    dominator_above(preds, d, p, k)
}

/// Only through itself, a block is not reached.
proof fn not_through_itself(preds: Seq<Seq<usize>>, b: int, k: nat)
    requires
        b != 0,
        preds[b].len() == 1,
        preds[b][0] == b,
    ensures
        !domtree::avoids(preds, -1, b, k),
    decreases k,
{
    if domtree::avoids(preds, -1, b, k) {
        let i = choose|i: int|
            0 <= i < preds[b].len() && domtree::avoids(
                preds,
                -1,
                (#[trigger] preds[b][i]) as int,
                (k - 1) as nat,
            );
        assert(i == 0);
        not_through_itself(preds, b, (k - 1) as nat);
    }
}

/// The only block that leads to a block is its immediate dominator.
pub(crate) proof fn only_pred_is_idom(preds: Seq<Seq<usize>>, p: int, b: int)
    requires
        0 < b < preds.len(),
        0 <= p < preds.len(),
        preds.len() <= usize::MAX,
        preds[b].len() == 1,
        preds[b][0] == p,
        domtree::reachable(preds, b),
        domtree::reachable(preds, p),
    ensures
        domtree::idom_of(preds, b) == p,
{
    let k = choose|k: nat| #[trigger] domtree::avoids(preds, -1, b, k);
    if p == b {
        not_through_itself(preds, b, k);
    }
    assert(domtree::dominates(preds, p, b)) by {
        assert forall|k: nat| !#[trigger] domtree::avoids(preds, p, b, k) by {
            if domtree::avoids(preds, p, b, k) {
                let i = choose|i: int|
                    0 <= i < preds[b].len() && domtree::avoids(
                        preds,
                        p,
                        (#[trigger] preds[b][i]) as int,
                        (k - 1) as nat,
                    );
                assert(i == 0);
            }
        }
    }
    domtree::idom_is_immediate(preds, b, p);
    let d = domtree::idom_of(preds, b) as int;
    domtree::dominates_preds(preds, d, b, 0);
    let j = choose|j: nat| #[trigger] domtree::avoids(preds, -1, p, j);
    domtree::mutual_is_same(preds, d, p, j);
}

/// A block between a block and one above it is met on the way up.
pub(crate) proof fn between_is_on_way(idom: Seq<usize>, d: int, p: int, j: nat, k: nat, i: nat)
    requires
        below(idom, d, p, j),
        at_depth(idom, p, k),
        j <= k,
        i < j,
        idom.len() > 0,
    ensures
        ssa::on_way(idom, p, d, ssa::climb(idom, p, i)),
        0 < ssa::climb(idom, p, i) < idom.len(),
{
    depth_bound(idom, p, k);
    climb_depth(idom, p, k, i);
    below_is_climb(idom, d, p, j);
    climb_depth(idom, p, k, j);
    assert forall|x: nat| x <= i implies #[trigger] ssa::climb(idom, p, x) != d by {
        climb_depth(idom, p, k, x);
        if ssa::climb(idom, p, x) == d {
            depth_unique(idom, d, (k - x) as nat, (k - j) as nat);
        }
    }
    let r = ssa::climb(idom, p, i);
    assert(i < idom.len() && ssa::climb(idom, p, i) == r);
}

/// A block that another is below is met on the way up from it.
pub(crate) proof fn below_is_climb(idom: Seq<usize>, d: int, p: int, j: nat)
    requires
        below(idom, d, p, j),
    ensures
        ssa::climb(idom, p, j) == d,
    decreases j,
{
    if j > 0 {
        below_is_climb(idom, d, idom[p] as int, (j - 1) as nat);
        climb_shift(idom, p, (j - 1) as nat);
    }
}

/// A block is below those that are met on the way up from it.
proof fn climb_is_below(idom: Seq<usize>, p: int, k: nat, i: nat)
    requires
        at_depth(idom, p, k),
        i <= k,
    ensures
        below(idom, ssa::climb(idom, p, i), p, i),
    decreases i,
{
    if i > 0 {
        climb_is_below(idom, idom[p] as int, (k - 1) as nat, (i - 1) as nat);
        climb_shift(idom, p, (i - 1) as nat);
    }
}

/// A block that is met on the way up from another, and one met on the way up from there.
proof fn below_further(idom: Seq<usize>, r: int, d: int, p: int, j: nat, i: nat)
    requires
        below(idom, d, p, j),
        below(idom, r, d, i),
    ensures
        below(idom, r, p, j + i),
    decreases j,
{
    if j > 0 {
        below_further(idom, r, d, idom[p] as int, (j - 1) as nat, i);
    }
}

/// A block is in the dominance frontier of another, which is not the entry, just where several
/// ways lead to it, the other dominates a block on one of these, and does not dominate it, or is
/// it itself.
pub proof fn frontier_is_by_dominance(preds: Seq<Seq<usize>>, r: int, b: int)
    requires
        preds.len() <= usize::MAX,
        0 < r < preds.len(),
        0 < b < preds.len(),
        domtree::reachable(preds, b),
        forall|i: int|
            0 <= i < preds[b].len() ==> (#[trigger] preds[b][i]) < preds.len()
                && domtree::reachable(preds, preds[b][i] as int),
    ensures
        ssa::in_frontier(preds, idoms(preds), r, b) <==> preds[b].len() >= 2 && (exists|i: int|
            0 <= i < preds[b].len() && domtree::dominates(
                preds,
                r,
                (#[trigger] preds[b][i]) as int,
            )) && (r == b || !domtree::dominates(preds, r, b)),
{
    let idom = idoms(preds);
    let d = domtree::idom_of(preds, b) as int;
    assert(idom[b] == d);
    idom_is_above(preds, b);
    if ssa::in_frontier(preds, idom, r, b) {
        let i = choose|i: int|
            0 <= i < preds[b].len() && ssa::on_way(
                idom,
                (#[trigger] preds[b][i]) as int,
                idom[b] as int,
                r,
            );
        let p = preds[b][i] as int;
        let k = reachable_in_tree(preds, p);
        let j = idom_above_preds(preds, p, b, i, k);
        below_is_climb(idom, d, p, j);
        let x = choose|x: nat|
            x < idom.len() && #[trigger] ssa::climb(idom, p, x) == r && forall|y: nat|
                y <= x ==> #[trigger] ssa::climb(idom, p, y) != d;
        assert(x < j) by {
            if x >= j {
                assert(ssa::climb(idom, p, j) != d);
            }
        }
        climb_is_below(idom, p, k, x);
        above_dominates(preds, r, p, x);
        if r != b && domtree::dominates(preds, r, b) {
            domtree::idom_is_immediate(preds, b, r);
            if d == 0 {
                assert(domtree::avoids(preds, r, 0, 0));
            }
            climb_depth(idom, p, k, j);
            let y = dominator_above(preds, r, d, (k - j) as nat);
            below_further(idom, r, d, p, j, y);
            below_is_climb(idom, r, p, j + y);
            climb_depth(idom, p, k, x);
            climb_depth(idom, p, k, j + y);
            depth_unique(idom, r, (k - x) as nat, (k - (j + y)) as nat);
        }
        assert(domtree::dominates(preds, r, preds[b][i] as int));
    }
    if preds[b].len() >= 2 && (exists|i: int|
        0 <= i < preds[b].len() && domtree::dominates(preds, r, (#[trigger] preds[b][i]) as int))
        && (r == b || !domtree::dominates(preds, r, b)) {
        let i = choose|i: int|
            0 <= i < preds[b].len() && domtree::dominates(
                preds,
                r,
                (#[trigger] preds[b][i]) as int,
            );
        let p = preds[b][i] as int;
        let k = reachable_in_tree(preds, p);
        let j = idom_above_preds(preds, p, b, i, k);
        let x = dominator_above(preds, r, p, k);
        below_is_climb(idom, r, p, x);
        below_is_climb(idom, d, p, j);
        if x >= j {
            climb_depth(idom, p, k, j);
            climb_is_below(idom, d, (k - j) as nat, (x - j) as nat);
            climb_on(idom, p, j, (x - j) as nat);
            if d == 0 {
                assert(x == j || !below(idom, r, 0, (x - j) as nat));
            } else {
                above_dominates(preds, r, d, (x - j) as nat);
                domtree::dominates_transitive(preds, r, d, b);
                if r == b {
                    let y = choose|y: nat| #[trigger] domtree::avoids(preds, -1, b, y);
                    domtree::mutual_is_same(preds, d, b, y);
                }
            }
        } else {
            between_is_on_way(idom, d, p, j, k, x);
            assert(ssa::on_way(idom, preds[b][i] as int, idom[b] as int, r));
        }
    }
}

/// Steps up one after the other.
proof fn climb_on(idom: Seq<usize>, p: int, i: nat, j: nat)
    ensures
        ssa::climb(idom, p, i + j) == ssa::climb(idom, ssa::climb(idom, p, i), j),
    decreases j,
{
    if j > 0 {
        climb_on(idom, p, i, (j - 1) as nat);
    }
}

// ── Children ─────────────────────────────────────────────────────────────────

/// The children of a block are the blocks that have it as their immediate dominator, each once.
pub(crate) proof fn children_are(idom: Seq<usize>, n: int, p: int)
    requires
        n <= idom.len() <= usize::MAX,
    ensures
        forall|c: int|
            0 < c < n && (#[trigger] idom[c]) == p && c != p ==> exists|i: int|
                0 <= i < ssa::children_below(idom, n, p).len() && ssa::children_below(
                    idom,
                    n,
                    p,
                )[i] == c,
        forall|i: int|
            0 <= i < ssa::children_below(idom, n, p).len() ==> {
                let c = #[trigger] ssa::children_below(idom, n, p)[i];
                0 < c < n && idom[c as int] == p && c != p
            },
        forall|i: int, j: int|
            0 <= i < j < ssa::children_below(idom, n, p).len() ==> ssa::children_below(
                idom,
                n,
                p,
            )[i] != ssa::children_below(idom, n, p)[j],
    decreases n,
{
    if n > 1 {
        children_are(idom, n - 1, p);
        let before = ssa::children_below(idom, n - 1, p);
        let all = ssa::children_below(idom, n, p);
        assert forall|c: int| 0 < c < n && (#[trigger] idom[c]) == p && c != p implies exists|
            i: int,
        |
            0 <= i < all.len() && all[i] == c by {
            if c == n - 1 {
                assert(all[all.len() - 1] == c);
            } else {
                let i = choose|i: int| 0 <= i < before.len() && before[i] == c;
                assert(all[i] == c);
            }
        }
        assert forall|i: int| 0 <= i < all.len() implies {
            let c = #[trigger] all[i];
            0 < c < n && idom[c as int] == p && c != p
        } by {
            if i < before.len() {
                assert(all[i] == before[i]);
            }
        }
        assert forall|i: int, j: int| 0 <= i < j < all.len() implies all[i] != all[j] by {
            assert(all[i] == before[i]);
            if j < before.len() {
                assert(all[j] == before[j]);
            }
        }
    }
}

/// What is below a block is the block, or it is below a child of it.
pub(crate) proof fn below_child(idom: Seq<usize>, b: int, x: int, j: nat) -> (c: int)
    requires
        below(idom, b, x, j),
        j > 0,
    ensures
        0 < c < idom.len(),
        idom[c] == b,
        below(idom, c, x, (j - 1) as nat),
    decreases j,
{
    if j == 1 {
        assert(below(idom, b, idom[x] as int, 0));
        assert(below(idom, x, x, 0));
        x
    } else {
        below_child(idom, b, idom[x] as int, (j - 1) as nat)
    }
}

/// What is below a child of a block is below the block.
pub(crate) proof fn child_below(idom: Seq<usize>, b: int, c: int, x: int, j: nat)
    requires
        below(idom, c, x, j),
        0 < c < idom.len(),
        idom[c] == b,
    ensures
        below(idom, b, x, j + 1),
    decreases j,
{
    if j == 0 {
        assert(below(idom, b, idom[x] as int, 0));
    } else {
        child_below(idom, b, c, idom[x] as int, (j - 1) as nat);
    }
}

} // verus!

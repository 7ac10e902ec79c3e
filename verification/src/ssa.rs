//! SSA construction: dominators, dominance frontiers, promotion of variables to SSA values, and
//! the lowering of phis.

use crate::cfg::{self, Cfg};
use crate::domtree;
use crate::ir::{self, BlockV, FuncV, InstV, IrBlock, IrFunc, IrInst, IrOperand, IrType};
use crate::ir_to_koopa::{self, Move};
use crate::opt::const_fold;
use crate::promotion::{self, Plan};
use crate::renaming::{self, Renamer};
use std::collections::HashSet;
use vstd::prelude::*;

verus! {

broadcast use {
    vstd::std_specs::hash::group_hash_axioms,
    crate::ir::insts_push,
    crate::ir::blocks_push,
};

// ── Dominators ───────────────────────────────────────────────────────────────

/// The predecessors of the blocks of a graph.
pub open spec fn preds_of(g: Cfg) -> Seq<Seq<usize>> {
    cfg::lists(g.predecessors@)
}

/// Rows of truth values.
spec fn rows(m: Seq<Vec<bool>>) -> Seq<Seq<bool>> {
    m.map_values(|r: Vec<bool>| r@)
}

/// A square of truth values.
spec fn square(m: Seq<Seq<bool>>, n: int) -> bool {
    m.len() == n && forall|i: int| 0 <= i < n ==> (#[trigger] m[i]).len() == n
}

/// Whether `d` is `b`, or in the rows of all predecessors of `b`, of which there are some.
spec fn meets(m: Seq<Seq<bool>>, ps: Seq<usize>, b: int, d: int) -> bool {
    d == b || (ps.len() > 0 && forall|i: int|
        0 <= i < ps.len() ==> m[(#[trigger] ps[i]) as int][d])
}

/// The number of true values of a row.
spec fn row_weight(r: Seq<bool>) -> nat
    decreases r.len(),
{
    if r.len() == 0 {
        0
    } else {
        row_weight(r.drop_last()) + if r.last() {
            1nat
        } else {
            0
        }
    }
}

/// The number of true values of some rows.
spec fn weight(m: Seq<Seq<bool>>) -> nat
    decreases m.len(),
{
    if m.len() == 0 {
        0
    } else {
        weight(m.drop_last()) + row_weight(m.last())
    }
}

proof fn row_weight_less(r: Seq<bool>, s: Seq<bool>)
    requires
        r.len() == s.len(),
        forall|i: int| 0 <= i < r.len() ==> (#[trigger] r[i] ==> s[i]),
    ensures
        row_weight(r) <= row_weight(s),
        r != s ==> row_weight(r) < row_weight(s),
    decreases r.len(),
{
    if r.len() > 0 {
        let a = r.drop_last();
        let b = s.drop_last();
        assert forall|i: int| 0 <= i < a.len() implies (#[trigger] a[i] ==> b[i]) by {
            assert(a[i] == r[i]);
        }
        row_weight_less(a, b);
        assert(r[r.len() - 1] ==> s[r.len() - 1]);
        if a == b {
            assert(r =~= a.push(r.last()));
            assert(s =~= b.push(s.last()));
        }
    } else {
        assert(r =~= s);
    }
}

proof fn weight_update(m: Seq<Seq<bool>>, k: int, r: Seq<bool>)
    requires
        0 <= k < m.len(),
    ensures
        weight(m.update(k, r)) + row_weight(m[k]) == weight(m) + row_weight(r),
    decreases m.len(),
{
    if k == m.len() - 1 {
        assert(m.update(k, r).drop_last() =~= m.drop_last());
    } else {
        assert(m.update(k, r).drop_last() =~= m.drop_last().update(k, r));
        weight_update(m.drop_last(), k, r);
    }
}

/// The rows hold the dominators of every block, and what follows from the rows of predecessors.
spec fn above(preds: Seq<Seq<usize>>, m: Seq<Seq<bool>>) -> bool {
    &&& square(m, preds.len() as int)
    &&& forall|d: int| 0 <= d < preds.len() ==> (#[trigger] m[0][d] <==> d == 0)
    &&& forall|b: int, d: int|
        #![trigger m[b][d]]
        0 <= b < preds.len() && 0 <= d < preds.len() && domtree::dominates(preds, d, b) ==> m[b][d]
    &&& forall|b: int, d: int|
        #![trigger m[b][d]]
        0 < b < preds.len() && 0 <= d < preds.len() && meets(m, preds[b], b, d) ==> m[b][d]
}

/// Rows that follow from those of predecessors hold no block that a path avoids.
proof fn fixed_rows_avoid(preds: Seq<Seq<usize>>, m: Seq<Seq<bool>>, d: int, b: int, k: nat)
    requires
        above(preds, m),
        domtree::graph(preds),
        forall|b: int, d: int|
            #![trigger m[b][d]]
            0 < b < preds.len() && 0 <= d < preds.len() && m[b][d] ==> meets(m, preds[b], b, d),
        0 <= b < preds.len(),
        0 <= d < preds.len(),
        domtree::avoids(preds, d, b, k),
    ensures
        !m[b][d],
    decreases k,
{
    if b == 0 {
        assert(m[0][d] <==> d == 0);
    } else if preds[b].len() > 0 {
        let i = choose|i: int|
            0 <= i < preds[b].len() && domtree::avoids(
                preds,
                d,
                (#[trigger] preds[b][i]) as int,
                (k - 1) as nat,
            );
        fixed_rows_avoid(preds, m, d, preds[b][i] as int, (k - 1) as nat);
    }
}

/// An update of a row by what follows from those of predecessors keeps the rows above.
proof fn update_keeps_above(preds: Seq<Seq<usize>>, m: Seq<Seq<bool>>, b: int, r: Seq<bool>)
    requires
        above(preds, m),
        domtree::graph(preds),
        0 < b < preds.len(),
        r.len() == preds.len(),
        forall|d: int| 0 <= d < preds.len() ==> (#[trigger] r[d] <==> meets(m, preds[b], b, d)),
    ensures
        above(preds, m.update(b, r)),
        forall|d: int| 0 <= d < preds.len() ==> (#[trigger] r[d] ==> m[b][d]),
{
    let n = preds.len() as int;
    let next = m.update(b, r);
    assert forall|d: int| 0 <= d < n implies (#[trigger] r[d] ==> m[b][d]) by {
        assert(m[b][d] || !m[b][d]);
    }
    assert forall|c: int, d: int|
        #![trigger next[c][d]]
        0 <= c < n && 0 <= d < n && domtree::dominates(preds, d, c) implies next[c][d] by {
        assert(m[c][d]);
        if c == b && d != b {
            domtree::dominates_preds(preds, d, b, -1);
            assert forall|i: int| 0 <= i < preds[b].len() implies m[(
            #[trigger] preds[b][i]) as int][d] by {
                domtree::dominates_preds(preds, d, b, i);
                assert(m[preds[b][i] as int][d]);
            }
            assert(meets(m, preds[b], b, d));
            assert(r[d]);
        } else if c == b {
            assert(r[d]);
        }
    }
    assert forall|c: int, d: int|
        #![trigger next[c][d]]
        0 < c < n && 0 <= d < n && meets(next, preds[c], c, d) implies next[c][d] by {
        assert(m[c][d] || !m[c][d]);
        assert(meets(m, preds[c], c, d)) by {
            if d != c {
                assert forall|i: int| 0 <= i < preds[c].len() implies m[(
                #[trigger] preds[c][i]) as int][d] by {
                    let p = preds[c][i] as int;
                    assert(next[p][d]);
                    if p == b {
                        assert(r[d]);
                    }
                }
            }
        }
        if c == b {
            assert(r[d]);
        }
    }
    assert forall|i: int| 0 <= i < n implies (#[trigger] next[i]).len() == n by {
        assert(m[i].len() == n);
    }
    assert forall|d: int| 0 <= d < n implies (#[trigger] next[0][d] <==> d == 0) by {
        assert(m[0][d] <==> d == 0);
    }
}

/// A row of equal values.
fn row_of(n: usize, value: bool) -> (r: Vec<bool>)
    ensures
        r@.len() == n,
        forall|i: int| 0 <= i < n ==> #[trigger] r@[i] == value,
{
    let mut out: Vec<bool> = Vec::new();
    let mut i: usize = 0;
    while i < n
        invariant
            i <= n,
            out@.len() == i,
            forall|k: int| 0 <= k < i ==> #[trigger] out@[k] == value,
        decreases n - i,
    {
        out.push(value);
        i = i + 1;
    }
    out
}

/// What follows for a block from the rows of its predecessors.
#[verifier::loop_isolation(false)]
fn meet_row(dom: &Vec<Vec<bool>>, ps: &Vec<usize>, b: usize) -> (r: Vec<bool>)
    requires
        square(rows(dom@), dom@.len() as int),
        b < dom@.len(),
        forall|i: int| 0 <= i < ps@.len() ==> #[trigger] ps@[i] < dom@.len(),
    ensures
        r@.len() == dom@.len(),
        forall|d: int|
            0 <= d < dom@.len() ==> (#[trigger] r@[d] <==> meets(rows(dom@), ps@, b as int, d)),
{
    let n = dom.len();
    let ghost m = rows(dom@);
    let mut row: Vec<bool> = Vec::new();
    let mut d: usize = 0;
    while d < n
        invariant
            d <= n,
            row@.len() == d,
            forall|k: int| 0 <= k < d ==> (#[trigger] row@[k] <==> meets(m, ps@, b as int, k)),
        decreases n - d,
    {
        let mut all = ps.len() > 0;
        let mut i: usize = 0;
        while i < ps.len()
            invariant
                i <= ps.len(),
                all <==> ps@.len() > 0 && forall|k: int|
                    0 <= k < i ==> m[(#[trigger] ps@[k]) as int][d as int],
            decreases ps.len() - i,
        {
            let p = ps[i];
            assert(m[p as int] == dom@[p as int]@);
            assert(m[p as int].len() == n);
            if !dom[p][d] {
                all = false;
            }
            i = i + 1;
        }
        row.push(d == b || all);
        d = d + 1;
    }
    row
}

fn rows_equal(a: &Vec<bool>, b: &Vec<bool>) -> (r: bool)
    requires
        a@.len() == b@.len(),
    ensures
        r == (a@ == b@),
{
    let mut i: usize = 0;
    while i < a.len()
        invariant
            i <= a.len(),
            a@.len() == b@.len(),
            forall|k: int| 0 <= k < i ==> a@[k] == #[trigger] b@[k],
        decreases a.len() - i,
    {
        if a[i] != b[i] {
            return false;
        }
        i = i + 1;
    }
    assert(a@ =~= b@);
    true
}

/// The dominators of each block: one row of truth values per block.
#[verifier::loop_isolation(false)]
fn compute_dom(g: &Cfg) -> (r: Vec<Vec<bool>>)
    requires
        g.wf(),
        g.predecessors@.len() > 0,
    ensures
        square(rows(r@), g.predecessors@.len() as int),
        forall|b: int, d: int|
            #![trigger rows(r@)[b][d]]
            0 <= b < r@.len() && 0 <= d < r@.len() ==> (rows(r@)[b][d] <==> domtree::dominates(
                preds_of(*g),
                d,
                b,
            )),
{
    let n = g.predecessors.len();
    let ghost preds = preds_of(*g);
    assert(domtree::graph(preds)) by {
        assert forall|b: int, i: int|
            0 <= b < preds.len() && 0 <= i < preds[b].len() implies #[trigger] preds[b][i]
            < preds.len() by {
            assert(g.predecessors@[b]@[i] < n);
        }
    }
    let mut dom: Vec<Vec<bool>> = Vec::new();
    let mut first = row_of(n, false);
    first.set(0, true);
    dom.push(first);
    let mut i: usize = 1;
    while i < n
        invariant
            1 <= i <= n,
            dom@.len() == i,
            dom@[0]@.len() == n,
            forall|d: int| 0 <= d < n ==> (#[trigger] dom@[0]@[d] <==> d == 0),
            forall|b: int|
                1 <= b < i ==> (#[trigger] dom@[b])@.len() == n && forall|d: int|
                    0 <= d < n ==> #[trigger] dom@[b]@[d],
        decreases n - i,
    {
        dom.push(row_of(n, true));
        i = i + 1;
    }
    proof {
        let m = rows(dom@);
        assert forall|b: int| 0 <= b < n implies (#[trigger] m[b]).len() == n by {
            assert(m[b] == dom@[b]@);
        }
        assert forall|d: int| 0 <= d < n implies (#[trigger] m[0][d] <==> d == 0) by {
            assert(m[0] == dom@[0]@);
        }
        assert forall|b: int, d: int|
            #![trigger m[b][d]]
            0 <= b < n && 0 <= d < n && domtree::dominates(preds, d, b) implies m[b][d] by {
            assert(m[b] == dom@[b]@);
            if b == 0 && d != 0 {
                assert(!domtree::avoids(preds, d, b, 0));
            }
        }
        assert forall|b: int, d: int|
            #![trigger m[b][d]]
            0 < b < n && 0 <= d < n && meets(m, preds[b], b, d) implies m[b][d] by {
            assert(m[b] == dom@[b]@);
        }
        assert(above(preds, m));
    }
    let mut changed = true;
    while changed
        invariant
            above(preds, rows(dom@)),
            dom@.len() == n,
            !changed ==> forall|b: int, d: int|
                #![trigger rows(dom@)[b][d]]
                0 < b < n && 0 <= d < n && rows(dom@)[b][d] ==> meets(
                    rows(dom@),
                    preds[b],
                    b,
                    d,
                ),
        decreases weight(rows(dom@)) + if changed {
            1nat
        } else {
            0
        },
    {
        changed = false;
        let ghost start = weight(rows(dom@));
        let mut b: usize = 1;
        while b < n
            invariant
                1 <= b <= n,
                dom@.len() == n,
                above(preds, rows(dom@)),
                changed ==> weight(rows(dom@)) < start,
                weight(rows(dom@)) <= start,
                !changed ==> forall|c: int, d: int|
                    #![trigger rows(dom@)[c][d]]
                    0 < c < b && 0 <= d < n && rows(dom@)[c][d] ==> meets(
                        rows(dom@),
                        preds[c],
                        c,
                        d,
                    ),
            decreases n - b,
        {
            let ghost m = rows(dom@);
            assert(preds[b as int] == g.predecessors@[b as int]@);
            assert forall|i: int| 0 <= i < g.predecessors@[b as int]@.len() implies #[trigger] g.predecessors@[b as int]@[i]
                < dom@.len() by {}
            let row = meet_row(&dom, &g.predecessors[b], b);
            proof {
                update_keeps_above(preds, m, b as int, row@);
                weight_update(m, b as int, row@);
                assert(m[b as int] == dom@[b as int]@);
                assert(m[b as int].len() == n);
                row_weight_less(row@, m[b as int]);
            }
            if !rows_equal(&row, &dom[b]) {
                dom.set(b, row);
                changed = true;
                assert(rows(dom@) =~= m.update(b as int, row@));
            }
            b = b + 1;
        }
    }
    proof {
        let m = rows(dom@);
        assert forall|b: int, d: int|
            #![trigger m[b][d]]
            0 <= b < n && 0 <= d < n implies (m[b][d] <==> domtree::dominates(preds, d, b)) by {
            if m[b][d] {
                assert forall|k: nat| !#[trigger] domtree::avoids(preds, d, b, k) by {
                    if domtree::avoids(preds, d, b, k) {
                        fixed_rows_avoid(preds, m, d, b, k);
                    }
                }
            }
        }
    }
    dom
}

/// The number of true values in a row.
#[verifier::loop_isolation(false)]
fn count_true(dom: &Vec<Vec<bool>>, b: usize, Ghost(preds): Ghost<Seq<Seq<usize>>>) -> (r: usize)
    requires
        b < dom@.len(),
        square(rows(dom@), dom@.len() as int),
        forall|d: int|
            0 <= d < dom@.len() ==> (#[trigger] rows(dom@)[b as int][d] <==> domtree::dominates(
                preds,
                d,
                b as int,
            )),
    ensures
        r == domtree::dom_count(preds, dom@.len() as int, b as int),
{
    let n = dom.len();
    let mut count: usize = 0;
    let mut d: usize = 0;
    assert(rows(dom@)[b as int] == dom@[b as int]@);
    while d < n
        invariant
            d <= n,
            count <= d,
            count == domtree::dom_count(preds, d as int, b as int),
        decreases n - d,
    {
        assert(rows(dom@)[b as int].len() == n);
        if dom[b][d] {
            assert(rows(dom@)[b as int][d as int]);
            count = count + 1;
        } else {
            assert(!rows(dom@)[b as int][d as int]);
        }
        d = d + 1;
    }
    count
}

/// The immediate dominator of each block.
#[verifier::loop_isolation(false)]
pub fn compute_idom(g: &Cfg) -> (r: Vec<usize>)
    requires
        g.wf(),
    ensures
        r@.len() == g.predecessors@.len(),
        forall|b: int|
            0 <= b < r@.len() ==> #[trigger] r@[b] == domtree::idom_of(preds_of(*g), b),
        forall|b: int| 0 <= b < r@.len() ==> #[trigger] r@[b] < r@.len(),
{
    let n = g.len();
    let mut idom: Vec<usize> = Vec::new();
    if n == 0 {
        return idom;
    }
    let ghost preds = preds_of(*g);
    let dom = compute_dom(g);
    let mut sizes: Vec<usize> = Vec::new();
    let mut s: usize = 0;
    while s < n
        invariant
            s <= n,
            sizes@.len() == s,
            forall|b: int|
                0 <= b < s ==> #[trigger] sizes@[b] == domtree::dom_count(preds, n as int, b),
        decreases n - s,
    {
        sizes.push(count_true(&dom, s, Ghost(preds)));
        s = s + 1;
    }
    idom.push(0);
    let mut b: usize = 1;
    while b < n
        invariant
            1 <= b <= n,
            idom@.len() == b,
            forall|c: int| 0 <= c < b ==> #[trigger] idom@[c] == domtree::idom_of(preds, c),
            forall|c: int| 0 <= c < b ==> #[trigger] idom@[c] < n,
        decreases n - b,
    {
        let mut best: Option<usize> = None;
        let mut c: usize = 0;
        assert(rows(dom@)[b as int] == dom@[b as int]@);
        while c < n
            invariant
                c <= n,
                match domtree::nearest(preds, b as int, c as int) {
                    Some(d) => best == Some(d as usize) && 0 <= d < n,
                    None => best is None,
                },
            decreases n - c,
        {
            assert(rows(dom@)[b as int].len() == n);
            assert(rows(dom@)[b as int][c as int] <==> domtree::dominates(
                preds,
                c as int,
                b as int,
            ));
            if c != b && dom[b][c] {
                best = match best {
                    None => Some(c),
                    Some(d) => if sizes[d] <= sizes[c] {
                        Some(c)
                    } else {
                        Some(d)
                    },
                };
            }
            c = c + 1;
        }
        idom.push(
            match best {
                Some(d) => d,
                None => 0,
            },
        );
        b = b + 1;
    }
    idom
}

// ── The dominator tree ───────────────────────────────────────────────────────

/// The blocks below `n` that have a block as their immediate dominator.
pub open spec fn children_below(idom: Seq<usize>, n: int, p: int) -> Seq<usize>
    decreases n,
{
    if n <= 1 {
        Seq::empty()
    } else {
        let before = children_below(idom, n - 1, p);
        if idom[n - 1] == p && p != n - 1 {
            before.push((n - 1) as usize)
        } else {
            before
        }
    }
}

/// The children of each block in the dominator tree.
#[verifier::loop_isolation(false)]
pub fn dom_tree_children(idom: &[usize]) -> (r: Vec<Vec<usize>>)
    requires
        forall|b: int| 0 < b < idom@.len() ==> #[trigger] idom@[b] < idom@.len(),
    ensures
        r@.len() == idom@.len(),
        forall|p: int|
            0 <= p < r@.len() ==> (#[trigger] r@[p])@ == children_below(
                idom@,
                idom@.len() as int,
                p,
            ),
{
    let n = idom.len();
    let mut children: Vec<Vec<usize>> = Vec::new();
    let mut i: usize = 0;
    while i < n
        invariant
            i <= n,
            children@.len() == i,
            forall|p: int| 0 <= p < i ==> (#[trigger] children@[p])@ == Seq::<usize>::empty(),
        decreases n - i,
    {
        children.push(Vec::new());
        i = i + 1;
    }
    if n == 0 {
        return children;
    }
    let mut b: usize = 1;
    while b < n
        invariant
            1 <= b <= n,
            children@.len() == n,
            forall|p: int|
                0 <= p < n ==> (#[trigger] children@[p])@ == children_below(idom@, b as int, p),
        decreases n - b,
    {
        let p = idom[b];
        let ghost before = children@;
        if p != b {
            children[p].push(b);
        }
        assert forall|q: int| 0 <= q < n implies (#[trigger] children@[q])@ == children_below(
            idom@,
            b + 1,
            q,
        ) by {
            if q != p || p == b {
                assert(children@[q] == before[q]);
            }
        }
        b = b + 1;
    }
    children
}

/// The block `k` steps up from a block.
pub open spec fn climb(idom: Seq<usize>, b: int, k: nat) -> int
    decreases k,
{
    if k == 0 {
        b
    } else {
        idom[climb(idom, b, (k - 1) as nat)] as int
    }
}

/// Whether a block is met on the way up from `p` before `stop` is.
pub open spec fn on_way(idom: Seq<usize>, p: int, stop: int, r: int) -> bool {
    exists|k: nat|
        k < idom.len() && #[trigger] climb(idom, p, k) == r && forall|j: nat|
            j <= k ==> #[trigger] climb(idom, p, j) != stop
}

/// Whether a block is in the dominance frontier of another: several ways lead to it, and the other
/// is on one of them below its immediate dominator.
pub open spec fn in_frontier(preds: Seq<Seq<usize>>, idom: Seq<usize>, r: int, b: int) -> bool {
    preds[b].len() >= 2 && exists|i: int|
        0 <= i < preds[b].len() && on_way(
            idom,
            (#[trigger] preds[b][i]) as int,
            idom[b] as int,
            r,
        )
}

/// Adds a block to the frontiers of the blocks on the way up from `p` to `stop`.
#[verifier::loop_isolation(false)]
fn add_on_way(df: &mut Vec<HashSet<usize>>, idom: &[usize], p: usize, stop: usize, b: usize)
    requires
        old(df)@.len() == idom@.len(),
        p < idom@.len(),
        forall|i: int| 0 <= i < idom@.len() ==> #[trigger] idom@[i] < idom@.len(),
    ensures
        final(df)@.len() == old(df)@.len(),
        forall|r: int, x: usize|
            0 <= r < idom@.len() ==> (#[trigger] final(df)@[r]@.contains(x) <==> old(
                df,
            )@[r]@.contains(x) || (x == b && on_way(idom@, p as int, stop as int, r))),
{
    let n = idom.len();
    let ghost start = df@;
    let mut runner = p;
    let mut k: usize = 0;
    while k < n && runner != stop
        invariant
            k <= n,
            runner < n,
            runner == climb(idom@, p as int, k as nat),
            df@.len() == n,
            forall|j: nat| j < k ==> #[trigger] climb(idom@, p as int, j) != stop,
            forall|r: int, x: usize|
                0 <= r < n ==> (#[trigger] df@[r]@.contains(x) <==> start[r]@.contains(x) || (x == b
                    && exists|j: nat| j < k && #[trigger] climb(idom@, p as int, j) == r)),
        decreases n - k,
    {
        let ghost before = df@;
        df[runner].insert(b);
        assert forall|r: int, x: usize| 0 <= r < n implies (#[trigger] df@[r]@.contains(x)
            <==> start[r]@.contains(x) || (x == b && exists|j: nat|
            j < k + 1 && #[trigger] climb(idom@, p as int, j) == r)) by {
            assert(before[r]@.contains(x) || !before[r]@.contains(x));
            assert(climb(idom@, p as int, k as nat) == runner);
            if r != runner {
                assert(df@[r] == before[r]);
            }
            if x == b && exists|j: nat| j < k && #[trigger] climb(idom@, p as int, j) == r {
                let j = choose|j: nat| j < k && #[trigger] climb(idom@, p as int, j) == r;
                assert(j < k + 1 && climb(idom@, p as int, j) == r);
            }
        }
        runner = idom[runner];
        k = k + 1;
    }
    proof {
        assert forall|r: int, x: usize| 0 <= r < n implies (#[trigger] df@[r]@.contains(x)
            <==> start[r]@.contains(x) || (x == b && on_way(idom@, p as int, stop as int, r))) by {
            if exists|j: nat| j < k && #[trigger] climb(idom@, p as int, j) == r {
                let j = choose|j: nat| j < k && #[trigger] climb(idom@, p as int, j) == r;
                assert(on_way(idom@, p as int, stop as int, r));
            }
            if on_way(idom@, p as int, stop as int, r) {
                let j = choose|j: nat|
                    j < idom@.len() && #[trigger] climb(idom@, p as int, j) == r && forall|m: nat|
                        m <= j ==> #[trigger] climb(idom@, p as int, m) != stop;
                assert(climb(idom@, p as int, k as nat) == runner);
                assert(j < k);
            }
        }
    }
}

/// Adds a block to the frontiers of the blocks on the ways to it.
#[verifier::loop_isolation(false)]
fn add_frontier(df: &mut Vec<HashSet<usize>>, ps: &Vec<usize>, idom: &[usize], b: usize)
    requires
        old(df)@.len() == idom@.len(),
        b < idom@.len(),
        forall|i: int| 0 <= i < ps@.len() ==> #[trigger] ps@[i] < idom@.len(),
        forall|i: int| 0 <= i < idom@.len() ==> #[trigger] idom@[i] < idom@.len(),
    ensures
        final(df)@.len() == old(df)@.len(),
        forall|r: int, x: usize|
            0 <= r < idom@.len() ==> (#[trigger] final(df)@[r]@.contains(x) <==> old(
                df,
            )@[r]@.contains(x) || (x == b && exists|i: int|
                0 <= i < ps@.len() && on_way(
                    idom@,
                    (#[trigger] ps@[i]) as int,
                    idom@[b as int] as int,
                    r,
                ))),
{
    let ghost start = df@;
    let ghost stop = idom@[b as int] as int;
    let mut i: usize = 0;
    while i < ps.len()
        invariant
            i <= ps.len(),
            df@.len() == idom@.len(),
            forall|r: int, x: usize|
                0 <= r < idom@.len() ==> (#[trigger] df@[r]@.contains(x) <==> start[r]@.contains(x)
                    || (x == b && exists|k: int|
                    0 <= k < i && on_way(idom@, (#[trigger] ps@[k]) as int, stop, r))),
        decreases ps.len() - i,
    {
        let ghost before = df@;
        add_on_way(df, idom, ps[i], idom[b], b);
        assert forall|r: int, x: usize| 0 <= r < idom@.len() implies (#[trigger] df@[r]@.contains(x)
            <==> start[r]@.contains(x) || (x == b && exists|k: int|
            0 <= k < i + 1 && on_way(idom@, (#[trigger] ps@[k]) as int, stop, r))) by {
            assert(before[r]@.contains(x) || !before[r]@.contains(x));
            if on_way(idom@, ps@[i as int] as int, stop, r) {
                assert(on_way(idom@, ps@[i as int] as int, stop, r));
            }
            if exists|k: int| 0 <= k < i && on_way(idom@, (#[trigger] ps@[k]) as int, stop, r) {
                let k = choose|k: int|
                    0 <= k < i && on_way(idom@, (#[trigger] ps@[k]) as int, stop, r);
                assert(on_way(idom@, ps@[k] as int, stop, r));
            }
        }
        i = i + 1;
    }
}

/// The dominance frontier of each block.
#[verifier::loop_isolation(false)]
pub fn compute_df(g: &Cfg, idom: &[usize]) -> (r: Vec<HashSet<usize>>)
    requires
        g.wf(),
        idom@.len() == g.predecessors@.len(),
        forall|i: int| 0 <= i < idom@.len() ==> #[trigger] idom@[i] < idom@.len(),
    ensures
        r@.len() == idom@.len(),
        forall|a: int, b: usize|
            0 <= a < r@.len() ==> (#[trigger] r@[a]@.contains(b) <==> b < r@.len() && in_frontier(
                preds_of(*g),
                idom@,
                a,
                b as int,
            )),
{
    let n = g.len();
    let ghost preds = preds_of(*g);
    let mut df: Vec<HashSet<usize>> = Vec::new();
    let mut i: usize = 0;
    while i < n
        invariant
            i <= n,
            df@.len() == i,
            forall|a: int, x: usize| 0 <= a < i ==> !#[trigger] df@[a]@.contains(x),
        decreases n - i,
    {
        df.push(HashSet::new());
        i = i + 1;
    }
    let mut b: usize = 0;
    while b < n
        invariant
            b <= n,
            df@.len() == n,
            forall|a: int, x: usize|
                0 <= a < n ==> (#[trigger] df@[a]@.contains(x) <==> x < b && in_frontier(
                    preds,
                    idom@,
                    a,
                    x as int,
                )),
        decreases n - b,
    {
        let ghost before = df@;
        assert(preds[b as int] == g.predecessors@[b as int]@);
        if g.predecessors[b].len() >= 2 {
            add_frontier(&mut df, &g.predecessors[b], idom, b);
        }
        assert forall|a: int, x: usize| 0 <= a < n implies (#[trigger] df@[a]@.contains(x) <==> x
            < b + 1 && in_frontier(preds, idom@, a, x as int)) by {
            assert(before[a]@.contains(x) || !before[a]@.contains(x));
        }
        b = b + 1;
    }
    df
}

/// Whether a block is met on the way up from another, before the way has passed the entry.
pub open spec fn above_in_tree(idom: Seq<usize>, a: int, b: int) -> bool {
    exists|k: nat|
        k <= idom.len() && #[trigger] climb(idom, b, k) == a && forall|j: nat|
            j < k ==> #[trigger] climb(idom, b, j) != 0
}

/// Whether a block is above another in the dominator tree.
#[verifier::loop_isolation(false)]
fn is_above(idom: &Vec<usize>, a: usize, b: usize) -> (r: bool)
    requires
        b < idom@.len(),
        forall|i: int| 0 <= i < idom@.len() ==> #[trigger] idom@[i] < idom@.len(),
    ensures
        r == above_in_tree(idom@, a as int, b as int),
{
    let n = idom.len();
    let mut cur = b;
    let mut k: usize = 0;
    loop
        invariant
            k <= n,
            cur < n,
            cur == climb(idom@, b as int, k as nat),
            forall|j: nat| j < k ==> #[trigger] climb(idom@, b as int, j) != 0,
            forall|j: nat| j < k ==> #[trigger] climb(idom@, b as int, j) != a,
        decreases n - k,
    {
        if cur == a {
            assert(climb(idom@, b as int, k as nat) == a);
            return true;
        }
        if cur == 0 || k == n {
            proof {
                if above_in_tree(idom@, a as int, b as int) {
                    let j = choose|j: nat|
                        j <= idom@.len() && #[trigger] climb(idom@, b as int, j) == a && forall|
                            m: nat,
                        |
                            m < j ==> #[trigger] climb(idom@, b as int, m) != 0;
                    assert(climb(idom@, b as int, k as nat) == cur);
                    assert(j == k);
                }
            }
            return false;
        }
        cur = idom[cur];
        k = k + 1;
    }
}

// ── Which variables are promoted ─────────────────────────────────────────────

#[verifier::loop_isolation(false)]
fn is_only_moved_by(inst: &IrInst, g: usize) -> (r: bool)
    ensures
        r == promotion::only_moves(inst@, g),
{
    match inst {
        IrInst::Load { .. } => return true,
        IrInst::Store { .. } => return true,
        _ => {},
    }
    let ops = inst.operands();
    let ghost all = ir::inst_operands(inst@);
    let target = IrOperand::Global(g);
    let mut i: usize = 0;
    while i < ops.len()
        invariant
            i <= ops.len(),
            ops@.map_values(|o: &IrOperand| *o) == all,
            forall|k: int| 0 <= k < i ==> #[trigger] all[k] != target,
        decreases ops.len() - i,
    {
        assert(all[i as int] == *ops@[i as int]);
        if *ops[i] == target {
            assert(all.contains(target));
            return false;
        }
        i = i + 1;
    }
    true
}

fn is_only_loaded_stored(func: &IrFunc, g: usize) -> (r: bool)
    ensures
        r == promotion::only_moved(func@.blocks, g),
{
    let ghost blocks = func@.blocks;
    let mut b: usize = 0;
    while b < func.blocks.len()
        invariant
            b <= func.blocks.len(),
            blocks == func@.blocks,
            forall|k: int, i: int|
                #![trigger blocks[k].instrs[i]]
                0 <= k < b && 0 <= i < blocks[k].instrs.len() ==> promotion::only_moves(
                    blocks[k].instrs[i],
                    g,
                ),
        decreases func.blocks.len() - b,
    {
        let block = &func.blocks[b];
        assert(blocks[b as int] == block@);
        let mut i: usize = 0;
        while i < block.instrs.len()
            invariant
                i <= block.instrs.len(),
                b < blocks.len(),
                blocks == func@.blocks,
                blocks[b as int] == block@,
                forall|k: int|
                    0 <= k < i ==> promotion::only_moves(
                        #[trigger] blocks[b as int].instrs[k],
                        g,
                    ),
            decreases block.instrs.len() - i,
        {
            assert(blocks[b as int].instrs[i as int] == block.instrs@[i as int]@);
            if !is_only_moved_by(&block.instrs[i], g) {
                return false;
            }
            i = i + 1;
        }
        b = b + 1;
    }
    true
}

/// The integer variables that a function allocates.
#[verifier::loop_isolation(false)]
fn find_int_vars(func: &IrFunc) -> (r: Vec<usize>)
    ensures
        r@ == promotion::block_vars(func@.blocks, func@.blocks.len() as int),
{
    let mut out: Vec<usize> = Vec::new();
    let ghost blocks = func@.blocks;
    let mut b: usize = 0;
    while b < func.blocks.len()
        invariant
            b <= func.blocks.len(),
            out@ == promotion::block_vars(blocks, b as int),
        decreases func.blocks.len() - b,
    {
        let block = &func.blocks[b];
        assert(blocks[b as int] == block@);
        let ghost instrs = block@.instrs;
        let ghost start = out@;
        let mut i: usize = 0;
        assert(start =~= start + promotion::int_vars(instrs.take(0)));
        while i < block.instrs.len()
            invariant
                i <= block.instrs.len(),
                out@ == start + promotion::int_vars(instrs.take(i as int)),
            decreases block.instrs.len() - i,
        {
            assert(instrs[i as int] == block.instrs@[i as int]@);
            assert(instrs.take(i + 1).drop_last() =~= instrs.take(i as int));
            if let IrInst::Alloc { dest, ty } = &block.instrs[i] {
                if matches!(ty, IrType::I32) {
                    out.push(*dest);
                }
            }
            i = i + 1;
            assert(out@ =~= start + promotion::int_vars(instrs.take(i as int)));
        }
        assert(instrs.take(i as int) =~= instrs);
        b = b + 1;
    }
    out
}

/// The integer variables of a function that are only loaded and stored.
#[verifier::loop_isolation(false)]
fn find_promotable_allocas(func: &IrFunc) -> (r: Vec<usize>)
    ensures
        r@ == promotion::promotable(func@.blocks),
{
    let vars = find_int_vars(func);
    let ghost blocks = func@.blocks;
    let ghost keep = |g: usize| promotion::only_moved(blocks, g);
    let mut out: Vec<usize> = Vec::new();
    let mut i: usize = 0;
    reveal(Seq::filter);
    assert(out@ =~= vars@.take(0).filter(keep));
    while i < vars.len()
        invariant
            i <= vars.len(),
            out@ == vars@.take(i as int).filter(keep),
        decreases vars.len() - i,
    {
        assert(vars@.take(i + 1).drop_last() =~= vars@.take(i as int));
        if is_only_loaded_stored(func, vars[i]) {
            out.push(vars[i]);
        }
        i = i + 1;
    }
    assert(vars@.take(i as int) =~= vars@);
    out
}

fn has_store(block: &IrBlock, g: usize) -> (r: bool)
    ensures
        r == promotion::has_store(block@.instrs, g),
{
    let ghost all = block@.instrs;
    let mut i: usize = 0;
    while i < block.instrs.len()
        invariant
            i <= block.instrs.len(),
            all == block@.instrs,
            forall|k: int| 0 <= k < i ==> !promotion::stores_to(#[trigger] all[k], g),
        decreases block.instrs.len() - i,
    {
        assert(all[i as int] == block.instrs@[i as int]@);
        if let IrInst::Store { ptr, .. } = &block.instrs[i] {
            if *ptr == IrOperand::Global(g) {
                assert(promotion::stores_to(all[i as int], g));
                return true;
            }
        }
        i = i + 1;
    }
    false
}

/// The blocks that store to a variable.
pub(crate) fn find_def_blocks(blocks: &Vec<IrBlock>, g: usize) -> (r: Vec<usize>)
    ensures
        r@ == promotion::def_blocks(ir::blocks_view(blocks@), g, blocks@.len() as int),
        forall|i: int| 0 <= i < r@.len() ==> #[trigger] r@[i] < blocks@.len(),
{
    let mut out: Vec<usize> = Vec::new();
    let ghost all = ir::blocks_view(blocks@);
    let mut b: usize = 0;
    while b < blocks.len()
        invariant
            b <= blocks.len(),
            all == ir::blocks_view(blocks@),
            out@ == promotion::def_blocks(all, g, b as int),
            forall|i: int| 0 <= i < out@.len() ==> #[trigger] out@[i] < blocks@.len(),
        decreases blocks.len() - b,
    {
        assert(all[b as int] == blocks@[b as int]@);
        if has_store(&blocks[b], g) {
            out.push(b);
        }
        b = b + 1;
    }
    out
}

fn has_param(block: &IrBlock, g: usize) -> (r: bool)
    ensures
        r == promotion::has_param(block@.instrs, g),
{
    let ghost all = block@.instrs;
    let mut i: usize = 0;
    while i < block.instrs.len()
        invariant
            i <= block.instrs.len(),
            all == block@.instrs,
            forall|k: int| 0 <= k < i ==> !promotion::stores_param(#[trigger] all[k], g),
        decreases block.instrs.len() - i,
    {
        assert(all[i as int] == block.instrs@[i as int]@);
        if let IrInst::Store { value, ptr } = &block.instrs[i] {
            if *ptr == IrOperand::Global(g) && matches!(value, IrOperand::Global(_)) {
                assert(promotion::stores_param(all[i as int], g));
                return true;
            }
        }
        i = i + 1;
    }
    false
}

/// What a list stores first, all of it stores first.
proof fn first_stored_in_prefix(instrs: Seq<InstV>, k: int, g: usize)
    requires
        0 <= k <= instrs.len(),
        promotion::first_stored(instrs.take(k), g) is Some,
    ensures
        promotion::first_stored(instrs, g) == promotion::first_stored(instrs.take(k), g),
    decreases instrs.len() - k,
{
    if k == instrs.len() {
        assert(instrs.take(k) =~= instrs);
    } else {
        assert(instrs.take(k + 1).drop_last() =~= instrs.take(k));
        first_stored_in_prefix(instrs, k + 1, g);
    }
}

fn find_first_stored(block: &IrBlock, g: usize) -> (r: Option<IrOperand>)
    ensures
        r == promotion::first_stored(block@.instrs, g),
{
    let ghost all = block@.instrs;
    let mut i: usize = 0;
    assert(all.take(0) =~= Seq::empty());
    while i < block.instrs.len()
        invariant
            i <= block.instrs.len(),
            all == block@.instrs,
            promotion::first_stored(all.take(i as int), g) is None,
        decreases block.instrs.len() - i,
    {
        assert(all[i as int] == block.instrs@[i as int]@);
        assert(all.take(i + 1).drop_last() =~= all.take(i as int));
        if let IrInst::Store { value, ptr } = &block.instrs[i] {
            if *ptr == IrOperand::Global(g) {
                proof {
                    first_stored_in_prefix(all, i + 1, g);
                }
                return Some(*value);
            }
        }
        i = i + 1;
    }
    assert(all.take(i as int) =~= all);
    None
}

fn is_complex(inst: &IrInst) -> (r: bool)
    ensures
        r == promotion::is_complex(inst@),
{
    match inst {
        IrInst::Call { .. } => true,
        IrInst::Alloc { ty, .. } => matches!(ty, IrType::Array(_, _)),
        _ => false,
    }
}

/// Whether some blocks hold a call or an array.
fn has_arrays_or_calls(blocks: &Vec<IrBlock>) -> (r: bool)
    ensures
        r == promotion::complex(ir::blocks_view(blocks@)),
{
    let ghost all = ir::blocks_view(blocks@);
    let mut b: usize = 0;
    while b < blocks.len()
        invariant
            b <= blocks.len(),
            all == ir::blocks_view(blocks@),
            forall|k: int, i: int|
                #![trigger all[k].instrs[i]]
                0 <= k < b && 0 <= i < all[k].instrs.len() ==> !promotion::is_complex(
                    all[k].instrs[i],
                ),
        decreases blocks.len() - b,
    {
        let block = &blocks[b];
        assert(all[b as int] == block@);
        let mut i: usize = 0;
        while i < block.instrs.len()
            invariant
                i <= block.instrs.len(),
                b < all.len(),
                all == ir::blocks_view(blocks@),
                all[b as int] == block@,
                forall|k: int|
                    0 <= k < i ==> !promotion::is_complex(#[trigger] all[b as int].instrs[k]),
            decreases block.instrs.len() - i,
        {
            assert(all[b as int].instrs[i as int] == block.instrs@[i as int]@);
            if is_complex(&block.instrs[i]) {
                return true;
            }
            i = i + 1;
        }
        b = b + 1;
    }
    false
}

/// Whether one of some blocks is above another of them in the dominator tree.
fn has_chain(idom: &Vec<usize>, defs: &Vec<usize>) -> (r: bool)
    requires
        forall|i: int| 0 <= i < idom@.len() ==> #[trigger] idom@[i] < idom@.len(),
        forall|i: int| 0 <= i < defs@.len() ==> #[trigger] defs@[i] < idom@.len(),
    ensures
        r == promotion::has_chain(idom@, defs@),
{
    let mut i: usize = 0;
    while i < defs.len()
        invariant
            i <= defs.len(),
            forall|k: int| 0 <= k < idom@.len() ==> #[trigger] idom@[k] < idom@.len(),
            forall|k: int| 0 <= k < defs@.len() ==> #[trigger] defs@[k] < idom@.len(),
            forall|a: int, c: int|
                #![trigger defs@[a], defs@[c]]
                0 <= a < i && 0 <= c < defs@.len() ==> !(defs@[a] != defs@[c] && above_in_tree(
                    idom@,
                    defs@[a] as int,
                    defs@[c] as int,
                )),
        decreases defs.len() - i,
    {
        let mut j: usize = 0;
        while j < defs.len()
            invariant
                i < defs.len(),
                j <= defs.len(),
                forall|k: int| 0 <= k < idom@.len() ==> #[trigger] idom@[k] < idom@.len(),
                forall|k: int| 0 <= k < defs@.len() ==> #[trigger] defs@[k] < idom@.len(),
                forall|c: int|
                    0 <= c < j ==> !(defs@[i as int] != #[trigger] defs@[c] && above_in_tree(
                        idom@,
                        defs@[i as int] as int,
                        defs@[c] as int,
                    )),
            decreases defs.len() - j,
        {
            if defs[i] != defs[j] && is_above(idom, defs[i], defs[j]) {
                return true;
            }
            j = j + 1;
        }
        i = i + 1;
    }
    false
}

/// How a variable of a function with several blocks is promoted.
fn plan(blocks: &Vec<IrBlock>, idom: &Vec<usize>, g: usize) -> (r: Plan)
    requires
        blocks@.len() > 0,
        idom@.len() == blocks@.len(),
        forall|i: int| 0 <= i < idom@.len() ==> #[trigger] idom@[i] < idom@.len(),
    ensures
        r == promotion::plan(ir::blocks_view(blocks@), idom@, g),
{
    assert(ir::blocks_view(blocks@)[0] == blocks@[0]@);
    if has_param(&blocks[0], g) {
        return Plan::Keep;
    }
    let defs = find_def_blocks(blocks, g);
    if defs.len() == 1 && defs[0] == 0 {
        return match find_first_stored(&blocks[0], g) {
            Some(v) => Plan::Simple(v),
            None => Plan::Keep,
        };
    }
    if defs.len() >= 2 && !has_arrays_or_calls(blocks) && has_chain(idom, &defs) {
        Plan::Phi
    } else {
        Plan::Keep
    }
}

/// The variables that are promoted with phis, and those that have one value.
#[verifier::loop_isolation(false)]
fn classify(blocks: &Vec<IrBlock>, idom: &Vec<usize>, names: &Vec<usize>) -> (r: (
    Vec<usize>,
    Vec<(usize, IrOperand)>,
))
    requires
        blocks@.len() > 0,
        idom@.len() == blocks@.len(),
        forall|i: int| 0 <= i < idom@.len() ==> #[trigger] idom@[i] < idom@.len(),
    ensures
        r.0@ == promotion::phi_vars(ir::blocks_view(blocks@), idom@, names@),
        r.1@ == promotion::simple_vars(ir::blocks_view(blocks@), idom@, names@),
        r.0@.len() <= names@.len(),
{
    let ghost all = ir::blocks_view(blocks@);
    let mut phi: Vec<usize> = Vec::new();
    let mut simple: Vec<(usize, IrOperand)> = Vec::new();
    let mut k: usize = 0;
    while k < names.len()
        invariant
            k <= names.len(),
            phi@.len() <= k,
            phi@ == promotion::phi_vars(all, idom@, names@.take(k as int)),
            simple@ == promotion::simple_vars(all, idom@, names@.take(k as int)),
        decreases names.len() - k,
    {
        assert(names@.take(k + 1).drop_last() =~= names@.take(k as int));
        match plan(blocks, idom, names[k]) {
            Plan::Phi => {
                phi.push(names[k]);
            },
            Plan::Simple(v) => {
                simple.push((names[k], v));
            },
            Plan::Keep => {},
        }
        k = k + 1;
    }
    assert(names@.take(k as int) =~= names@);
    (phi, simple)
}

// ── New values ───────────────────────────────────────────────────────────────

/// The greatest index that an instruction defines or uses, or `least`.
#[verifier::loop_isolation(false)]
fn inst_max(inst: &IrInst, least: usize) -> (r: usize)
    ensures
        r == promotion::inst_max(inst@, least as int),
{
    let mut m = least;
    if let Some(d) = inst.dest() {
        if d > m {
            m = d;
        }
    }
    let ghost base = m as int;
    let ops = inst.operands();
    let ghost all = ir::inst_operands(inst@);
    let mut i: usize = 0;
    while i < ops.len()
        invariant
            i <= ops.len(),
            m == promotion::ops_max(all.take(i as int), base),
        decreases ops.len() - i,
    {
        assert(all[i as int] == *ops@[i as int]);
        assert(all.take(i + 1).drop_last() =~= all.take(i as int));
        if let IrOperand::Local(l) = *ops[i] {
            if l > m {
                m = l;
            }
        }
        i = i + 1;
    }
    assert(all.take(i as int) =~= all);
    m
}

/// The greatest index that some blocks define or use.
#[verifier::loop_isolation(false)]
pub(crate) fn max_index(blocks: &Vec<IrBlock>, least: usize) -> (r: usize)
    ensures
        r == promotion::blocks_max(ir::blocks_view(blocks@), least as int),
{
    let ghost all = ir::blocks_view(blocks@);
    let mut m = least;
    let mut b: usize = 0;
    while b < blocks.len()
        invariant
            b <= blocks.len(),
            m == promotion::blocks_max(all.take(b as int), least as int),
        decreases blocks.len() - b,
    {
        let block = &blocks[b];
        assert(all[b as int] == block@);
        assert(all.take(b + 1).drop_last() =~= all.take(b as int));
        let ghost list = block@.instrs;
        let ghost from = m as int;
        let mut i: usize = 0;
        while i < block.instrs.len()
            invariant
                i <= block.instrs.len(),
                m == promotion::insts_max(list.take(i as int), from),
            decreases block.instrs.len() - i,
        {
            assert(list[i as int] == block.instrs@[i as int]@);
            assert(list.take(i + 1).drop_last() =~= list.take(i as int));
            m = inst_max(&block.instrs[i], m);
            i = i + 1;
        }
        assert(list.take(i as int) =~= list);
        b = b + 1;
    }
    assert(all.take(b as int) =~= all);
    m
}

/// The first index for new SSA values, where there is one.
pub(crate) fn fresh_base(blocks: &Vec<IrBlock>) -> (r: Option<usize>)
    ensures
        match r {
            Some(n) => n == promotion::fresh_base(ir::blocks_view(blocks@)),
            None => promotion::fresh_base(ir::blocks_view(blocks@)) > usize::MAX,
        },
{
    let m = max_index(blocks, 0);
    if m == usize::MAX {
        None
    } else if m + 1 >= 1000 {
        Some(m + 1)
    } else {
        Some(1000)
    }
}

/// Whether there are indices enough for the phis that promotion may place.
pub fn has_room(func: &IrFunc) -> (r: bool)
    ensures
        r == promotion::room(func@),
{
    let names = find_promotable_allocas(func);
    let blocks = func.blocks.len();
    assert(blocks * names@.len() >= 0) by (nonlinear_arith)
        requires
            blocks >= 0,
            names@.len() >= 0,
    ;
    match (fresh_base(&func.blocks), blocks.checked_mul(names.len())) {
        (Some(base), Some(more)) => base.checked_add(more).is_some(),
        _ => false,
    }
}

// ── Mem2Reg ──────────────────────────────────────────────────────────────────

/// Promotes a variable in a block of its own.
#[verifier::loop_isolation(false)]
fn forward_block(block: &mut IrBlock, g: usize)
    ensures
        final(block)@ == (BlockV {
            instrs: promotion::forwarded(g, old(block)@.instrs).1,
            ..old(block)@
        }),
{
    let ghost list = block@.instrs;
    let mut out: Vec<IrInst> = Vec::new();
    let mut value: Option<IrOperand> = None;
    let mut i: usize = 0;
    assert(ir::insts(out@) =~= Seq::empty());
    while i < block.instrs.len()
        invariant
            i <= block.instrs.len(),
            (value, ir::insts(out@)) == promotion::forwarded(g, list.take(i as int)),
        decreases block.instrs.len() - i,
    {
        assert(list[i as int] == block.instrs@[i as int]@);
        assert(list.take(i + 1).drop_last() =~= list.take(i as int));
        let inst = &block.instrs[i];
        i = i + 1;
        match inst {
            IrInst::Alloc { dest, .. } => {
                if *dest == g {
                    continue;
                }
            },
            IrInst::Store { value: v, ptr } => {
                if *ptr == IrOperand::Global(g) {
                    value = Some(*v);
                    continue;
                }
            },
            IrInst::Load { dest, src } => {
                if *src == IrOperand::Global(g) {
                    let v = match value {
                        Some(v) => v,
                        None => IrOperand::Int(0),
                    };
                    out.push(const_fold::copy_inst(*dest, v));
                    continue;
                }
            },
            _ => {},
        }
        out.push(inst.clone());
    }
    assert(list.take(i as int) =~= list);
    block.instrs = out;
}

/// Promotes a variable in each block of a function.
#[verifier::loop_isolation(false)]
fn promote_single_block(func: &mut IrFunc, g: usize)
    ensures
        final(func)@ == (FuncV {
            blocks: promotion::forwarded_blocks(g, old(func)@.blocks),
            ..old(func)@
        }),
{
    let ghost before = func@;
    let ghost want = promotion::forwarded_blocks(g, before.blocks);
    let n = func.blocks.len();
    let mut b: usize = 0;
    while b < n
        invariant
            b <= n,
            func.blocks@.len() == n,
            func@ == (FuncV { blocks: func@.blocks, ..before }),
            forall|k: int|
                0 <= k < n ==> (#[trigger] func@.blocks[k]) == if k < b {
                    want[k]
                } else {
                    before.blocks[k]
                },
        decreases n - b,
    {
        let ghost mid = func@.blocks;
        assert(mid[b as int] == func.blocks@[b as int]@);
        forward_block(&mut func.blocks[b], g);
        assert(func@.blocks =~= mid.update(b as int, want[b as int]));
        b = b + 1;
    }
    assert(func@.blocks =~= want);
}

/// The variables that are promoted.
fn all_promoted(phi: &Vec<usize>, simple: &Vec<(usize, IrOperand)>) -> (r: Vec<usize>)
    ensures
        r@ == phi@ + promotion::firsts(simple@),
{
    let ghost all = promotion::firsts(simple@);
    let mut out = ir::copy_indices(phi);
    let mut i: usize = 0;
    assert(out@ =~= phi@ + all.take(0));
    while i < simple.len()
        invariant
            i <= simple.len(),
            all == promotion::firsts(simple@),
            out@ == phi@ + all.take(i as int),
        decreases simple.len() - i,
    {
        out.push(simple[i].0);
        i = i + 1;
        assert(out@ =~= phi@ + all.take(i as int));
    }
    assert(all.take(i as int) =~= all);
    out
}

/// The blocks that each block leads to.
#[verifier::loop_isolation(false)]
fn successor_lists(g: &Cfg) -> (r: Vec<Vec<usize>>)
    requires
        g.wf(),
    ensures
        r@.len() == g.predecessors@.len(),
        forall|p: int|
            0 <= p < r@.len() ==> (#[trigger] r@[p])@ == promotion::succ_from(
                preds_of(*g),
                p,
                r@.len() as int,
            ),
{
    let n = g.len();
    let ghost preds = preds_of(*g);
    let mut succ = cfg::empty_lists(n);
    let mut b: usize = 0;
    while b < n
        invariant
            b <= n,
            succ@.len() == n,
            forall|p: int|
                0 <= p < n ==> (#[trigger] succ@[p])@ == promotion::succ_from(preds, p, b as int),
        decreases n - b,
    {
        let ghost mid = succ@;
        assert(preds[b as int] == g.predecessors@[b as int]@);
        cfg::add_edges(&mut succ, b, &g.predecessors[b]);
        assert forall|p: int| 0 <= p < n implies (#[trigger] succ@[p])@ == promotion::succ_from(
            preds,
            p,
            b + 1,
        ) by {
            assert(mid[p]@ == promotion::succ_from(preds, p, b as int));
        }
        b = b + 1;
    }
    succ
}

/// The children of a block are among the blocks.
pub proof fn children_in_range(idom: Seq<usize>, n: int, p: int)
    ensures
        forall|k: int|
            0 <= k < children_below(idom, n, p).len() ==> #[trigger] children_below(idom, n, p)[k]
                < n,
    decreases n,
{
    if n > 1 {
        children_in_range(idom, n - 1, p);
        let before = children_below(idom, n - 1, p);
        assert forall|k: int|
            0 <= k < children_below(idom, n, p).len() implies #[trigger] children_below(
            idom,
            n,
            p,
        )[k] < n by {
            if k < before.len() {
                assert(before[k] < n - 1);
            }
        }
    }
}

/// The blocks that a block leads to are among the blocks.
pub proof fn succ_in_range(preds: Seq<Seq<usize>>, p: int, n: int)
    ensures
        forall|k: int|
            0 <= k < promotion::succ_from(preds, p, n).len() ==> #[trigger] promotion::succ_from(
                preds,
                p,
                n,
            )[k] < n,
    decreases n,
{
    if n > 0 {
        succ_in_range(preds, p, n - 1);
        let before = promotion::succ_from(preds, p, n - 1);
        let more = cfg::repeated(preds[n - 1], p as usize, (n - 1) as usize);
        cfg::repeated_is(preds[n - 1], p as usize, (n - 1) as usize);
        assert forall|k: int|
            0 <= k < promotion::succ_from(preds, p, n).len() implies #[trigger] promotion::succ_from(
            preds,
            p,
            n,
        )[k] < n by {
            if k < before.len() {
                assert(before[k] < n - 1);
            } else {
                assert(more[k - before.len()] == (n - 1) as usize);
            }
        }
    }
}

/// Promotes variables of a function with several blocks.
fn promote_blocks(
    func: &mut IrFunc,
    g: &Cfg,
    idom: &Vec<usize>,
    base: usize,
    phi: &Vec<usize>,
    simple: &Vec<(usize, IrOperand)>,
    Ghost(f): Ghost<FuncV>,
)
    requires
        old(func)@ == cfg::with_preds(f),
        f.blocks.len() > 0,
        g.is_graph_of(f.blocks),
        g.wf(),
        idom@ == promotion::func_idom(f.blocks),
        forall|i: int| 0 <= i < idom@.len() ==> #[trigger] idom@[i] < idom@.len(),
        base == promotion::fresh_base(f.blocks),
        base + f.blocks.len() * phi@.len() <= usize::MAX,
    ensures
        final(func)@ == (FuncV { blocks: promotion::promoted_blocks(f, phi@, simple@), ..f }),
{
    let n = func.blocks.len();
    assert(n == f.blocks.len());
    let ghost preds = promotion::func_preds(f.blocks);
    assert(preds_of(*g) =~= preds);
    let df = compute_df(g, idom.as_slice());
    let children = dom_tree_children(idom.as_slice());
    let succ = successor_lists(g);
    let promoted = all_promoted(phi, simple);
    let phis = renaming::place_phis(&func.blocks, &df, phi, base, Ghost(preds), Ghost(idom@));
    let mut new = renaming::start_blocks(&func.blocks, &phis);
    let r = Renamer { blocks: &func.blocks, children, succ, phis, promoted };
    proof {
        assert forall|b: int, k: int|
            #![trigger r.children@[b]@[k]]
            0 <= b < r.children@.len() && 0 <= k < r.children@[b]@.len() implies r.children@[b]@[k]
            < n by {
            children_in_range(idom@, n as int, b);
        }
        assert forall|b: int, k: int|
            #![trigger r.succ@[b]@[k]]
            0 <= b < r.succ@.len() && 0 <= k < r.succ@[b]@.len() implies r.succ@[b]@[k] < n by {
            succ_in_range(preds, b, n as int);
        }
        assert(r@.children =~= Seq::new(
            n as nat,
            |p: int| children_below(idom@, n as int, p),
        ));
        assert(r@.succ =~= Seq::new(n as nat, |p: int| promotion::succ_from(preds, p, n as int)));
        assert(new@.len() == ir::blocks_view(new@).len());
    }
    let mut env: Vec<(usize, IrOperand)> = Vec::new();
    renaming::rename_multi(&r, 0, &mut env, &mut new, n);
    renaming::clean_blocks(&mut new, simple, &r.promoted);
    func.blocks = new;
}

/// Promotes variables that are only loaded and stored to SSA values. Returns whether it did.
#[verifier::loop_isolation(false)]
pub fn mem2reg(func: &mut IrFunc) -> (r: bool)
    requires
        promotion::room(old(func)@),
    ensures
        (final(func)@, r) == promotion::promoted(old(func)@),
{
    let ghost f = func@;
    let names = find_promotable_allocas(func);
    if names.len() == 0 {
        return false;
    }
    if func.blocks.len() == 1 {
        let mut k: usize = 0;
        while k < names.len()
            invariant
                k <= names.len(),
                func@ == (FuncV { blocks: func@.blocks, ..f }),
                promotion::forwarded_all(names@, 0, f.blocks) == promotion::forwarded_all(
                    names@,
                    k as int,
                    func@.blocks,
                ),
            decreases names.len() - k,
        {
            promote_single_block(func, names[k]);
            k = k + 1;
        }
        return true;
    }
    proof {
        let n = f.blocks.len() as int;
        let m = names@.len() as int;
        assert(n * m >= 0) by (nonlinear_arith)
            requires
                n >= 0,
                m >= 0,
        ;
        if n == 0 {
            reveal(Seq::filter);
            assert(promotion::block_vars(f.blocks, 0).len() == 0);
            assert(promotion::promotable(f.blocks).len() == 0);
        }
    }
    let base = match fresh_base(&func.blocks) {
        Some(base) => base,
        None => return false,
    };
    let g = Cfg::build(func);
    let idom = compute_idom(&g);
    assert(preds_of(g) =~= promotion::func_preds(f.blocks));
    assert(idom@ =~= promotion::func_idom(f.blocks));
    assert(func@.blocks.len() == f.blocks.len());
    let (phi, simple) = classify(&func.blocks, &idom, &names);
    if phi.len() == 0 && simple.len() == 0 {
        return false;
    }
    proof {
        let n = f.blocks.len() as int;
        let m = names@.len() as int;
        let k = phi@.len() as int;
        assert(n * k <= n * m) by (nonlinear_arith)
            requires
                n >= 0,
                k <= m,
        ;
    }
    promote_blocks(func, &g, &idom, base, &phi, &simple, Ghost(f));
    true
}

// ── Phi lowering ─────────────────────────────────────────────────────────────

/// What a list splits at, all that begins with it splits at.
proof fn split_in_prefix(instrs: Seq<InstV>, k: int)
    requires
        0 <= k <= instrs.len(),
        promotion::split_at(instrs.take(k)) < k,
    ensures
        promotion::split_at(instrs) == promotion::split_at(instrs.take(k)),
    decreases instrs.len() - k,
{
    if k == instrs.len() {
        assert(instrs.take(k) =~= instrs);
    } else {
        assert(instrs.take(k + 1).drop_last() =~= instrs.take(k));
        split_in_prefix(instrs, k + 1);
    }
}

/// The position of the first instruction that ends a block, or the length.
#[verifier::loop_isolation(false)]
fn find_split(instrs: &Vec<IrInst>) -> (r: usize)
    ensures
        r == promotion::split_at(ir::insts(instrs@)),
        r <= instrs@.len(),
{
    let ghost list = ir::insts(instrs@);
    let mut i: usize = 0;
    while i < instrs.len()
        invariant
            i <= instrs.len(),
            promotion::split_at(list.take(i as int)) == i,
        decreases instrs.len() - i,
    {
        assert(list[i as int] == instrs@[i as int]@);
        assert(list.take(i + 1).drop_last() =~= list.take(i as int));
        if instrs[i].is_terminator() {
            proof {
                split_in_prefix(list, i + 1);
            }
            return i;
        }
        i = i + 1;
    }
    assert(list.take(i as int) =~= list);
    i
}

/// Adds the instructions from `from` up to `to` that are not phis.
#[verifier::loop_isolation(false)]
fn add_without_phis(out: &mut Vec<IrInst>, instrs: &Vec<IrInst>, from: usize, to: usize)
    requires
        from <= to <= instrs@.len(),
    ensures
        ir::insts(final(out)@) == ir::insts(old(out)@) + ir_to_koopa::without_phis(
            ir::insts(instrs@).subrange(from as int, to as int),
        ),
{
    let ghost start = ir::insts(out@);
    let ghost list = ir::insts(instrs@).subrange(from as int, to as int);
    let mut i = from;
    reveal(Seq::filter);
    assert(start =~= start + ir_to_koopa::without_phis(list.take(0)));
    while i < to
        invariant
            from <= i <= to,
            ir::insts(out@) == start + ir_to_koopa::without_phis(list.take(i - from)),
        decreases to - i,
    {
        assert(list[i - from] == instrs@[i as int]@);
        assert(list.take(i + 1 - from).drop_last() =~= list.take(i - from));
        if !matches!(instrs[i], IrInst::Phi { .. }) {
            out.push(instrs[i].clone());
        }
        i = i + 1;
        assert(ir::insts(out@) =~= start + ir_to_koopa::without_phis(list.take(i - from)));
    }
    assert(list.take(i - from) =~= list);
}

/// The copies that belong to the block at a position, each with its destination and value.
#[verifier::loop_isolation(false)]
fn pick_copies(moves: &Vec<Move>, k: usize) -> (r: Vec<(usize, IrOperand)>)
    ensures
        copies_view(r@) == promotion::copies_to(ir_to_koopa::moves_view(moves@), k as int),
{
    let mut out: Vec<(usize, IrOperand)> = Vec::new();
    let ghost all = ir_to_koopa::moves_view(moves@);
    let mut i: usize = 0;
    assert(all.take(0) =~= Seq::empty());
    assert(copies_view(out@) =~= Seq::empty());
    while i < moves.len()
        invariant
            i <= moves.len(),
            copies_view(out@) == promotion::copies_to(all.take(i as int), k as int),
        decreases moves.len() - i,
    {
        assert(all[i as int] == moves@[i as int]@);
        assert(all.take(i + 1).drop_last() =~= all.take(i as int));
        let ghost before = out@;
        if moves[i].label == k {
            out.push((moves[i].dest, moves[i].value));
            assert(copies_view(out@) =~= copies_view(before).push(
                const_fold::copy_of(moves@[i as int].dest, moves@[i as int].value),
            ));
        }
        i = i + 1;
    }
    assert(all.take(i as int) =~= all);
    out
}

/// Copies by their destinations and values.
spec fn copies_view(v: Seq<(usize, IrOperand)>) -> Seq<InstV> {
    v.map_values(|c: (usize, IrOperand)| const_fold::copy_of(c.0, c.1))
}

/// Whether what a copy takes is changed by a copy before it.
#[verifier::loop_isolation(false)]
fn is_changed(copies: &Vec<(usize, IrOperand)>, k: usize) -> (r: bool)
    requires
        k < copies@.len(),
    ensures
        r == promotion::needs_saving(copies_view(copies@), k as int),
{
    let ghost all = copies_view(copies@);
    let ghost front = all.take(k as int);
    match copies[k].1 {
        IrOperand::Local(l) => {
            let mut j: usize = 0;
            while j < k
                invariant
                    j <= k,
                    forall|x: int| 0 <= x < j ==> !promotion::overwrites(#[trigger] front[x], l),
                decreases k - j,
            {
                assert(front[j as int] == all[j as int]);
                if copies[j].0 == l && copies[j].1 != IrOperand::Local(l) {
                    assert(promotion::overwrites(front[j as int], l));
                    return true;
                }
                j = j + 1;
            }
            false
        },
        _ => false,
    }
}

/// Adds the copies that belong to the block at a position.
#[verifier::loop_isolation(false)]
fn add_copies(out: &mut Vec<IrInst>, moves: &Vec<Move>, k: usize, base: usize)
    requires
        base + moves@.len() <= usize::MAX,
    ensures
        ir::insts(final(out)@) == ir::insts(old(out)@) + promotion::at_once(
            promotion::copies_to(ir_to_koopa::moves_view(moves@), k as int),
            base as int,
        ),
{
    let ghost start = ir::insts(out@);
    let copies = pick_copies(moves, k);
    let ghost all = copies_view(copies@);
    let n = copies.len();
    proof {
        promotion::copies_are_fewer(ir_to_koopa::moves_view(moves@), k as int);
        assert(all.len() == n);
    }
    let mut i: usize = 0;
    assert(start =~= start + promotion::saves(all, 0, base as int));
    while i < n
        invariant
            i <= n,
            ir::insts(out@) == start + promotion::saves(all, i as int, base as int),
        decreases n - i,
    {
        assert(all[i as int] == const_fold::copy_of(copies@[i as int].0, copies@[i as int].1));
        if is_changed(&copies, i) {
            out.push(const_fold::copy_inst(base + i, copies[i].1));
        }
        i = i + 1;
        assert(ir::insts(out@) =~= start + promotion::saves(all, i as int, base as int));
    }
    let ghost mid = ir::insts(out@);
    let ghost rest = Seq::new(all.len(), |x: int| promotion::settled(all, x, base as int));
    let mut j: usize = 0;
    assert(mid =~= mid + rest.take(0));
    while j < n
        invariant
            j <= n,
            ir::insts(out@) == mid + rest.take(j as int),
        decreases n - j,
    {
        assert(all[j as int] == const_fold::copy_of(copies@[j as int].0, copies@[j as int].1));
        let value = if is_changed(&copies, j) {
            IrOperand::Local(base + j)
        } else {
            copies[j].1
        };
        out.push(const_fold::copy_inst(copies[j].0, value));
        j = j + 1;
        assert(rest.take(j as int) =~= rest.take(j - 1).push(rest[j - 1]));
        assert(ir::insts(out@) =~= mid + rest.take(j as int));
    }
    assert(rest.take(j as int) =~= rest);
    assert(ir::insts(out@) =~= start + promotion::at_once(all, base as int));
}

/// Whether there are indices enough for the values that lowering may keep.
pub fn has_lowering_room(func: &IrFunc) -> (r: bool)
    ensures
        r == promotion::lowering_room(func@),
{
    let moves = ir_to_koopa::collect_moves(&func.blocks);
    assert(ir_to_koopa::moves_view(moves@).len() == moves@.len());
    match fresh_base(&func.blocks) {
        Some(base) => base.checked_add(moves.len()).is_some(),
        None => false,
    }
}

/// Turns phis, which name blocks by position, into copies at the end of those blocks. All values
/// are read before any of them is overwritten.
#[verifier::loop_isolation(false)]
pub fn lower_phis(func: &mut IrFunc)
    requires
        promotion::lowering_room(old(func)@),
    ensures
        final(func)@ == promotion::lowered(old(func)@),
{
    let ghost before = func@;
    let ghost want = promotion::lowered(before).blocks;
    let moves = ir_to_koopa::collect_moves(&func.blocks);
    assert(ir_to_koopa::moves_view(moves@).len() == moves@.len());
    let base = match fresh_base(&func.blocks) {
        Some(base) => base,
        None => 0,
    };
    let n = func.blocks.len();
    let mut b: usize = 0;
    while b < n
        invariant
            b <= n,
            func.blocks@.len() == n,
            func@ == (FuncV { blocks: func@.blocks, ..before }),
            forall|k: int|
                0 <= k < n ==> (#[trigger] func@.blocks[k]) == if k < b {
                    want[k]
                } else {
                    before.blocks[k]
                },
        decreases n - b,
    {
        let ghost mid = func@.blocks;
        assert(mid[b as int] == func.blocks@[b as int]@);
        let ghost list = mid[b as int].instrs;
        let instrs = &func.blocks[b].instrs;
        let split = find_split(instrs);
        let mut out: Vec<IrInst> = Vec::new();
        add_without_phis(&mut out, instrs, 0, split);
        add_copies(&mut out, &moves, b, base);
        add_without_phis(&mut out, instrs, split, instrs.len());
        assert(list.subrange(0, split as int) =~= list.take(split as int));
        assert(list.subrange(split as int, list.len() as int) =~= list.skip(split as int));
        assert(ir::insts(out@) =~= want[b as int].instrs);
        func.blocks[b].instrs = out;
        assert(func@.blocks =~= mid.update(b as int, want[b as int]));
        b = b + 1;
    }
    assert(func@.blocks =~= want);
}

} // verus!

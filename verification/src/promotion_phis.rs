//! Where the promotion of variables places phis: enough of them, each with a value of its own.

use crate::ir::BlockV;
use crate::promotion::{self, Phis, PlaceV};
use crate::ssa;
use vstd::prelude::*;

verus! {

/// Whether a block has a phi for a variable.
pub open spec fn has_phi(phis: Seq<Phis>, b: int, g: usize) -> bool {
    exists|k: int| 0 <= k < phis[b].len() && (#[trigger] phis[b][k]).0 == g
}

/// Whether a block gives a variable a new value.
pub open spec fn sets(blocks: Seq<BlockV>, phis: Seq<Phis>, b: int, g: usize) -> bool {
    promotion::has_store(blocks[b].instrs, g) || has_phi(phis, b, g)
}

/// The blocks in the frontier of a block that gives a variable a new value have a phi for it.
pub open spec fn enough(
    blocks: Seq<BlockV>,
    preds: Seq<Seq<usize>>,
    idom: Seq<usize>,
    phis: Seq<Phis>,
    g: usize,
) -> bool {
    forall|x: int, d: int|
        0 <= x < preds.len() && 0 <= d < preds.len() && sets(blocks, phis, x, g)
            && #[trigger] ssa::in_frontier(preds, idom, x, d) ==> has_phi(phis, d, g)
}

/// The blocks in the frontier of a block with a phi for a variable have one.
spec fn passed_on(
    preds: Seq<Seq<usize>>,
    idom: Seq<usize>,
    phis: Seq<Phis>,
    g: usize,
) -> bool {
    forall|x: int, d: int|
        0 <= x < preds.len() && 0 <= d < preds.len() && has_phi(phis, x, g)
            && #[trigger] ssa::in_frontier(preds, idom, x, d) ==> has_phi(phis, d, g)
}

/// Phis have values of their own from a range, at most one for a variable in a block, and stand
/// only where several ways meet.
pub open spec fn apart(preds: Seq<Seq<usize>>, phis: Seq<Phis>, base: int, next: int) -> bool {
    &&& phis.len() == preds.len()
    &&& forall|b: int, k: int|
        0 <= b < phis.len() && 0 <= k < phis[b].len() ==> base <= (#[trigger] phis[b][k]).1 < next
    &&& forall|b: int, k: int, c: int, j: int|
        0 <= b < phis.len() && 0 <= k < phis[b].len() && 0 <= c < phis.len() && 0 <= j
            < phis[c].len() && (#[trigger] phis[b][k]).1 == (#[trigger] phis[c][j]).1 ==> b == c && k
            == j
    &&& forall|b: int, k: int, j: int|
        0 <= b < phis.len() && 0 <= k < phis[b].len() && 0 <= j < phis[b].len() && (
        #[trigger] phis[b][k]).0 == (#[trigger] phis[b][j]).0 ==> k == j
    &&& forall|b: int|
        0 <= b < phis.len() && (#[trigger] phis[b]).len() > 0 ==> preds[b].len() >= 2
}

/// A phi for a variable takes the place of one that the block has, or comes last.
proof fn with_phi_is(phis: Phis, g: usize, dest: usize) -> (k: int)
    ensures
        0 <= k <= phis.len(),
        k < phis.len() ==> phis[k].0 == g && promotion::with_phi(phis, g, dest) == phis.update(
            k,
            (g, dest),
        ),
        k == phis.len() ==> promotion::with_phi(phis, g, dest) == phis.push((g, dest)) && forall|
            i: int,
        |
            0 <= i < phis.len() ==> (#[trigger] phis[i]).0 != g,
    decreases phis.len(),
{
    if phis.len() == 0 {
        assert(promotion::with_phi(phis, g, dest) =~= phis.push((g, dest)));
        0
    } else if phis[0].0 == g {
        0
    } else {
        let rest = phis.drop_first();
        let k = with_phi_is(rest, g, dest);
        let new = promotion::with_phi(phis, g, dest);
        assert(new == seq![phis[0]] + promotion::with_phi(rest, g, dest));
        if k < rest.len() {
            assert(new =~= phis.update(k + 1, (g, dest)));
        } else {
            assert(new =~= phis.push((g, dest)));
            assert forall|i: int| 0 <= i < phis.len() implies (#[trigger] phis[i]).0 != g by {
                if i > 0 {
                    assert(rest[i - 1] == phis[i]);
                }
            }
        }
        k + 1
    }
}

/// Blocks with one more phi for a variable keep their phis apart.
proof fn one_more_phi(preds: Seq<Seq<usize>>, phis: Seq<Phis>, base: int, d: int, g: usize, dest: usize)
    requires
        apart(preds, phis, base, dest as int),
        0 <= d < phis.len(),
        base <= dest,
        preds[d].len() >= 2,
    ensures
        ({
            let new = phis.update(d, promotion::with_phi(phis[d], g, dest));
            &&& apart(preds, new, base, dest + 1)
            &&& has_phi(new, d, g)
            &&& forall|x: int, h: usize|
                0 <= x < phis.len() && (x != d || h != g) ==> (#[trigger] has_phi(new, x, h)
                    <==> has_phi(phis, x, h))
        }),
{
    let k = with_phi_is(phis[d], g, dest);
    let list = promotion::with_phi(phis[d], g, dest);
    let new = phis.update(d, list);
    assert(new[d] == list);
    assert(list[k] == (g, dest));
    assert(new[d][k].0 == g);
    assert forall|i: int| 0 <= i < list.len() && i != k implies #[trigger] list[i] == phis[d][i] by {}
    assert forall|b: int, i: int| 0 <= b < new.len() && 0 <= i < new[b].len() implies base <= (
    #[trigger] new[b][i]).1 < dest + 1 by {
        if b != d || i != k {
            assert(new[b][i] == phis[b][i]);
        }
    }
    assert forall|b: int, i: int, c: int, j: int|
        0 <= b < new.len() && 0 <= i < new[b].len() && 0 <= c < new.len() && 0 <= j < new[c].len()
            && (#[trigger] new[b][i]).1 == (#[trigger] new[c][j]).1 implies b == c && i == j by {
        if b != d || i != k {
            assert(new[b][i] == phis[b][i]);
        }
        if c != d || j != k {
            assert(new[c][j] == phis[c][j]);
        }
    }
    assert forall|b: int, i: int, j: int|
        0 <= b < new.len() && 0 <= i < new[b].len() && 0 <= j < new[b].len() && (
        #[trigger] new[b][i]).0 == (#[trigger] new[b][j]).0 implies i == j by {
        if b != d {
            assert(new[b][i] == phis[b][i] && new[b][j] == phis[b][j]);
        } else {
            if i != k {
                assert(new[b][i] == phis[b][i]);
            }
            if j != k {
                assert(new[b][j] == phis[b][j]);
            }
            if i == k && j != k && k < phis[d].len() {
                assert(phis[d][k].0 == g);
            }
            if j == k && i != k && k < phis[d].len() {
                assert(phis[d][k].0 == g);
            }
        }
    }
    assert forall|x: int, h: usize| 0 <= x < phis.len() && (x != d || h != g) implies (
    #[trigger] has_phi(new, x, h) <==> has_phi(phis, x, h)) by {
        if x == d {
            if has_phi(new, x, h) {
                let i = choose|i: int| 0 <= i < new[x].len() && (#[trigger] new[x][i]).0 == h;
                assert(phis[x][i].0 == h);
            }
            if has_phi(phis, x, h) {
                let i = choose|i: int| 0 <= i < phis[x].len() && (#[trigger] phis[x][i]).0 == h;
                assert(new[x][i].0 == h);
            }
        } else {
            assert(new[x] == phis[x]);
        }
    }
}

/// A state of placing the phis of a variable that can go on.
spec fn placing(preds: Seq<Seq<usize>>, g: usize, s: PlaceV, base: int) -> bool {
    &&& s.placed.len() == preds.len()
    &&& apart(preds, s.phis, base, s.next as int)
    &&& base <= s.next
    &&& s.next + promotion::free(s.placed) <= usize::MAX
    &&& forall|d: int| 0 <= d < preds.len() && #[trigger] s.placed[d] ==> has_phi(s.phis, d, g)
}

/// What becomes of the phis while those of a variable are placed.
spec fn grown(preds: Seq<Seq<usize>>, g: usize, s: PlaceV, t: PlaceV) -> bool {
    &&& t.next + promotion::free(t.placed) == s.next + promotion::free(s.placed)
    &&& forall|x: int, h: usize|
        0 <= x < preds.len() && h != g ==> (#[trigger] has_phi(t.phis, x, h) <==> has_phi(
            s.phis,
            x,
            h,
        ))
    &&& forall|x: int|
        0 <= x < preds.len() && has_phi(s.phis, x, g) ==> #[trigger] has_phi(t.phis, x, g)
}

/// A visit gives a phi to all blocks in a frontier, and leaves those that are new to be visited.
proof fn visit_places(
    preds: Seq<Seq<usize>>,
    idom: Seq<usize>,
    g: usize,
    b: int,
    d: int,
    s: PlaceV,
    base: int,
)
    requires
        placing(preds, g, s, base),
        0 <= d <= preds.len() <= usize::MAX,
    ensures
        ({
            let t = promotion::visit(preds, idom, g, b, d, s);
            &&& placing(preds, g, t, base)
            &&& grown(preds, g, s, t)
            &&& forall|x: int|
                d <= x < preds.len() && ssa::in_frontier(preds, idom, b, x)
                    ==> #[trigger] has_phi(t.phis, x, g)
            &&& forall|x: int|
                0 <= x < preds.len() && s.work.contains(x as usize) ==> #[trigger] t.work.contains(
                    x as usize,
                )
            &&& forall|x: int|
                0 <= x < preds.len() && #[trigger] has_phi(t.phis, x, g) && !has_phi(s.phis, x, g)
                    ==> t.work.contains(x as usize)
        }),
    decreases preds.len() - d,
{
    if d < preds.len() {
        if ssa::in_frontier(preds, idom, b, d) && !s.placed[d] {
            let next = PlaceV {
                work: s.work.push(d as usize),
                placed: s.placed.update(d, true),
                phis: s.phis.update(d, promotion::with_phi(s.phis[d], g, s.next)),
                next: (s.next + 1) as usize,
            };
            promotion::free_update(s.placed, d);
            one_more_phi(preds, s.phis, base, d, g, s.next);
            assert forall|x: int| 0 <= x < preds.len() && #[trigger] next.placed[x] implies has_phi(
                next.phis,
                x,
                g,
            ) by {
                if x != d {
                    assert(s.placed[x]);
                }
            }
            assert forall|x: int|
                0 <= x < preds.len() && s.work.contains(
                    x as usize,
                ) implies #[trigger] next.work.contains(x as usize) by {
                let i = choose|i: int| 0 <= i < s.work.len() && s.work[i] == x as usize;
                assert(next.work[i] == x as usize);
            }
            assert(next.work[s.work.len() as int] == d as usize);
            assert(next.work.contains(d as usize));
            visit_places(preds, idom, g, b, d + 1, next, base);
        } else {
            visit_places(preds, idom, g, b, d + 1, s, base);
        }
    }
}

/// Of the blocks that give a variable a new value, all that are not still to be visited have had
/// their frontiers seen to.
spec fn seen_to(
    blocks: Seq<BlockV>,
    preds: Seq<Seq<usize>>,
    idom: Seq<usize>,
    g: usize,
    s: PlaceV,
) -> bool {
    forall|x: int, d: int|
        0 <= x < preds.len() && 0 <= d < preds.len() && sets(blocks, s.phis, x, g)
            && !s.work.contains(x as usize) && #[trigger] ssa::in_frontier(preds, idom, x, d)
            ==> has_phi(s.phis, d, g)
}

/// Once nothing is left to be visited, there are enough phis.
proof fn place_is_enough(
    blocks: Seq<BlockV>,
    preds: Seq<Seq<usize>>,
    idom: Seq<usize>,
    g: usize,
    s: PlaceV,
    base: int,
)
    requires
        placing(preds, g, s, base),
        preds.len() <= usize::MAX,
        seen_to(blocks, preds, idom, g, s),
    ensures
        ({
            let t = promotion::place(preds, idom, g, s);
            &&& placing(preds, g, t, base)
            &&& grown(preds, g, s, t)
            &&& enough(blocks, preds, idom, t.phis, g)
        }),
    decreases promotion::free(s.placed), s.work.len(),
{
    if s.work.len() > 0 {
        let b = s.work.last() as int;
        let popped = PlaceV { work: s.work.drop_last(), ..s };
        let next = promotion::visit(preds, idom, g, b, 0, popped);
        promotion::visit_progress(preds, idom, g, b, 0, popped);
        visit_places(preds, idom, g, b, 0, popped, base);
        assert forall|x: int, d: int|
            0 <= x < preds.len() && 0 <= d < preds.len() && sets(blocks, next.phis, x, g)
                && !next.work.contains(x as usize) && #[trigger] ssa::in_frontier(
                preds,
                idom,
                x,
                d,
            ) implies has_phi(next.phis, d, g) by {
            if x != b {
                assert(sets(blocks, s.phis, x, g));
                assert(!popped.work.contains(x as usize));
                if s.work.contains(x as usize) {
                    let i = choose|i: int| 0 <= i < s.work.len() && s.work[i] == x as usize;
                    if i < s.work.len() - 1 {
                        assert(popped.work[i] == x as usize);
                    }
                }
                assert(has_phi(s.phis, d, g));
            }
        }
        place_is_enough(blocks, preds, idom, g, next, base);
    } else {
        assert forall|x: int| 0 <= x < preds.len() implies !(#[trigger] s.work.contains(
            x as usize,
        )) by {}
    }
}

/// The blocks that store to a variable are listed.
pub(crate) proof fn def_blocks_are(blocks: Seq<BlockV>, g: usize, n: int)
    requires
        0 <= n <= blocks.len() <= usize::MAX,
    ensures
        forall|x: int|
            0 <= x < n ==> (#[trigger] promotion::has_store(blocks[x].instrs, g)
                <==> promotion::def_blocks(blocks, g, n).contains(x as usize)),
        forall|i: int|
            0 <= i < promotion::def_blocks(blocks, g, n).len() ==> #[trigger] promotion::def_blocks(
                blocks,
                g,
                n,
            )[i] < n,
    decreases n,
{
    if n > 0 {
        def_blocks_are(blocks, g, n - 1);
        let before = promotion::def_blocks(blocks, g, n - 1);
        let all = promotion::def_blocks(blocks, g, n);
        if promotion::has_store(blocks[n - 1].instrs, g) {
            assert(all[before.len() as int] == (n - 1) as usize);
        }
        assert forall|x: int| 0 <= x < n implies (#[trigger] promotion::has_store(
            blocks[x].instrs,
            g,
        ) <==> all.contains(x as usize)) by {
            if before.contains(x as usize) {
                let i = choose|i: int| 0 <= i < before.len() && before[i] == x as usize;
                assert(all[i] == x as usize);
            }
            if all.contains(x as usize) {
                let i = choose|i: int| 0 <= i < all.len() && all[i] == x as usize;
                if i < before.len() {
                    assert(before[i] == x as usize);
                }
            }
        }
        assert forall|i: int| 0 <= i < all.len() implies #[trigger] all[i] < n by {
            if i < before.len() {
                assert(before[i] < n - 1);
            }
        }
    }
}

/// No block has a phi yet.
proof fn all_free(n: nat)
    ensures
        promotion::free(Seq::new(n, |i: int| false)) == n,
    decreases n,
{
    if n > 0 {
        let all = Seq::new(n, |i: int| false);
        assert(all.drop_last() =~= Seq::new((n - 1) as nat, |i: int| false));
        all_free((n - 1) as nat);
    }
}

/// All variables get enough phis, and only they get phis.
proof fn place_all_is_enough(
    blocks: Seq<BlockV>,
    preds: Seq<Seq<usize>>,
    idom: Seq<usize>,
    vars: Seq<usize>,
    k: int,
    phis: Seq<Phis>,
    next: usize,
    base: int,
)
    requires
        0 <= k <= vars.len(),
        blocks.len() == preds.len(),
        preds.len() <= usize::MAX,
        apart(preds, phis, base, next as int),
        base <= next,
        next + preds.len() * (vars.len() - k) <= usize::MAX,
        forall|g: usize| #[trigger] passed_on(preds, idom, phis, g),
        forall|x: int, g: usize|
            0 <= x < preds.len() && #[trigger] has_phi(phis, x, g) ==> vars.contains(g),
        forall|i: int| 0 <= i < k ==> enough(blocks, preds, idom, phis, #[trigger] vars[i]),
    ensures
        ({
            let (new, last) = promotion::place_all(blocks, preds, idom, vars, k, phis, next);
            &&& apart(preds, new, base, last as int)
            &&& forall|x: int, g: usize|
                0 <= x < preds.len() && #[trigger] has_phi(new, x, g) ==> vars.contains(g)
            &&& forall|i: int|
                0 <= i < vars.len() ==> enough(blocks, preds, idom, new, #[trigger] vars[i])
        }),
    decreases vars.len() - k,
{
    if k < vars.len() {
        let g = vars[k];
        let n = preds.len();
        let start = PlaceV {
            work: promotion::def_blocks(blocks, g, blocks.len() as int),
            placed: Seq::new(n, |i: int| false),
            phis,
            next,
        };
        all_free(n);
        def_blocks_are(blocks, g, blocks.len() as int);
        assert(next + n <= usize::MAX && next + n + n * (vars.len() - k - 1) <= usize::MAX)
            by (nonlinear_arith)
            requires
                next + n * (vars.len() - k) <= usize::MAX,
                k < vars.len(),
                n >= 0,
        ;
        assert(passed_on(preds, idom, phis, g));
        assert(seen_to(blocks, preds, idom, g, start));
        place_is_enough(blocks, preds, idom, g, start, base);
        let s = promotion::place(preds, idom, g, start);
        assert(s.next <= next + n);
        assert(s.next + n * (vars.len() - (k + 1)) <= usize::MAX);
        assert forall|h: usize| #[trigger] passed_on(preds, idom, s.phis, h) by {
            if h == g {
                assert(enough(blocks, preds, idom, s.phis, g));
            } else {
                assert(passed_on(preds, idom, phis, h));
            }
        }
        assert forall|i: int| 0 <= i < k + 1 implies enough(
            blocks,
            preds,
            idom,
            s.phis,
            #[trigger] vars[i],
        ) by {
            if vars[i] != g {
                assert(enough(blocks, preds, idom, phis, vars[i]));
            }
        }
        assert forall|x: int, h: usize|
            0 <= x < preds.len() && #[trigger] has_phi(s.phis, x, h) implies vars.contains(h) by {
            if h != g {
                assert(has_phi(phis, x, h));
            }
        }
        place_all_is_enough(blocks, preds, idom, vars, k + 1, s.phis, s.next, base);
    }
}

/// All variables get enough phis, only they get phis, and the phis are kept apart.
pub(crate) proof fn phis_are_enough(
    blocks: Seq<BlockV>,
    preds: Seq<Seq<usize>>,
    idom: Seq<usize>,
    vars: Seq<usize>,
    base: usize,
)
    requires
        blocks.len() == preds.len(),
        preds.len() <= usize::MAX,
        base + preds.len() * vars.len() <= usize::MAX,
    ensures
        ({
            let (phis, last) = promotion::place_all(
                blocks,
                preds,
                idom,
                vars,
                0,
                Seq::new(preds.len(), |i: int| Seq::empty()),
                base,
            );
            &&& apart(preds, phis, base as int, last as int)
            &&& forall|x: int, g: usize|
                0 <= x < preds.len() && #[trigger] has_phi(phis, x, g) ==> vars.contains(g)
            &&& forall|i: int|
                0 <= i < vars.len() ==> enough(blocks, preds, idom, phis, #[trigger] vars[i])
        }),
{
    let none: Seq<Phis> = Seq::new(preds.len(), |i: int| Seq::empty());
    assert forall|x: int, g: usize| 0 <= x < preds.len() implies !(#[trigger] has_phi(
        none,
        x,
        g,
    )) by {}
    assert forall|g: usize| #[trigger] passed_on(preds, idom, none, g) by {}
    place_all_is_enough(blocks, preds, idom, vars, 0, none, base, base as int);
}

} // verus!

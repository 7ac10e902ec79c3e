//! Dominators: what they are, and facts about them.
//!
//! A graph is given by the predecessors of each block. Block 0 is its entry; a block without
//! predecessors can be entered too.

use vstd::prelude::*;

verus! {

/// Whether block `b` can be reached, in at most `k` steps from where the graph is entered, by a
/// path that does not touch block `d`.
pub open spec fn avoids(preds: Seq<Seq<usize>>, d: int, b: int, k: nat) -> bool
    decreases k,
{
    b != d && (b == 0 || preds[b].len() == 0 || (k > 0 && exists|i: int|
        0 <= i < preds[b].len() && avoids(preds, d, (#[trigger] preds[b][i]) as int, (k - 1) as nat)))
}

/// Whether every path to block `b` goes through block `d`.
pub open spec fn dominates(preds: Seq<Seq<usize>>, d: int, b: int) -> bool {
    forall|k: nat| !#[trigger] avoids(preds, d, b, k)
}

/// The number of blocks below `n` that dominate a block.
pub open spec fn dom_count(preds: Seq<Seq<usize>>, n: int, b: int) -> nat
    decreases n,
{
    if n <= 0 {
        0
    } else {
        dom_count(preds, n - 1, b) + if dominates(preds, n - 1, b) {
            1nat
        } else {
            0
        }
    }
}

/// Among the blocks below `k` that dominate `b` and are not `b`, the last of those that most
/// blocks dominate.
pub open spec fn nearest(preds: Seq<Seq<usize>>, b: int, k: int) -> Option<int>
    decreases k,
{
    if k <= 0 {
        None
    } else {
        let before = nearest(preds, b, k - 1);
        let c = k - 1;
        if c != b && dominates(preds, c, b) {
            match before {
                None => Some(c),
                Some(d) => if dom_count(preds, preds.len() as int, d) <= dom_count(
                    preds,
                    preds.len() as int,
                    c,
                ) {
                    Some(c)
                } else {
                    Some(d)
                },
            }
        } else {
            before
        }
    }
}

/// The immediate dominator of a block; that of the entry, and of a block that has none, is the
/// entry.
pub open spec fn idom_of(preds: Seq<Seq<usize>>, b: int) -> usize {
    if b <= 0 {
        0
    } else {
        match nearest(preds, b, preds.len() as int) {
            Some(d) => d as usize,
            None => 0,
        }
    }
}

/// The edges of a graph lead to its blocks.
pub open spec fn graph(preds: Seq<Seq<usize>>) -> bool {
    forall|b: int, i: int|
        0 <= b < preds.len() && 0 <= i < preds[b].len() ==> #[trigger] preds[b][i] < preds.len()
}

/// A longer bound allows every path that a shorter one does.
pub proof fn avoids_longer(preds: Seq<Seq<usize>>, d: int, b: int, k: nat, m: nat)
    requires
        avoids(preds, d, b, k),
        k <= m,
    ensures
        avoids(preds, d, b, m),
    decreases k,
{
    if b != 0 && preds[b].len() > 0 {
        let i = choose|i: int|
            0 <= i < preds[b].len() && avoids(
                preds,
                d,
                (#[trigger] preds[b][i]) as int,
                (k - 1) as nat,
            );
        avoids_longer(preds, d, preds[b][i] as int, (k - 1) as nat, (m - 1) as nat);
    }
}

/// Every block dominates itself.
pub proof fn dominates_itself(preds: Seq<Seq<usize>>, b: int)
    ensures
        dominates(preds, b, b),
{
}

/// What dominates a block other than itself dominates all its predecessors, of which there are
/// some.
pub proof fn dominates_preds(preds: Seq<Seq<usize>>, d: int, b: int, i: int)
    requires
        dominates(preds, d, b),
        d != b,
    ensures
        b != 0,
        preds[b].len() > 0,
        0 <= i < preds[b].len() ==> dominates(preds, d, preds[b][i] as int),
{
    assert(!avoids(preds, d, b, 0));
    if 0 <= i < preds[b].len() {
        let p = preds[b][i] as int;
        assert forall|k: nat| !#[trigger] avoids(preds, d, p, k) by {
            assert(!avoids(preds, d, b, k + 1));
            assert(preds[b][i] as int == p);
        }
    }
}

/// Domination is transitive.
pub proof fn dominates_transitive(preds: Seq<Seq<usize>>, a: int, b: int, c: int)
    requires
        dominates(preds, a, b),
        dominates(preds, b, c),
    ensures
        dominates(preds, a, c),
{
    assert forall|k: nat| !#[trigger] avoids(preds, a, c, k) by {
        if avoids(preds, a, c, k) {
            reaches_through(preds, a, b, c, k);
            assert(!avoids(preds, b, c, k));
            assert(!avoids(preds, a, b, k));
        }
    }
}

/// A path to `c` that does not touch `a` either does not touch `b`, or goes on from a path to `b`
/// that does not touch `a`.
pub proof fn reaches_through(preds: Seq<Seq<usize>>, a: int, b: int, c: int, k: nat)
    requires
        avoids(preds, a, c, k),
    ensures
        avoids(preds, b, c, k) || avoids(preds, a, b, k),
    decreases k,
{
    if c != b && c != 0 && preds[c].len() > 0 {
        let i = choose|i: int|
            0 <= i < preds[c].len() && avoids(
                preds,
                a,
                (#[trigger] preds[c][i]) as int,
                (k - 1) as nat,
            );
        let p = preds[c][i] as int;
        reaches_through(preds, a, b, p, (k - 1) as nat);
        if avoids(preds, a, b, (k - 1) as nat) {
            avoids_longer(preds, a, b, (k - 1) as nat, k);
        }
    }
}

/// Whether a block can be reached at all.
pub open spec fn reachable(preds: Seq<Seq<usize>>, b: int) -> bool {
    exists|k: nat| #[trigger] avoids(preds, -1, b, k)
}

/// Where neither of two blocks dominates the other, they do not both dominate a block that can be
/// reached.
proof fn not_both(preds: Seq<Seq<usize>>, d: int, e: int, c: int, k: nat, i: nat, j: nat) -> (m: nat)
    requires
        avoids(preds, -1, c, k),
        avoids(preds, d, e, i),
        avoids(preds, e, d, j),
    ensures
        avoids(preds, d, c, m) || avoids(preds, e, c, m),
    decreases k,
{
    if c == d {
        j
    } else if c == e {
        i
    } else if c == 0 || preds[c].len() == 0 {
        0
    } else {
        let x = choose|x: int|
            0 <= x < preds[c].len() && avoids(
                preds,
                -1,
                (#[trigger] preds[c][x]) as int,
                (k - 1) as nat,
            );
        let m = not_both(preds, d, e, preds[c][x] as int, (k - 1) as nat, i, j);
        (m + 1) as nat
    }
}

/// The dominators of a block that can be reached form a chain: of any two, one dominates the
/// other.
pub proof fn dominators_form_a_chain(preds: Seq<Seq<usize>>, d: int, e: int, b: int)
    requires
        reachable(preds, b),
        dominates(preds, d, b),
        dominates(preds, e, b),
    ensures
        dominates(preds, d, e) || dominates(preds, e, d),
{
    if !dominates(preds, d, e) && !dominates(preds, e, d) {
        let k = choose|k: nat| #[trigger] avoids(preds, -1, b, k);
        let i = choose|i: nat| #[trigger] avoids(preds, d, e, i);
        let j = choose|j: nat| #[trigger] avoids(preds, e, d, j);
        let m = not_both(preds, d, e, b, k, i, j);
        assert(!avoids(preds, d, b, m));
        assert(!avoids(preds, e, b, m));
    }
}

/// A block that is dominated by all that another is dominated by has at least as many dominators,
/// and more where it has one that the other has not.
pub(crate) proof fn dom_count_grows(preds: Seq<Seq<usize>>, n: int, d: int, e: int)
    requires
        forall|c: int| dominates(preds, c, d) ==> #[trigger] dominates(preds, c, e),
    ensures
        dom_count(preds, n, d) <= dom_count(preds, n, e),
        (exists|c: int| 0 <= c < n && #[trigger] dominates(preds, c, e) && !dominates(preds, c, d))
            ==> dom_count(preds, n, d) < dom_count(preds, n, e),
    decreases n,
{
    if n > 0 {
        dom_count_grows(preds, n - 1, d, e);
        assert(dominates(preds, n - 1, d) ==> dominates(preds, n - 1, e));
        if exists|c: int| 0 <= c < n && #[trigger] dominates(preds, c, e) && !dominates(preds, c, d) {
            let c = choose|c: int|
                0 <= c < n && #[trigger] dominates(preds, c, e) && !dominates(preds, c, d);
            if c < n - 1 {
                assert(dominates(preds, c, e) && !dominates(preds, c, d));
            }
        }
    }
}

/// What is nearest dominates the block, and no other block below `k` that does has more
/// dominators; nothing is nearest where there is no such block.
pub proof fn nearest_is(preds: Seq<Seq<usize>>, b: int, k: int)
    ensures
        match nearest(preds, b, k) {
            Some(d) => 0 <= d < k && d != b && dominates(preds, d, b) && forall|c: int|
                0 <= c < k && c != b && #[trigger] dominates(preds, c, b) ==> dom_count(
                    preds,
                    preds.len() as int,
                    c,
                ) <= dom_count(preds, preds.len() as int, d),
            None => forall|c: int|
                0 <= c < k && c != b ==> !#[trigger] dominates(preds, c, b),
        },
    decreases k,
{
    if k > 0 {
        nearest_is(preds, b, k - 1);
    }
}

/// The immediate dominator of a block, where it has a dominator other than itself, dominates it,
/// and is dominated by every other block that does.
pub proof fn idom_is_immediate(preds: Seq<Seq<usize>>, b: int, e: int)
    requires
        0 < b < preds.len(),
        preds.len() <= usize::MAX,
        reachable(preds, b),
        0 <= e < preds.len(),
        e != b,
        dominates(preds, e, b),
    ensures
        idom_of(preds, b) != b,
        idom_of(preds, b) < preds.len(),
        dominates(preds, idom_of(preds, b) as int, b),
        dominates(preds, e, idom_of(preds, b) as int),
{
    let n = preds.len() as int;
    nearest_is(preds, b, n);
    let d = nearest(preds, b, n)->0;
    dominators_form_a_chain(preds, d, e, b);
    if !dominates(preds, e, d) {
        assert forall|c: int| dominates(preds, c, d) implies #[trigger] dominates(preds, c, e) by {
            dominates_transitive(preds, c, d, e);
        }
        dominates_itself(preds, e);
        assert(dominates(preds, e, e) && !dominates(preds, e, d));
        dom_count_grows(preds, n, d, e);
    }
}

/// Of two different blocks that dominate each other, neither can be reached.
pub proof fn mutual_is_same(preds: Seq<Seq<usize>>, d: int, b: int, k: nat)
    requires
        avoids(preds, -1, b, k) || avoids(preds, -1, d, k),
        dominates(preds, d, b),
        dominates(preds, b, d),
    ensures
        d == b,
    decreases k,
{
    if d != b {
        assert(!avoids(preds, d, b, 0));
        assert(!avoids(preds, b, d, 0));
        if avoids(preds, -1, b, k) {
            avoid_first(preds, d, b, b, k);
        } else {
            avoid_first(preds, d, b, d, k);
        }
    }
}

/// A path to some block shows that one of two different blocks does not dominate the other, or
/// neither dominates the block.
proof fn avoid_first(preds: Seq<Seq<usize>>, d: int, b: int, c: int, k: nat)
    requires
        d != b,
        avoids(preds, -1, c, k),
        dominates(preds, d, b),
        dominates(preds, b, d),
    ensures
        avoids(preds, d, c, k),
        avoids(preds, b, c, k),
    decreases k,
{
    assert(!avoids(preds, d, b, k));
    assert(!avoids(preds, b, d, k));
    if c == 0 || preds[c].len() == 0 {
    } else {
        let x = choose|x: int|
            0 <= x < preds[c].len() && avoids(
                preds,
                -1,
                (#[trigger] preds[c][x]) as int,
                (k - 1) as nat,
            );
        avoid_first(preds, d, b, preds[c][x] as int, (k - 1) as nat);
    }
}

} // verus!

//! The control flow graph of a function.

use crate::ir::{self, BlockV, FuncV, InstV, IrBlock, IrFunc, IrInst};
use std::collections::HashMap;
use vstd::prelude::*;

verus! {

broadcast use vstd::std_specs::hash::group_hash_axioms;

/// The control flow graph of one function; blocks are named by their position.
pub struct Cfg {
    /// From the label of a block to its position.
    pub block_index: HashMap<usize, usize>,
    /// The blocks that each block leads to.
    pub successors: Vec<Vec<usize>>,
    /// The blocks that lead to each block.
    pub predecessors: Vec<Vec<usize>>,
}

/// The contents of a list of lists.
pub open spec fn lists(v: Seq<Vec<usize>>) -> Seq<Seq<usize>> {
    v.map_values(|x: Vec<usize>| x@)
}

/// The position of the last block with a label.
pub open spec fn label_position(blocks: Seq<BlockV>, label: usize) -> Option<usize>
    decreases blocks.len(),
{
    if blocks.len() == 0 {
        None
    } else if blocks.last().label == label {
        Some((blocks.len() - 1) as usize)
    } else {
        label_position(blocks.drop_last(), label)
    }
}

/// The position found is that of the last block with the label; there is none where nothing is
/// found.
pub proof fn label_position_is_last(blocks: Seq<BlockV>, label: usize)
    requires
        blocks.len() <= usize::MAX,
    ensures
        match label_position(blocks, label) {
            Some(i) => i < blocks.len() && blocks[i as int].label == label && forall|j: int|
                i < j < blocks.len() ==> (#[trigger] blocks[j]).label != label,
            None => forall|j: int| 0 <= j < blocks.len() ==> (#[trigger] blocks[j]).label != label,
        },
    decreases blocks.len(),
{
    if blocks.len() > 0 && blocks.last().label != label {
        label_position_is_last(blocks.drop_last(), label);
        assert forall|j: int| 0 <= j < blocks.len() - 1 implies #[trigger] blocks[j]
            == blocks.drop_last()[j] by {}
    }
}

/// What a map has for a key.
pub open spec fn entry(m: Map<usize, usize>, k: usize) -> Option<usize> {
    if m.contains_key(k) {
        Some(m[k])
    } else {
        None
    }
}

/// A map from labels to the positions of the last blocks with them.
pub open spec fn indexes(m: Map<usize, usize>, blocks: Seq<BlockV>) -> bool {
    forall|l: usize| #[trigger] entry(m, l) == label_position(blocks, l)
}

/// The positions of the blocks with the given labels, those that there are.
pub open spec fn positions(blocks: Seq<BlockV>, labels: Seq<usize>) -> Seq<usize>
    decreases labels.len(),
{
    if labels.len() == 0 {
        Seq::empty()
    } else {
        let before = positions(blocks, labels.drop_last());
        match label_position(blocks, labels.last()) {
            Some(i) => before.push(i),
            None => before,
        }
    }
}

/// The labels that a block ends in.
pub open spec fn exits(b: BlockV) -> Seq<usize> {
    if b.instrs.len() == 0 {
        Seq::empty()
    } else {
        match b.instrs.last() {
            InstV::Br { then_bb, else_bb, .. } => seq![then_bb, else_bb],
            InstV::Jump { target } => seq![target],
            _ => Seq::empty(),
        }
    }
}

/// The blocks that a block leads to.
pub open spec fn succs(blocks: Seq<BlockV>, i: int) -> Seq<usize> {
    positions(blocks, exits(blocks[i]))
}

/// `x`, once for each occurrence of `j` in a list.
pub open spec fn repeated(s: Seq<usize>, j: usize, x: usize) -> Seq<usize>
    decreases s.len(),
{
    if s.len() == 0 {
        Seq::empty()
    } else {
        let before = repeated(s.drop_last(), j, x);
        if s.last() == j {
            before.push(x)
        } else {
            before
        }
    }
}

/// The blocks among the first `k` that lead to a block, once for each edge.
pub open spec fn preds_among(blocks: Seq<BlockV>, k: int, j: int) -> Seq<usize>
    decreases k,
{
    if k <= 0 {
        Seq::empty()
    } else {
        preds_among(blocks, k - 1, j) + repeated(
            succs(blocks, k - 1),
            j as usize,
            (k - 1) as usize,
        )
    }
}

/// The blocks that lead to a block.
pub open spec fn preds(blocks: Seq<BlockV>, j: int) -> Seq<usize> {
    preds_among(blocks, blocks.len() as int, j)
}

/// A function with the labels of its predecessors filled in for each block.
pub open spec fn with_preds(f: FuncV) -> FuncV {
    FuncV {
        blocks: Seq::new(
            f.blocks.len(),
            |j: int|
                BlockV {
                    preds: preds(f.blocks, j).map_values(|p: usize| f.blocks[p as int].label),
                    ..f.blocks[j]
                },
        ),
        ..f
    }
}

impl Cfg {
    /// The graph is that of the given blocks.
    pub open spec fn is_graph_of(self, blocks: Seq<BlockV>) -> bool {
        &&& self.successors@.len() == blocks.len()
        &&& self.predecessors@.len() == blocks.len()
        &&& forall|i: int|
            0 <= i < blocks.len() ==> (#[trigger] self.successors@[i])@ == succs(blocks, i)
        &&& forall|j: int|
            0 <= j < blocks.len() ==> (#[trigger] self.predecessors@[j])@ == preds(blocks, j)
        &&& indexes(self.block_index@, blocks)
    }

    /// The edges lead to blocks of the graph.
    pub open spec fn wf(self) -> bool {
        &&& self.predecessors@.len() == self.successors@.len()
        &&& forall|b: int, i: int|
            0 <= b < self.predecessors@.len() && 0 <= i < self.predecessors@[b]@.len()
                ==> #[trigger] self.predecessors@[b]@[i] < self.predecessors@.len()
        &&& forall|b: int, i: int|
            0 <= b < self.successors@.len() && 0 <= i < self.successors@[b]@.len()
                ==> #[trigger] self.successors@[b]@[i] < self.successors@.len()
    }
}

/// Successors are positions of blocks.
pub proof fn positions_in_range(blocks: Seq<BlockV>, labels: Seq<usize>)
    requires
        blocks.len() <= usize::MAX,
    ensures
        forall|i: int|
            0 <= i < positions(blocks, labels).len() ==> #[trigger] positions(blocks, labels)[i]
                < blocks.len(),
    decreases labels.len(),
{
    if labels.len() > 0 {
        positions_in_range(blocks, labels.drop_last());
        label_position_is_last(blocks, labels.last());
        let before = positions(blocks, labels.drop_last());
        assert forall|i: int| 0 <= i < positions(blocks, labels).len() implies #[trigger] positions(
            blocks,
            labels,
        )[i] < blocks.len() by {
            if i < before.len() {
                assert(before[i] < blocks.len());
            }
        }
    }
}

/// Only `x` is repeated, and it is there just where `j` occurs.
pub proof fn repeated_is(s: Seq<usize>, j: usize, x: usize)
    ensures
        forall|i: int| 0 <= i < repeated(s, j, x).len() ==> #[trigger] repeated(s, j, x)[i] == x,
        repeated(s, j, x).len() > 0 <==> s.contains(j),
    decreases s.len(),
{
    if s.len() > 0 {
        repeated_is(s.drop_last(), j, x);
        if s.contains(j) {
            let i = choose|i: int| 0 <= i < s.len() && s[i] == j;
            if i < s.len() - 1 {
                assert(s.drop_last()[i] == j);
            }
        }
        if s.drop_last().contains(j) {
            let i = choose|i: int| 0 <= i < s.drop_last().len() && s.drop_last()[i] == j;
            assert(s[i] == j);
        }
        if s.last() == j {
            assert(s[s.len() - 1] == j);
        }
    }
}

/// One block leads to another just where it is among the predecessors of the other.
pub proof fn edges_have_two_ends(blocks: Seq<BlockV>, k: int, i: usize, j: usize)
    requires
        0 <= k <= blocks.len() <= usize::MAX,
        j < blocks.len(),
    ensures
        preds_among(blocks, k, j as int).contains(i) <==> i < k && succs(
            blocks,
            i as int,
        ).contains(j),
    decreases k,
{
    if k > 0 {
        edges_have_two_ends(blocks, k - 1, i, j);
        let before = preds_among(blocks, k - 1, j as int);
        let last = repeated(succs(blocks, k - 1), j, (k - 1) as usize);
        repeated_is(succs(blocks, k - 1), j, (k - 1) as usize);
        let all = preds_among(blocks, k, j as int);
        assert(all == before + last);
        if before.contains(i) {
            let m = choose|m: int| 0 <= m < before.len() && before[m] == i;
            assert(all[m] == i);
        }
        if i == k - 1 && succs(blocks, k - 1).contains(j) {
            assert(last[0] == i);
            assert(all[before.len() as int] == i);
        }
        if all.contains(i) {
            let m = choose|m: int| 0 <= m < all.len() && all[m] == i;
            if m < before.len() {
                assert(before[m] == i);
            } else {
                assert(last[m - before.len()] == i);
            }
        }
    }
}

/// Predecessors are positions of blocks.
pub proof fn preds_in_range(blocks: Seq<BlockV>, k: int, j: int)
    requires
        0 <= k <= blocks.len() <= usize::MAX,
    ensures
        forall|i: int|
            0 <= i < preds_among(blocks, k, j).len() ==> #[trigger] preds_among(blocks, k, j)[i] < k,
    decreases k,
{
    if k > 0 {
        preds_in_range(blocks, k - 1, j);
        repeated_is(succs(blocks, k - 1), j as usize, (k - 1) as usize);
        let before = preds_among(blocks, k - 1, j);
        let last = repeated(succs(blocks, k - 1), j as usize, (k - 1) as usize);
        assert forall|i: int| 0 <= i < (before + last).len() implies #[trigger] (before + last)[i]
            < k by {
            if i < before.len() {
                assert(before[i] < k - 1);
            } else {
                assert(last[i - before.len()] == k - 1);
            }
        }
    }
}

/// Empty lists.
pub(crate) fn empty_lists(n: usize) -> (r: Vec<Vec<usize>>)
    ensures
        r@.len() == n,
        forall|i: int| 0 <= i < n ==> (#[trigger] r@[i])@ == Seq::<usize>::empty(),
{
    let mut out: Vec<Vec<usize>> = Vec::new();
    let mut i: usize = 0;
    while i < n
        invariant
            i <= n,
            out@.len() == i,
            forall|j: int| 0 <= j < i ==> (#[trigger] out@[j])@ == Seq::<usize>::empty(),
        decreases n - i,
    {
        out.push(Vec::new());
        i = i + 1;
    }
    out
}

/// The blocks that a block leads to.
fn targets(block: &IrBlock, index: &HashMap<usize, usize>, Ghost(blocks): Ghost<Seq<BlockV>>) -> (r:
    Vec<usize>)
    requires
        indexes(index@, blocks),
    ensures
        r@ == positions(blocks, exits(block@)),
{
    let mut out: Vec<usize> = Vec::new();
    let n = block.instrs.len();
    if n > 0 {
        assert(block@.instrs.last() == block.instrs@[n - 1]@);
        match &block.instrs[n - 1] {
            IrInst::Br { then_bb, else_bb, .. } => {
                proof {
                    let labels = seq![*then_bb, *else_bb];
                    assert(labels.drop_last() =~= seq![*then_bb]);
                    assert(seq![*then_bb].drop_last() =~= Seq::empty());
                    assert(positions(blocks, Seq::empty()) =~= Seq::empty());
                    assert(entry(index@, *then_bb) == label_position(blocks, *then_bb));
                    assert(entry(index@, *else_bb) == label_position(blocks, *else_bb));
                    reveal_with_fuel(positions, 3);
                }
                if let Some(t) = index.get(then_bb) {
                    out.push(*t);
                }
                if let Some(e) = index.get(else_bb) {
                    out.push(*e);
                }
            },
            IrInst::Jump { target } => {
                proof {
                    assert(seq![*target].drop_last() =~= Seq::empty());
                    assert(entry(index@, *target) == label_position(blocks, *target));
                    reveal_with_fuel(positions, 2);
                }
                if let Some(t) = index.get(target) {
                    out.push(*t);
                }
            },
            _ => {},
        }
    }
    out
}

/// The positions of the blocks by their labels.
pub(crate) fn index_blocks(blocks: &Vec<IrBlock>) -> (r: HashMap<usize, usize>)
    ensures
        indexes(r@, ir::blocks_view(blocks@)),
{
    let mut index: HashMap<usize, usize> = HashMap::new();
    let ghost views = ir::blocks_view(blocks@);
    let mut i: usize = 0;
    while i < blocks.len()
        invariant
            i <= blocks.len(),
            views == ir::blocks_view(blocks@),
            indexes(index@, views.take(i as int)),
        decreases blocks.len() - i,
    {
        let ghost before = index@;
        index.insert(blocks[i].label, i);
        proof {
            let next = views.take(i + 1);
            assert(next.drop_last() =~= views.take(i as int));
            assert(next.last() == blocks@[i as int]@);
            assert forall|l: usize| #[trigger] entry(index@, l) == label_position(next, l) by {
                assert(entry(before, l) == label_position(next.drop_last(), l));
            }
        }
        i = i + 1;
    }
    assert(views.take(i as int) =~= views);
    index
}

/// Adds a block to the predecessors of each of its successors.
pub(crate) fn add_edges(predecessors: &mut Vec<Vec<usize>>, from: usize, to: &Vec<usize>)
    requires
        forall|i: int| 0 <= i < to@.len() ==> #[trigger] to@[i] < old(predecessors)@.len(),
    ensures
        final(predecessors)@.len() == old(predecessors)@.len(),
        forall|j: int|
            0 <= j < old(predecessors)@.len() ==> (#[trigger] final(predecessors)@[j])@ == old(
                predecessors,
            )@[j]@ + repeated(to@, j as usize, from),
{
    let ghost before = predecessors@;
    let mut e: usize = 0;
    assert(predecessors.len() <= usize::MAX);
    while e < to.len()
        invariant
            e <= to.len(),
            predecessors@.len() == before.len(),
            before.len() <= usize::MAX,
            forall|i: int| 0 <= i < to@.len() ==> #[trigger] to@[i] < before.len(),
            forall|j: int|
                0 <= j < before.len() ==> (#[trigger] predecessors@[j])@ == before[j]@ + repeated(
                    to@.take(e as int),
                    j as usize,
                    from,
                ),
        decreases to.len() - e,
    {
        let t = to[e];
        assert(to@.take(e + 1).drop_last() =~= to@.take(e as int));
        let ghost mid = predecessors@;
        predecessors[t].push(from);
        e = e + 1;
        assert forall|j: int| 0 <= j < before.len() implies (#[trigger] predecessors@[j])@
            == before[j]@ + repeated(to@.take(e as int), j as usize, from) by {
            if j == t {
                assert(predecessors@[j]@ =~= mid[j]@.push(from));
                assert(mid[j]@.push(from) =~= before[j]@ + repeated(
                    to@.take(e - 1),
                    j as usize,
                    from,
                ).push(from));
            } else {
                assert(predecessors@[j] == mid[j]);
            }
        }
    }
    assert(to@.take(e as int) =~= to@);
}

/// The labels of the blocks at given positions.
fn labels_of(blocks: &Vec<IrBlock>, at: &Vec<usize>) -> (r: Vec<usize>)
    requires
        forall|i: int| 0 <= i < at@.len() ==> #[trigger] at@[i] < blocks@.len(),
    ensures
        r@ == at@.map_values(|p: usize| ir::blocks_view(blocks@)[p as int].label),
{
    let mut out: Vec<usize> = Vec::new();
    let mut i: usize = 0;
    while i < at.len()
        invariant
            i <= at.len(),
            forall|k: int| 0 <= k < at@.len() ==> #[trigger] at@[k] < blocks@.len(),
            out@ =~= at@.take(i as int).map_values(
                |p: usize| ir::blocks_view(blocks@)[p as int].label,
            ),
        decreases at.len() - i,
    {
        let p = at[i];
        out.push(blocks[p].label);
        i = i + 1;
    }
    assert(at@.take(i as int) =~= at@);
    out
}

impl Cfg {
    /// Builds the graph of a function, and fills in the predecessors of each block.
    #[verifier::loop_isolation(false)]
    pub fn build(func: &mut IrFunc) -> (r: Self)
        ensures
            r.is_graph_of(old(func)@.blocks),
            r.wf(),
            final(func)@ == with_preds(old(func)@),
    {
        let ghost before = func@;
        let ghost blocks = func@.blocks;
        let n = func.blocks.len();
        let block_index = index_blocks(&func.blocks);
        let mut successors: Vec<Vec<usize>> = Vec::new();
        let mut predecessors = empty_lists(n);
        let mut i: usize = 0;
        while i < n
            invariant
                i <= n,
                successors@.len() == i,
                predecessors@.len() == n,
                forall|k: int|
                    0 <= k < i ==> (#[trigger] successors@[k])@ == succs(blocks, k),
                forall|j: int|
                    0 <= j < n ==> (#[trigger] predecessors@[j])@ == preds_among(
                        blocks,
                        i as int,
                        j,
                    ),
            decreases n - i,
        {
            let to = targets(&func.blocks[i], &block_index, Ghost(blocks));
            proof {
                positions_in_range(blocks, exits(blocks[i as int]));
                assert(to@ == succs(blocks, i as int));
            }
            add_edges(&mut predecessors, i, &to);
            successors.push(to);
            i = i + 1;
        }
        proof {
            assert forall|b: int, i: int|
                0 <= b < n && 0 <= i < predecessors@[b]@.len() implies #[trigger] predecessors@[b]@[i]
                < n by {
                preds_in_range(blocks, n as int, b);
            }
            assert forall|b: int, i: int|
                0 <= b < n && 0 <= i < successors@[b]@.len() implies #[trigger] successors@[b]@[i]
                < n by {
                positions_in_range(blocks, exits(blocks[b]));
            }
        }
        let mut j: usize = 0;
        while j < n
            invariant
                j <= n,
                func.blocks@.len() == n,
                func@ == (FuncV { blocks: func@.blocks, ..before }),
                forall|k: int|
                    0 <= k < n ==> (#[trigger] func@.blocks[k]) == if k < j {
                        with_preds(before).blocks[k]
                    } else {
                        blocks[k]
                    },
            decreases n - j,
        {
            let ghost mid = func@.blocks;
            proof {
                preds_in_range(blocks, n as int, j as int);
                assert forall|p: int| 0 <= p < n implies (#[trigger] mid[p]).label
                    == blocks[p].label by {}
                assert(mid[j as int] == func.blocks@[j as int]@);
                assert(mid[j as int] == blocks[j as int]);
            }
            let labels = labels_of(&func.blocks, &predecessors[j]);
            assert(labels@ =~= with_preds(before).blocks[j as int].preds);
            func.blocks[j].preds = labels;
            assert(func@.blocks =~= mid.update(j as int, with_preds(before).blocks[j as int]));
            j = j + 1;
        }
        assert(func@.blocks =~= with_preds(before).blocks);
        Cfg { block_index, successors, predecessors }
    }

    /// The number of blocks.
    pub fn len(&self) -> (r: usize)
        ensures
            r == self.successors@.len(),
    {
        self.successors.len()
    }

    /// Whether there is no block.
    pub fn is_empty(&self) -> (r: bool)
        ensures
            r == (self.successors@.len() == 0),
    {
        self.successors.len() == 0
    }
}

} // verus!

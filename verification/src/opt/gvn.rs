//! Value numbering: within a block, an expression that has been computed before is not computed
//! again, unless another block needs the value.

use crate::ir::{self, BlockV, FuncV, InstV, IrArithOp, IrBlock, IrCmpOp, IrFunc, IrInst, IrOperand};
use crate::opt::{self, replace, substitute, IrFuncPass};
use std::collections::{HashMap, HashSet};
use vstd::prelude::*;

verus! {

broadcast use {
    vstd::std_specs::hash::group_hash_axioms,
    crate::ir::insts_push,
};

pub struct GVN;

/// An expression by its operator and operands.
#[derive(Debug, Clone, Copy, PartialEq, Eq, Structural)]
pub enum ExprKey {
    Arith(IrArithOp, IrOperand, IrOperand),
    Compare(IrCmpOp, IrOperand, IrOperand),
}

/// The state of numbering a block.
#[verifier::ext_equal]
pub struct NumberingV {
    /// The expressions computed so far, with the values that hold them.
    pub table: Seq<(ExprKey, usize)>,
    /// The values that are not computed any more, with what stands for them.
    pub replacements: Map<usize, IrOperand>,
    /// The instructions that stay.
    pub out: Seq<InstV>,
}

/// The value that holds an expression.
pub open spec fn holder(table: Seq<(ExprKey, usize)>, key: ExprKey) -> Option<usize>
    decreases table.len(),
{
    if table.len() == 0 {
        None
    } else {
        match holder(table.drop_last(), key) {
            Some(d) => Some(d),
            None => if table.last().0 == key {
                Some(table.last().1)
            } else {
                None
            },
        }
    }
}

/// The expression that an instruction computes.
pub open spec fn key_of(i: InstV) -> Option<ExprKey> {
    match i {
        InstV::Arith { op, lhs, rhs, .. } => Some(ExprKey::Arith(op, lhs, rhs)),
        InstV::Icmp { op, lhs, rhs, .. } => Some(ExprKey::Compare(op, lhs, rhs)),
        _ => None,
    }
}

/// Whether a value is used in another block than the one at a position, or in a phi.
pub open spec fn used_elsewhere(blocks: Seq<BlockV>, b: int, l: usize) -> bool {
    exists|c: int, i: int|
        0 <= c < blocks.len() && 0 <= i < blocks[c].instrs.len() && (c != b
            || blocks[c].instrs[i] is Phi) && #[trigger] ir::inst_operands(
            blocks[c].instrs[i],
        ).contains(IrOperand::Local(l))
}

/// The values that the block at a position has to define for others.
pub open spec fn needed(blocks: Seq<BlockV>, b: int) -> Set<usize> {
    Set::new(|l: usize| used_elsewhere(blocks, b, l))
}

/// The state after one more instruction. The values in `keep` are computed in any case.
pub open spec fn step(s: NumberingV, i: InstV, keep: Set<usize>) -> NumberingV {
    match (key_of(i), ir::inst_dest(i)) {
        (Some(_), Some(dest)) => {
            let canonical = opt::substituted(i, s.replacements);
            let key = key_of(canonical)->0;
            match holder(s.table, key) {
                Some(d) => if keep.contains(dest) {
                    NumberingV { out: s.out.push(canonical), ..s }
                } else {
                    NumberingV {
                        replacements: s.replacements.insert(dest, IrOperand::Local(d)),
                        ..s
                    }
                },
                None => NumberingV {
                    table: s.table.push((key, dest)),
                    out: s.out.push(canonical),
                    ..s
                },
            }
        },
        _ => NumberingV { out: s.out.push(i), ..s },
    }
}

/// The state before any instruction.
pub open spec fn fresh() -> NumberingV {
    NumberingV { table: Seq::empty(), replacements: Map::empty(), out: Seq::empty() }
}

/// The state after the instructions of a list.
pub open spec fn numbered(instrs: Seq<InstV>, keep: Set<usize>) -> NumberingV
    decreases instrs.len(),
{
    if instrs.len() == 0 {
        fresh()
    } else {
        step(numbered(instrs.drop_last(), keep), instrs.last(), keep)
    }
}

/// Whether an expression of a block has been computed before in it, for a value that is not kept.
pub open spec fn repeats(b: BlockV, keep: Set<usize>) -> bool {
    numbered(b.instrs, keep).out.len() < b.instrs.len()
}

/// A block without repeated expressions but for the values that are kept.
pub open spec fn numbered_block(b: BlockV, keep: Set<usize>) -> BlockV {
    if repeats(b, keep) {
        let s = numbered(b.instrs, keep);
        BlockV {
            instrs: s.out.map_values(|i: InstV| opt::substituted(i, s.replacements)),
            ..b
        }
    } else {
        b
    }
}

/// A function without repeated expressions in its blocks but for values that other blocks need.
pub open spec fn numbered_func(f: FuncV) -> FuncV {
    FuncV {
        blocks: Seq::new(
            f.blocks.len(),
            |b: int| numbered_block(f.blocks[b], needed(f.blocks, b)),
        ),
        ..f
    }
}

/// Whether a block of a function has a repeated expression.
pub open spec fn func_repeats(f: FuncV) -> bool {
    exists|b: int|
        0 <= b < f.blocks.len() && repeats(#[trigger] f.blocks[b], needed(f.blocks, b))
}

/// No more instructions stay than there were; a value is replaced just where one is left out.
pub proof fn numbered_len(instrs: Seq<InstV>, keep: Set<usize>)
    ensures
        numbered(instrs, keep).out.len() <= instrs.len(),
        numbered(instrs, keep).out.len() == instrs.len() ==> numbered(instrs, keep).replacements
            == Map::<
            usize,
            IrOperand,
        >::empty(),
    decreases instrs.len(),
{
    if instrs.len() > 0 {
        numbered_len(instrs.drop_last(), keep);
    }
}

fn find_holder(table: &Vec<(ExprKey, usize)>, key: ExprKey) -> (r: Option<usize>)
    ensures
        r == holder(table@, key),
{
    let mut i: usize = 0;
    assert(table@.take(0) =~= Seq::empty());
    while i < table.len()
        invariant
            i <= table.len(),
            holder(table@.take(i as int), key) is None,
        decreases table.len() - i,
    {
        assert(table@.take(i + 1).drop_last() =~= table@.take(i as int));
        if table[i].0 == key {
            proof {
                holder_in_prefix(table@, i + 1, key);
            }
            return Some(table[i].1);
        }
        i = i + 1;
    }
    assert(table@.take(i as int) =~= table@);
    None
}

/// What a first part of a table holds, the table holds.
proof fn holder_in_prefix(table: Seq<(ExprKey, usize)>, k: int, key: ExprKey)
    requires
        0 <= k <= table.len(),
        holder(table.take(k), key) is Some,
    ensures
        holder(table, key) == holder(table.take(k), key),
    decreases table.len() - k,
{
    if k == table.len() {
        assert(table.take(k) =~= table);
    } else {
        assert(table.take(k + 1).drop_last() =~= table.take(k));
        holder_in_prefix(table, k + 1, key);
    }
}

/// The state of numbering a block.
struct Numbering {
    table: Vec<(ExprKey, usize)>,
    replacements: HashMap<usize, IrOperand>,
    out: Vec<IrInst>,
}

impl View for Numbering {
    type V = NumberingV;

    closed spec fn view(&self) -> NumberingV {
        NumberingV {
            table: self.table@,
            replacements: self.replacements@,
            out: ir::insts(self.out@),
        }
    }
}

impl Numbering {
    /// Takes an instruction that computes an expression.
    fn take_expr(&mut self, dest: usize, key: ExprKey, inst: IrInst, keep: &HashSet<usize>)
        ensures
            final(self)@ == match holder(old(self)@.table, key) {
                Some(d) => if keep@.contains(dest) {
                    NumberingV { out: old(self)@.out.push(inst@), ..old(self)@ }
                } else {
                    NumberingV {
                        replacements: old(self)@.replacements.insert(dest, IrOperand::Local(d)),
                        ..old(self)@
                    }
                },
                None => NumberingV {
                    table: old(self)@.table.push((key, dest)),
                    out: old(self)@.out.push(inst@),
                    ..old(self)@
                },
            },
    {
        match find_holder(&self.table, key) {
            Some(canon_dest) => {
                if keep.contains(&dest) {
                    self.out.push(inst);
                } else {
                    self.replacements.insert(dest, IrOperand::Local(canon_dest));
                }
            },
            None => {
                self.table.push((key, dest));
                self.out.push(inst);
            },
        }
    }

    /// Takes one more instruction.
    fn take(&mut self, inst: &IrInst, keep: &HashSet<usize>)
        ensures
            final(self)@ == step(old(self)@, inst@, keep@),
    {
        match inst {
            IrInst::Arith { dest, op, lhs, rhs } => {
                let cl = replace(*lhs, &self.replacements);
                let cr = replace(*rhs, &self.replacements);
                self.take_expr(
                    *dest,
                    ExprKey::Arith(*op, cl, cr),
                    IrInst::Arith { dest: *dest, op: *op, lhs: cl, rhs: cr },
                    keep,
                );
            },
            IrInst::Icmp { dest, op, lhs, rhs } => {
                let cl = replace(*lhs, &self.replacements);
                let cr = replace(*rhs, &self.replacements);
                self.take_expr(
                    *dest,
                    ExprKey::Compare(*op, cl, cr),
                    IrInst::Icmp { dest: *dest, op: *op, lhs: cl, rhs: cr },
                    keep,
                );
            },
            _ => {
                self.out.push(inst.clone());
            },
        }
    }
}

/// The values that the block at a position has to define for others.
#[verifier::loop_isolation(false)]
fn find_needed(blocks: &Vec<IrBlock>, b: usize) -> (r: HashSet<usize>)
    ensures
        r@ =~= needed(ir::blocks_view(blocks@), b as int),
{
    let ghost all = ir::blocks_view(blocks@);
    let mut keep: HashSet<usize> = HashSet::new();
    let mut c: usize = 0;
    while c < blocks.len()
        invariant
            c <= blocks.len(),
            forall|l: usize| #[trigger]
                keep@.contains(l) <==> used_elsewhere(all.take(c as int), b as int, l),
        decreases blocks.len() - c,
    {
        let ghost list = all[c as int].instrs;
        assert(all[c as int] == blocks@[c as int]@);
        let ghost before = keep@;
        let mut i: usize = 0;
        while i < blocks[c as usize].instrs.len()
            invariant
                i <= list.len(),
                list.len() == blocks@[c as int].instrs@.len(),
                forall|l: usize| #[trigger]
                    keep@.contains(l) <==> before.contains(l) || exists|k: int|
                        0 <= k < i && (c != b || list[k] is Phi) && #[trigger] ir::inst_operands(
                            list[k],
                        ).contains(IrOperand::Local(l)),
            decreases list.len() - i,
        {
            let inst = &blocks[c].instrs[i];
            assert(list[i as int] == inst@);
            let ghost mid = keep@;
            if c != b || matches!(inst, IrInst::Phi { .. }) {
                add_operands(&mut keep, inst);
            }
            assert forall|l: usize| #[trigger]
                keep@.contains(l) <==> before.contains(l) || exists|k: int|
                    0 <= k < i + 1 && (c != b || list[k] is Phi) && #[trigger] ir::inst_operands(
                        list[k],
                    ).contains(IrOperand::Local(l)) by {
                assert(mid.contains(l) || !mid.contains(l));
                if mid.contains(l) && !before.contains(l) {
                    let k = choose|k: int|
                        0 <= k < i && (c != b || list[k] is Phi) && #[trigger] ir::inst_operands(
                            list[k],
                        ).contains(IrOperand::Local(l));
                    assert(ir::inst_operands(list[k]).contains(IrOperand::Local(l)));
                }
                assert(ir::inst_operands(list[i as int]).contains(IrOperand::Local(l))
                    || !ir::inst_operands(list[i as int]).contains(IrOperand::Local(l)));
            }
            i = i + 1;
        }
        proof {
            let short = all.take(c as int);
            let long = all.take(c + 1);
            assert forall|l: usize| #[trigger]
                keep@.contains(l) <==> used_elsewhere(long, b as int, l) by {
                if before.contains(l) {
                    let (x, k) = choose|x: int, k: int|
                        0 <= x < short.len() && 0 <= k < short[x].instrs.len() && (x != b
                            || short[x].instrs[k] is Phi) && #[trigger] ir::inst_operands(
                            short[x].instrs[k],
                        ).contains(IrOperand::Local(l));
                    assert(ir::inst_operands(long[x].instrs[k]).contains(IrOperand::Local(l)));
                } else if keep@.contains(l) {
                    let k = choose|k: int|
                        0 <= k < list.len() && (c != b || list[k] is Phi)
                            && #[trigger] ir::inst_operands(list[k]).contains(
                            IrOperand::Local(l),
                        );
                    assert(ir::inst_operands(long[c as int].instrs[k]).contains(
                        IrOperand::Local(l),
                    ));
                }
                if used_elsewhere(long, b as int, l) {
                    let (x, k) = choose|x: int, k: int|
                        0 <= x < long.len() && 0 <= k < long[x].instrs.len() && (x != b
                            || long[x].instrs[k] is Phi) && #[trigger] ir::inst_operands(
                            long[x].instrs[k],
                        ).contains(IrOperand::Local(l));
                    if x < c {
                        assert(ir::inst_operands(short[x].instrs[k]).contains(
                            IrOperand::Local(l),
                        ));
                        assert(used_elsewhere(short, b as int, l));
                        assert(before.contains(l));
                    } else {
                        assert(ir::inst_operands(list[k]).contains(IrOperand::Local(l)));
                    }
                }
            }
        }
        c = c + 1;
    }
    assert(all.take(c as int) =~= all);
    keep
}

/// Adds the values that an instruction uses.
#[verifier::loop_isolation(false)]
fn add_operands(keep: &mut HashSet<usize>, inst: &IrInst)
    ensures
        forall|l: usize| #[trigger]
            final(keep)@.contains(l) <==> old(keep)@.contains(l) || ir::inst_operands(
                inst@,
            ).contains(IrOperand::Local(l)),
{
    let ghost start = keep@;
    let ops = inst.operands();
    let ghost all = ir::inst_operands(inst@);
    let mut i: usize = 0;
    while i < ops.len()
        invariant
            i <= ops.len(),
            forall|l: usize| #[trigger]
                keep@.contains(l) <==> start.contains(l) || all.take(i as int).contains(
                    IrOperand::Local(l),
                ),
        decreases ops.len() - i,
    {
        assert(all[i as int] == *ops@[i as int]);
        let ghost short = all.take(i as int);
        if let IrOperand::Local(l) = *ops[i] {
            keep.insert(l);
        }
        assert(all.take(i + 1) =~= short.push(all[i as int]));
        assert forall|l: usize| short.push(all[i as int]).contains(IrOperand::Local(l))
            <==> short.contains(IrOperand::Local(l)) || all[i as int] == IrOperand::Local(l) by {
            vstd::seq_lib::lemma_seq_contains_after_push(
                short,
                all[i as int],
                IrOperand::Local(l),
            );
        }
        i = i + 1;
    }
    assert(all.take(i as int) =~= all);
}

/// Numbers the values of a block; `true` where it changed.
#[verifier::loop_isolation(false)]
fn gvn_block(block: &mut IrBlock, keep: &HashSet<usize>) -> (r: bool)
    ensures
        final(block)@ == numbered_block(old(block)@, keep@),
        r == repeats(old(block)@, keep@),
{
    let ghost before = block@;
    let mut state = Numbering {
        table: Vec::new(),
        replacements: HashMap::new(),
        out: Vec::new(),
    };
    assert(state@ =~= fresh());
    let mut i: usize = 0;
    assert(before.instrs.take(0) =~= Seq::empty());
    while i < block.instrs.len()
        invariant
            i <= block.instrs.len(),
            state@ == numbered(before.instrs.take(i as int), keep@),
        decreases block.instrs.len() - i,
    {
        assert(before.instrs.take(i + 1).drop_last() =~= before.instrs.take(i as int));
        state.take(&block.instrs[i], keep);
        i = i + 1;
    }
    assert(before.instrs.take(i as int) =~= before.instrs);
    proof {
        numbered_len(before.instrs, keep@);
        assert(state@.out.len() == state.out@.len());
        assert(before.instrs.len() == block.instrs@.len());
    }
    if state.out.len() == block.instrs.len() {
        return false;
    }
    let ghost done = numbered_block(before, keep@).instrs;
    let mut instrs: Vec<IrInst> = Vec::new();
    let mut k: usize = 0;
    while k < state.out.len()
        invariant
            k <= state.out.len(),
            ir::insts(instrs@) =~= done.take(k as int),
        decreases state.out.len() - k,
    {
        assert(state@.out[k as int] == state.out@[k as int]@);
        instrs.push(substitute(&state.out[k], &state.replacements));
        k = k + 1;
        assert(done.take(k as int) =~= done.take(k - 1).push(done[k - 1]));
    }
    assert(done.take(k as int) =~= done);
    block.instrs = instrs;
    true
}

impl IrFuncPass for GVN {
    open spec fn applied(&self, f: FuncV) -> FuncV {
        numbered_func(f)
    }

    open spec fn changes(&self, f: FuncV) -> bool {
        func_repeats(f)
    }

    open spec fn title(&self) -> Seq<char> {
        "gvn"@
    }

    fn name(&self) -> (r: &str) {
        "gvn"
    }

    #[verifier::loop_isolation(false)]
    fn run(&self, func: &mut IrFunc) -> (r: bool) {
        let ghost before = func@;
        let mut keeps: Vec<HashSet<usize>> = Vec::new();
        let mut k: usize = 0;
        while k < func.blocks.len()
            invariant
                k <= func.blocks@.len(),
                keeps@.len() == k,
                forall|x: int|
                    0 <= x < k ==> (#[trigger] keeps@[x])@ == needed(before.blocks, x),
            decreases func.blocks@.len() - k,
        {
            keeps.push(find_needed(&func.blocks, k));
            k = k + 1;
        }
        let mut changed = false;
        let mut b: usize = 0;
        while b < func.blocks.len()
            invariant
                b <= func.blocks@.len(),
                func@ == (FuncV { blocks: func@.blocks, ..before }),
                func@.blocks.len() == before.blocks.len(),
                forall|k: int|
                    0 <= k < before.blocks.len() ==> #[trigger] func@.blocks[k] == if k < b {
                        numbered_block(before.blocks[k], needed(before.blocks, k))
                    } else {
                        before.blocks[k]
                    },
                changed == (exists|k: int|
                    0 <= k < b && repeats(
                        #[trigger] before.blocks[k],
                        needed(before.blocks, k),
                    )),
            decreases func.blocks@.len() - b,
        {
            let ghost mid = func@.blocks;
            assert(mid[b as int] == func.blocks@[b as int]@);
            assert(mid[b as int] == before.blocks[b as int]);
            assert(keeps@[b as int]@ == needed(before.blocks, b as int));
            let changed_here = gvn_block(&mut func.blocks[b], &keeps[b]);
            if changed_here {
                changed = true;
            }
            assert(func@.blocks =~= mid.update(
                b as int,
                numbered_block(before.blocks[b as int], needed(before.blocks, b as int)),
            ));
            b = b + 1;
        }
        assert(func@.blocks =~= numbered_func(before).blocks);
        changed
    }
}

} // verus!

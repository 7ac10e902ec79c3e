//! Dead code elimination: removes instructions whose result nothing in the function uses.

use crate::ir::{self, BlockV, FuncV, InstV, IrBlock, IrFunc, IrInst, IrOperand};
use crate::opt::IrFuncPass;
use std::collections::HashSet;
use vstd::prelude::*;

verus! {

broadcast use {
    vstd::std_specs::hash::group_hash_axioms,
    crate::ir::insts_push,
};

pub struct DeadCodeElim;

/// Whether an instruction does more than define its result.
pub open spec fn critical(i: InstV) -> bool {
    i is Store || i is Call || i is Br || i is Jump || i is Ret || i is Asm
}

/// Whether an operand is among those of an instruction.
pub open spec fn inst_uses(i: InstV, op: IrOperand) -> bool {
    ir::inst_operands(i).contains(op)
}

/// Whether an instruction of a list uses an operand.
pub open spec fn insts_use(instrs: Seq<InstV>, op: IrOperand) -> bool {
    exists|i: int| 0 <= i < instrs.len() && inst_uses(#[trigger] instrs[i], op)
}

/// Whether an instruction of a list allocates a variable.
pub open spec fn insts_alloc(instrs: Seq<InstV>, d: usize) -> bool {
    exists|i: int|
        0 <= i < instrs.len() && (#[trigger] instrs[i] matches InstV::Alloc { dest, .. } && dest
            == d)
}

/// Whether an instruction of a function uses an operand.
pub open spec fn func_uses(blocks: Seq<BlockV>, op: IrOperand) -> bool {
    exists|b: int| 0 <= b < blocks.len() && insts_use((#[trigger] blocks[b]).instrs, op)
}

/// Whether an instruction of a function allocates a variable.
pub open spec fn func_allocs(blocks: Seq<BlockV>, d: usize) -> bool {
    exists|b: int| 0 <= b < blocks.len() && insts_alloc((#[trigger] blocks[b]).instrs, d)
}

/// Whether an index is used in a function as that of a value or of a variable.
pub open spec fn index_used(blocks: Seq<BlockV>, d: usize) -> bool {
    func_uses(blocks, IrOperand::Local(d)) || func_uses(blocks, IrOperand::Global(d))
        || func_allocs(blocks, d)
}

/// Whether an instruction of a function stays.
pub open spec fn needed(blocks: Seq<BlockV>, i: InstV) -> bool {
    critical(i) || match ir::inst_dest(i) {
        Some(d) => index_used(blocks, d),
        None => true,
    }
}

/// A list of instructions without those that are not needed.
pub open spec fn live_insts(blocks: Seq<BlockV>, instrs: Seq<InstV>) -> Seq<InstV> {
    instrs.filter(|i: InstV| needed(blocks, i))
}

/// A function without the instructions that are not needed.
pub open spec fn live_func(f: FuncV) -> FuncV {
    FuncV {
        blocks: f.blocks.map_values(
            |b: BlockV| BlockV { instrs: live_insts(f.blocks, b.instrs), ..b },
        ),
        ..f
    }
}

/// Whether a block has an instruction that is not needed.
pub open spec fn block_shrinks(blocks: Seq<BlockV>, b: BlockV) -> bool {
    live_insts(blocks, b.instrs).len() != b.instrs.len()
}

/// Whether a function has an instruction that is not needed.
pub open spec fn shrinks(f: FuncV) -> bool {
    exists|b: int| 0 <= b < f.blocks.len() && block_shrinks(f.blocks, #[trigger] f.blocks[b])
}

/// Elimination takes away no instruction that stores, calls, branches, returns or is inline
/// assembly, and none whose result an instruction of the function uses.
pub proof fn removed_is_unused(blocks: Seq<BlockV>, i: InstV)
    requires
        !needed(blocks, i),
    ensures
        !critical(i),
        ir::inst_dest(i) is Some,
        !func_uses(blocks, IrOperand::Local(ir::inst_dest(i)->0)),
        !func_uses(blocks, IrOperand::Global(ir::inst_dest(i)->0)),
{
}

/// A list without unneeded instructions loses no needed one, gains none, and only shrinks.
pub proof fn live_insts_are(blocks: Seq<BlockV>, instrs: Seq<InstV>)
    ensures
        live_insts(blocks, instrs).len() <= instrs.len(),
        forall|i: InstV|
            live_insts(blocks, instrs).contains(i) <==> instrs.contains(i) && #[trigger] needed(
                blocks,
                i,
            ),
    decreases instrs.len(),
{
    reveal(Seq::filter);
    if instrs.len() > 0 {
        let front = instrs.drop_last();
        live_insts_are(blocks, front);
        assert forall|i: InstV|
            live_insts(blocks, instrs).contains(i) <==> instrs.contains(i) && #[trigger] needed(
                blocks,
                i,
            ) by {
            let live = live_insts(blocks, instrs);
            let before = live_insts(blocks, front);
            if live.contains(i) {
                let k = choose|k: int| 0 <= k < live.len() && live[k] == i;
                if k < before.len() {
                    assert(before[k] == i);
                    assert(before.contains(i));
                    let m = choose|m: int| 0 <= m < front.len() && front[m] == i;
                    assert(instrs[m] == i);
                } else {
                    assert(instrs[instrs.len() - 1] == i);
                }
            }
            if instrs.contains(i) && needed(blocks, i) {
                let m = choose|m: int| 0 <= m < instrs.len() && instrs[m] == i;
                if m < front.len() {
                    assert(front[m] == i);
                    assert(before.contains(i));
                    let k = choose|k: int| 0 <= k < before.len() && before[k] == i;
                    assert(live[k] == i);
                } else {
                    assert(live[live.len() - 1] == i);
                }
            }
        }
    }
}

fn is_critical(inst: &IrInst) -> (r: bool)
    ensures
        r == critical(inst@),
{
    match inst {
        IrInst::Store { .. } => true,
        IrInst::Call { .. } => true,
        IrInst::Br { .. } => true,
        IrInst::Jump { .. } => true,
        IrInst::Ret { .. } => true,
        IrInst::Asm { .. } => true,
        _ => false,
    }
}

/// The indices that the operands of some instructions use.
struct Uses {
    locals: HashSet<usize>,
    globals: HashSet<usize>,
}

impl Uses {
    /// Adds the operands of an instruction and the variable it allocates.
    #[verifier::loop_isolation(false)]
    fn add_inst(&mut self, inst: &IrInst)
        ensures
            forall|d: usize| #[trigger]
                final(self).locals@.contains(d) <==> old(self).locals@.contains(d) || inst_uses(
                    inst@,
                    IrOperand::Local(d),
                ),
            forall|d: usize| #[trigger]
                final(self).globals@.contains(d) <==> old(self).globals@.contains(d) || inst_uses(
                    inst@,
                    IrOperand::Global(d),
                ) || (inst@ matches InstV::Alloc { dest, .. } && dest == d),
    {
        let ops = inst.operands();
        let ghost all = ir::inst_operands(inst@);
        let ghost locals0 = self.locals@;
        let ghost globals0 = self.globals@;
        let mut i: usize = 0;
        while i < ops.len()
            invariant
                i <= ops.len(),
                ops@.map_values(|o: &IrOperand| *o) == all,
                forall|d: usize| #[trigger]
                    self.locals@.contains(d) <==> locals0.contains(d) || all.take(
                        i as int,
                    ).contains(IrOperand::Local(d)),
                forall|d: usize| #[trigger]
                    self.globals@.contains(d) <==> globals0.contains(d) || all.take(
                        i as int,
                    ).contains(IrOperand::Global(d)),
            decreases ops.len() - i,
        {
            let op = *ops[i];
            let ghost locals1 = self.locals@;
            let ghost globals1 = self.globals@;
            match op {
                IrOperand::Local(idx) => {
                    self.locals.insert(idx);
                },
                IrOperand::Global(idx) => {
                    self.globals.insert(idx);
                },
                _ => {},
            }
            proof {
                let before = all.take(i as int);
                let next = all.take(i + 1);
                assert(all[i as int] == op);
                assert(next =~= before.push(op));
                assert forall|o: IrOperand| #[trigger]
                    next.contains(o) <==> before.contains(o) || o == op by {
                    if before.contains(o) {
                        let k = choose|k: int| 0 <= k < before.len() && before[k] == o;
                        assert(next[k] == o);
                    }
                    if o == op {
                        assert(next[i as int] == o);
                    }
                    if next.contains(o) {
                        let k = choose|k: int| 0 <= k < next.len() && next[k] == o;
                        if k < i {
                            assert(before[k] == o);
                        }
                    }
                }
                assert forall|d: usize| #[trigger]
                    self.locals@.contains(d) <==> locals0.contains(d) || next.contains(
                        IrOperand::Local(d),
                    ) by {
                    assert(locals1.contains(d) <==> locals0.contains(d) || before.contains(
                        IrOperand::Local(d),
                    ));
                }
                assert forall|d: usize| #[trigger]
                    self.globals@.contains(d) <==> globals0.contains(d) || next.contains(
                        IrOperand::Global(d),
                    ) by {
                    assert(globals1.contains(d) <==> globals0.contains(d) || before.contains(
                        IrOperand::Global(d),
                    ));
                }
            }
            i = i + 1;
        }
        assert(all.take(i as int) =~= all);
        if let IrInst::Alloc { dest, .. } = inst {
            self.globals.insert(*dest);
        }
    }

    /// Adds the uses of the instructions of a block.
    #[verifier::loop_isolation(false)]
    fn add_block(&mut self, block: &IrBlock)
        ensures
            forall|d: usize| #[trigger]
                final(self).locals@.contains(d) <==> old(self).locals@.contains(d) || insts_use(
                    block@.instrs,
                    IrOperand::Local(d),
                ),
            forall|d: usize| #[trigger]
                final(self).globals@.contains(d) <==> old(self).globals@.contains(d) || insts_use(
                    block@.instrs,
                    IrOperand::Global(d),
                ) || insts_alloc(block@.instrs, d),
    {
        let ghost all = block@.instrs;
        let ghost locals0 = self.locals@;
        let ghost globals0 = self.globals@;
        let mut i: usize = 0;
        while i < block.instrs.len()
            invariant
                i <= block.instrs.len(),
                forall|d: usize| #[trigger]
                    self.locals@.contains(d) <==> locals0.contains(d) || insts_use(
                        all.take(i as int),
                        IrOperand::Local(d),
                    ),
                forall|d: usize| #[trigger]
                    self.globals@.contains(d) <==> globals0.contains(d) || insts_use(
                        all.take(i as int),
                        IrOperand::Global(d),
                    ) || insts_alloc(all.take(i as int), d),
            decreases block.instrs.len() - i,
        {
            let ghost locals1 = self.locals@;
            let ghost globals1 = self.globals@;
            self.add_inst(&block.instrs[i]);
            proof {
                let last = all[i as int];
                assert(last == block.instrs@[i as int]@);
                assert(all.take(i + 1) =~= all.take(i as int).push(last));
                assert forall|d: usize| #[trigger]
                    self.locals@.contains(d) <==> locals0.contains(d) || insts_use(
                        all.take(i + 1),
                        IrOperand::Local(d),
                    ) by {
                    insts_use_push(all.take(i as int), last, IrOperand::Local(d));
                    assert(locals1.contains(d) <==> locals0.contains(d) || insts_use(
                        all.take(i as int),
                        IrOperand::Local(d),
                    ));
                }
                assert forall|d: usize| #[trigger]
                    self.globals@.contains(d) <==> globals0.contains(d) || insts_use(
                        all.take(i + 1),
                        IrOperand::Global(d),
                    ) || insts_alloc(all.take(i + 1), d) by {
                    insts_use_push(all.take(i as int), last, IrOperand::Global(d));
                    insts_alloc_push(all.take(i as int), last, d);
                    assert(globals1.contains(d) <==> globals0.contains(d) || insts_use(
                        all.take(i as int),
                        IrOperand::Global(d),
                    ) || insts_alloc(all.take(i as int), d));
                }
            }
            i = i + 1;
        }
        assert(all.take(i as int) =~= all);
    }

    /// The uses of a function.
    #[verifier::loop_isolation(false)]
    fn of(func: &IrFunc) -> (r: Self)
        ensures
            forall|d: usize|
                index_used(func@.blocks, d) <==> (#[trigger] r.locals@.contains(d)
                    || r.globals@.contains(d)),
    {
        let mut uses = Uses { locals: HashSet::new(), globals: HashSet::new() };
        let ghost all = func@.blocks;
        let mut b: usize = 0;
        while b < func.blocks.len()
            invariant
                b <= func.blocks.len(),
                forall|d: usize| #[trigger]
                    uses.locals@.contains(d) <==> func_uses(
                        all.take(b as int),
                        IrOperand::Local(d),
                    ),
                forall|d: usize| #[trigger]
                    uses.globals@.contains(d) <==> func_uses(
                        all.take(b as int),
                        IrOperand::Global(d),
                    ) || func_allocs(all.take(b as int), d),
            decreases func.blocks.len() - b,
        {
            let ghost locals1 = uses.locals@;
            let ghost globals1 = uses.globals@;
            uses.add_block(&func.blocks[b]);
            proof {
                let last = all[b as int];
                assert(last == func.blocks@[b as int]@);
                assert(all.take(b + 1) =~= all.take(b as int).push(last));
                assert forall|d: usize| #[trigger]
                    uses.locals@.contains(d) <==> func_uses(
                        all.take(b + 1),
                        IrOperand::Local(d),
                    ) by {
                    func_uses_push(all.take(b as int), last, IrOperand::Local(d));
                    assert(locals1.contains(d) <==> func_uses(
                        all.take(b as int),
                        IrOperand::Local(d),
                    ));
                }
                assert forall|d: usize| #[trigger]
                    uses.globals@.contains(d) <==> func_uses(
                        all.take(b + 1),
                        IrOperand::Global(d),
                    ) || func_allocs(all.take(b + 1), d) by {
                    func_uses_push(all.take(b as int), last, IrOperand::Global(d));
                    func_allocs_push(all.take(b as int), last, d);
                    assert(globals1.contains(d) <==> func_uses(
                        all.take(b as int),
                        IrOperand::Global(d),
                    ) || func_allocs(all.take(b as int), d));
                }
            }
            b = b + 1;
        }
        assert(all.take(b as int) =~= all);
        assert forall|d: usize|
            index_used(func@.blocks, d) <==> (#[trigger] uses.locals@.contains(d)
                || uses.globals@.contains(d)) by {
            assert(uses.globals@.contains(d) || !uses.globals@.contains(d));
        }
        uses
    }
}

proof fn insts_use_push(instrs: Seq<InstV>, i: InstV, op: IrOperand)
    ensures
        insts_use(instrs.push(i), op) <==> insts_use(instrs, op) || inst_uses(i, op),
{
    let next = instrs.push(i);
    if insts_use(instrs, op) {
        let k = choose|k: int| 0 <= k < instrs.len() && inst_uses(#[trigger] instrs[k], op);
        assert(inst_uses(next[k], op));
    }
    if inst_uses(i, op) {
        assert(inst_uses(next[instrs.len() as int], op));
    }
    if insts_use(next, op) {
        let k = choose|k: int| 0 <= k < next.len() && inst_uses(#[trigger] next[k], op);
        if k < instrs.len() {
            assert(inst_uses(instrs[k], op));
        }
    }
}

proof fn insts_alloc_push(instrs: Seq<InstV>, i: InstV, d: usize)
    ensures
        insts_alloc(instrs.push(i), d) <==> insts_alloc(instrs, d) || (
        i matches InstV::Alloc { dest, .. } && dest == d),
{
    let next = instrs.push(i);
    if insts_alloc(instrs, d) {
        let k = choose|k: int|
            0 <= k < instrs.len() && (#[trigger] instrs[k] matches InstV::Alloc { dest, .. }
                && dest == d);
        assert(next[k] == instrs[k]);
    }
    if i matches InstV::Alloc { dest, .. } && dest == d {
        assert(next[instrs.len() as int] == i);
    }
    if insts_alloc(next, d) {
        let k = choose|k: int|
            0 <= k < next.len() && (#[trigger] next[k] matches InstV::Alloc { dest, .. } && dest
                == d);
        if k < instrs.len() {
            assert(next[k] == instrs[k]);
        }
    }
}

proof fn func_uses_push(blocks: Seq<BlockV>, b: BlockV, op: IrOperand)
    ensures
        func_uses(blocks.push(b), op) <==> func_uses(blocks, op) || insts_use(b.instrs, op),
{
    let next = blocks.push(b);
    if func_uses(blocks, op) {
        let k = choose|k: int|
            0 <= k < blocks.len() && insts_use((#[trigger] blocks[k]).instrs, op);
        assert(next[k] == blocks[k]);
    }
    if insts_use(b.instrs, op) {
        assert(next[blocks.len() as int] == b);
    }
    if func_uses(next, op) {
        let k = choose|k: int| 0 <= k < next.len() && insts_use((#[trigger] next[k]).instrs, op);
        if k < blocks.len() {
            assert(next[k] == blocks[k]);
        }
    }
}

proof fn func_allocs_push(blocks: Seq<BlockV>, b: BlockV, d: usize)
    ensures
        func_allocs(blocks.push(b), d) <==> func_allocs(blocks, d) || insts_alloc(b.instrs, d),
{
    let next = blocks.push(b);
    if func_allocs(blocks, d) {
        let k = choose|k: int|
            0 <= k < blocks.len() && insts_alloc((#[trigger] blocks[k]).instrs, d);
        assert(next[k] == blocks[k]);
    }
    if insts_alloc(b.instrs, d) {
        assert(next[blocks.len() as int] == b);
    }
    if func_allocs(next, d) {
        let k = choose|k: int| 0 <= k < next.len() && insts_alloc((#[trigger] next[k]).instrs, d);
        if k < blocks.len() {
            assert(next[k] == blocks[k]);
        }
    }
}

/// The instructions of a block that are needed.
#[verifier::loop_isolation(false)]
fn retain_live(instrs: &Vec<IrInst>, uses: &Uses, Ghost(blocks): Ghost<Seq<BlockV>>) -> (r: Vec<
    IrInst,
>)
    requires
        forall|d: usize|
            index_used(blocks, d) <==> (#[trigger] uses.locals@.contains(d)
                || uses.globals@.contains(d)),
    ensures
        ir::insts(r@) == live_insts(blocks, ir::insts(instrs@)),
{
    let mut out: Vec<IrInst> = Vec::new();
    let ghost all = ir::insts(instrs@);
    let mut i: usize = 0;
    reveal(Seq::filter);
    assert(ir::insts(out@) =~= live_insts(blocks, all.take(0)));
    while i < instrs.len()
        invariant
            i <= instrs.len(),
            ir::insts(out@) == live_insts(blocks, all.take(i as int)),
        decreases instrs.len() - i,
    {
        let inst = &instrs[i];
        assert(all[i as int] == inst@);
        assert(all.take(i + 1).drop_last() =~= all.take(i as int));
        let keep = is_critical(inst) || match inst.dest() {
            Some(d) => uses.locals.contains(&d) || uses.globals.contains(&d),
            None => true,
        };
        assert(keep == needed(blocks, inst@));
        if keep {
            out.push(inst.clone());
        }
        i = i + 1;
    }
    assert(all.take(i as int) =~= all);
    out
}

impl IrFuncPass for DeadCodeElim {
    open spec fn applied(&self, f: FuncV) -> FuncV {
        live_func(f)
    }

    open spec fn changes(&self, f: FuncV) -> bool {
        shrinks(f)
    }

    open spec fn title(&self) -> Seq<char> {
        "dce"@
    }

    fn name(&self) -> (r: &str) {
        "dce"
    }

    #[verifier::loop_isolation(false)]
    fn run(&self, func: &mut IrFunc) -> (r: bool) {
        let ghost before = func@;
        let uses = Uses::of(func);
        let mut changed = false;
        let mut b: usize = 0;
        while b < func.blocks.len()
            invariant
                b <= func.blocks@.len(),
                func@ == (FuncV { blocks: func@.blocks, ..before }),
                func@.blocks.len() == before.blocks.len(),
                forall|k: int|
                    0 <= k < before.blocks.len() ==> #[trigger] func@.blocks[k] == if k < b {
                        live_func(before).blocks[k]
                    } else {
                        before.blocks[k]
                    },
                changed == (exists|k: int|
                    0 <= k < b && block_shrinks(before.blocks, #[trigger] before.blocks[k])),
            decreases func.blocks@.len() - b,
        {
            let ghost mid = func@.blocks;
            assert(mid[b as int] == func.blocks@[b as int]@);
            assert(mid[b as int] == before.blocks[b as int]);
            let instrs = retain_live(&func.blocks[b].instrs, &uses, Ghost(before.blocks));
            assert(ir::insts(instrs@).len() == instrs@.len());
            if instrs.len() != func.blocks[b].instrs.len() {
                changed = true;
            }
            func.blocks[b].instrs = instrs;
            assert(func@.blocks =~= mid.update(b as int, live_func(before).blocks[b as int]));
            b = b + 1;
        }
        assert(func@.blocks =~= live_func(before).blocks);
        changed
    }
}

} // verus!

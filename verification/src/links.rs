//! What the indices of a program refer to is there: names have entries in the tables, and branches
//! go to blocks of their function.

use crate::ir::{self, BlockV, FuncV, InstV, IrOperand, ProgV};
use vstd::prelude::*;

verus! {

/// How many names of each kind there are.
#[verifier::ext_equal]
pub struct SizesV {
    pub globals: int,
    pub labels: int,
    pub funcs: int,
}

/// The sizes of the tables of a program.
pub open spec fn sizes(p: ProgV) -> SizesV {
    SizesV {
        globals: p.global_names.len() as int,
        labels: p.block_names.len() as int,
        funcs: p.func_names.len() as int,
    }
}

/// Whether no table is smaller than another.
pub open spec fn within(a: SizesV, b: SizesV) -> bool {
    a.globals <= b.globals && a.labels <= b.labels && a.funcs <= b.funcs
}

/// An operand has a name.
pub open spec fn op_fits(n: SizesV, op: IrOperand) -> bool {
    op matches IrOperand::Global(g) ==> g < n.globals
}

/// Operands have names.
pub open spec fn ops_fit(n: SizesV, ops: Seq<IrOperand>) -> bool {
    forall|k: int| 0 <= k < ops.len() ==> op_fits(n, #[trigger] ops[k])
}

/// What an instruction names besides its operands and values is there.
pub open spec fn names_fit(n: SizesV, i: InstV) -> bool {
    match i {
        InstV::Alloc { dest, .. } => dest < n.globals,
        InstV::Call { func, .. } => func < n.funcs,
        InstV::Br { then_bb, else_bb, .. } => then_bb < n.labels && else_bb < n.labels,
        InstV::Jump { target } => target < n.labels,
        _ => true,
    }
}

/// What an instruction names is there.
pub open spec fn inst_fits(n: SizesV, i: InstV) -> bool {
    ops_fit(n, ir::inst_operands(i)) && names_fit(n, i)
}

/// Whether an instruction may go to a label.
pub open spec fn goes_to(i: InstV, label: usize) -> bool {
    match i {
        InstV::Br { then_bb, else_bb, .. } => label == then_bb || label == else_bb,
        InstV::Jump { target } => label == target,
        _ => false,
    }
}

/// Whether one of some blocks has a label.
pub open spec fn has_label(blocks: Seq<BlockV>, label: usize) -> bool {
    exists|k: int| 0 <= k < blocks.len() && (#[trigger] blocks[k]).label == label
}

/// An instruction goes only to blocks among some.
pub open spec fn lands(blocks: Seq<BlockV>, i: InstV) -> bool {
    forall|t: usize| #[trigger] goes_to(i, t) ==> has_label(blocks, t)
}

/// An instruction of some blocks refers to what is there.
pub open spec fn inst_linked(n: SizesV, blocks: Seq<BlockV>, i: InstV) -> bool {
    inst_fits(n, i) && lands(blocks, i)
}

/// A list of instructions of some blocks refers to what is there.
pub open spec fn insts_linked(n: SizesV, blocks: Seq<BlockV>, instrs: Seq<InstV>) -> bool {
    forall|i: int| 0 <= i < instrs.len() ==> inst_linked(n, blocks, #[trigger] instrs[i])
}

/// Some blocks refer to what is there; branches go to blocks among `all`.
pub open spec fn blocks_linked(n: SizesV, all: Seq<BlockV>, blocks: Seq<BlockV>) -> bool {
    forall|b: int|
        0 <= b < blocks.len() ==> (#[trigger] blocks[b]).label < n.labels && insts_linked(
            n,
            all,
            blocks[b].instrs,
        )
}

/// A function refers to what is there.
pub open spec fn func_linked(n: SizesV, f: FuncV) -> bool {
    &&& f.name < n.funcs
    &&& forall|k: int| 0 <= k < f.params.len() ==> (#[trigger] f.params[k]).0 < n.globals
    &&& blocks_linked(n, f.blocks, f.blocks)
}

/// Some functions refer to what is there.
pub open spec fn funcs_linked(n: SizesV, funcs: Seq<FuncV>) -> bool {
    forall|i: int| 0 <= i < funcs.len() ==> func_linked(n, #[trigger] funcs[i])
}

/// The declarations of a program refer to what is there.
pub open spec fn decls_linked(n: SizesV, p: ProgV) -> bool {
    &&& forall|i: int| 0 <= i < p.globals.len() ==> (#[trigger] p.globals[i]).name < n.globals
    &&& forall|i: int| 0 <= i < p.func_decls.len() ==> (#[trigger] p.func_decls[i]).name < n.funcs
}

/// A program refers to what is there.
pub open spec fn linked(p: ProgV) -> bool {
    decls_linked(sizes(p), p) && funcs_linked(sizes(p), p.funcs)
}

/// A function that is one block does not branch.
pub open spec fn entry_not_target(f: FuncV) -> bool {
    forall|b: int, i: int, t: usize|
        #![trigger goes_to(f.blocks[b].instrs[i], t)]
        0 <= b < f.blocks.len() && 0 <= i < f.blocks[b].instrs.len() && goes_to(
            f.blocks[b].instrs[i],
            t,
        ) ==> t != f.blocks[0].label
}

/// Some functions have entry blocks that nothing goes to.
pub open spec fn entries_not_targets(funcs: Seq<FuncV>) -> bool {
    forall|i: int| 0 <= i < funcs.len() ==> entry_not_target(#[trigger] funcs[i])
}

/// What is there in tables is there in larger ones.
pub proof fn inst_fits_more(n: SizesV, m: SizesV, i: InstV)
    requires
        inst_fits(n, i),
        within(n, m),
    ensures
        inst_fits(m, i),
{
    assert forall|k: int| 0 <= k < ir::inst_operands(i).len() implies op_fits(
        m,
        #[trigger] ir::inst_operands(i)[k],
    ) by {
        assert(op_fits(n, ir::inst_operands(i)[k]));
    }
}

/// A function that refers to what is there does so in larger tables.
pub proof fn func_linked_more(n: SizesV, m: SizesV, f: FuncV)
    requires
        func_linked(n, f),
        within(n, m),
    ensures
        func_linked(m, f),
{
    assert forall|b: int| 0 <= b < f.blocks.len() implies (#[trigger] f.blocks[b]).label < m.labels
        && insts_linked(m, f.blocks, f.blocks[b].instrs) by {
        let instrs = f.blocks[b].instrs;
        assert forall|i: int| 0 <= i < instrs.len() implies inst_linked(
            m,
            f.blocks,
            #[trigger] instrs[i],
        ) by {
            assert(inst_linked(n, f.blocks, instrs[i]));
            inst_fits_more(n, m, instrs[i]);
        }
    }
}

} // verus!

//! Constant folding: instructions with constant operands become copies of their value.

use crate::eval::{self, as_int};
use crate::ir::{self, BlockV, FuncV, InstV, IrArithOp, IrBlock, IrCmpOp, IrFunc, IrInst, IrOperand};
use crate::opt::IrFuncPass;
use vstd::prelude::*;

verus! {

broadcast use {
    crate::ir::insts_push,
    crate::ir::blocks_push,
};

pub struct ConstFold;

/// The value of an arithmetic operation; a quotient or remainder that does not exist counts as
/// zero.
pub open spec fn arith_value(op: IrArithOp, l: i32, r: i32) -> i32 {
    match op {
        IrArithOp::Add => l.wrapping_add(r),
        IrArithOp::Sub => l.wrapping_sub(r),
        IrArithOp::Mul => l.wrapping_mul(r),
        IrArithOp::Div => match l.checked_div(r) {
            Some(v) => v,
            None => 0,
        },
        IrArithOp::Mod => match l.checked_rem(r) {
            Some(v) => v,
            None => 0,
        },
    }
}

/// The value of a comparison.
pub open spec fn compare_value(op: IrCmpOp, l: i32, r: i32) -> i32 {
    match op {
        IrCmpOp::Eq => eval::truth(l == r),
        IrCmpOp::Ne => eval::truth(l != r),
        IrCmpOp::Lt => eval::truth(l < r),
        IrCmpOp::Gt => eval::truth(l > r),
        IrCmpOp::Le => eval::truth(l <= r),
        IrCmpOp::Ge => eval::truth(l >= r),
    }
}

/// A copy of a value.
pub open spec fn copy_of(dest: usize, v: IrOperand) -> InstV {
    InstV::Arith { dest, op: IrArithOp::Add, lhs: v, rhs: IrOperand::Int(0) }
}

/// An arithmetic instruction after folding.
pub open spec fn folded_arith(dest: usize, op: IrArithOp, lhs: IrOperand, rhs: IrOperand) -> InstV {
    match (lhs, rhs) {
        (IrOperand::Int(l), IrOperand::Int(r)) => copy_of(
            dest,
            IrOperand::Int(arith_value(op, l, r)),
        ),
        _ => if op == IrArithOp::Add && lhs == IrOperand::Int(0) {
            copy_of(dest, rhs)
        } else if op == IrArithOp::Mul && lhs == IrOperand::Int(1) {
            copy_of(dest, rhs)
        } else if op == IrArithOp::Mul && (rhs == IrOperand::Int(0) || lhs == IrOperand::Int(0)) {
            copy_of(dest, IrOperand::Int(0))
        } else {
            InstV::Arith { dest, op, lhs, rhs }
        },
    }
}

/// An instruction after folding.
pub open spec fn folded(i: InstV) -> InstV {
    match i {
        InstV::Arith { dest, op, lhs, rhs } => folded_arith(dest, op, lhs, rhs),
        InstV::Icmp { dest, op, lhs: IrOperand::Int(l), rhs: IrOperand::Int(r) } => copy_of(
            dest,
            IrOperand::Int(compare_value(op, l, r)),
        ),
        InstV::Br { cond: IrOperand::Int(v), then_bb, else_bb } => InstV::Jump {
            target: if v != 0 {
                then_bb
            } else {
                else_bb
            },
        },
        _ => i,
    }
}

/// A block after folding.
pub open spec fn folded_block(b: BlockV) -> BlockV {
    BlockV { instrs: b.instrs.map_values(|i: InstV| folded(i)), ..b }
}

/// A function after folding.
pub open spec fn folded_func(f: FuncV) -> FuncV {
    FuncV { blocks: f.blocks.map_values(|b: BlockV| folded_block(b)), ..f }
}

/// Whether folding changes an instruction of a block.
pub open spec fn block_folds(b: BlockV) -> bool {
    exists|i: int| 0 <= i < b.instrs.len() && folded(#[trigger] b.instrs[i]) != b.instrs[i]
}

/// Whether folding changes an instruction of a function.
pub open spec fn folds(f: FuncV) -> bool {
    exists|b: int| 0 <= b < f.blocks.len() && block_folds(#[trigger] f.blocks[b])
}

fn eval_arith(op: IrArithOp, l: i32, r: i32) -> (v: i32)
    ensures
        v == arith_value(op, l, r),
{
    match op {
        IrArithOp::Add => l.wrapping_add(r),
        IrArithOp::Sub => l.wrapping_sub(r),
        IrArithOp::Mul => l.wrapping_mul(r),
        IrArithOp::Div => match l.checked_div(r) {
            Some(v) => v,
            None => 0,
        },
        IrArithOp::Mod => match l.checked_rem(r) {
            Some(v) => v,
            None => 0,
        },
    }
}

fn eval_compare(op: IrCmpOp, l: i32, r: i32) -> (v: i32)
    ensures
        v == compare_value(op, l, r),
{
    match op {
        IrCmpOp::Eq => as_int(l == r),
        IrCmpOp::Ne => as_int(l != r),
        IrCmpOp::Lt => as_int(l < r),
        IrCmpOp::Gt => as_int(l > r),
        IrCmpOp::Le => as_int(l <= r),
        IrCmpOp::Ge => as_int(l >= r),
    }
}

pub(crate) fn copy_inst(dest: usize, v: IrOperand) -> (r: IrInst)
    ensures
        r@ == copy_of(dest, v),
{
    IrInst::Arith { dest, op: IrArithOp::Add, lhs: v, rhs: IrOperand::Int(0) }
}

/// What an arithmetic instruction becomes, where it changes.
fn fold_arith(dest: usize, op: IrArithOp, lhs: IrOperand, rhs: IrOperand) -> (r: Option<IrInst>)
    ensures
        match r {
            Some(x) => x@ == folded_arith(dest, op, lhs, rhs) && x@ != (InstV::Arith {
                dest,
                op,
                lhs,
                rhs,
            }),
            None => folded_arith(dest, op, lhs, rhs) == (InstV::Arith { dest, op, lhs, rhs }),
        },
{
    match (lhs, rhs) {
        (IrOperand::Int(l), IrOperand::Int(r)) => {
            if matches!(op, IrArithOp::Add) && r == 0 {
                return None;
            }
            Some(copy_inst(dest, IrOperand::Int(eval_arith(op, l, r))))
        },
        _ => {
            if matches!(op, IrArithOp::Add) && lhs == IrOperand::Int(0) {
                Some(copy_inst(dest, rhs))
            } else if matches!(op, IrArithOp::Mul) && lhs == IrOperand::Int(1) {
                Some(copy_inst(dest, rhs))
            } else if matches!(op, IrArithOp::Mul) && (rhs == IrOperand::Int(0) || lhs
                == IrOperand::Int(0)) {
                Some(copy_inst(dest, IrOperand::Int(0)))
            } else {
                None
            }
        },
    }
}

/// What an instruction becomes, where it changes.
fn fold_to(inst: &IrInst) -> (r: Option<IrInst>)
    ensures
        match r {
            Some(x) => x@ == folded(inst@) && x@ != inst@,
            None => folded(inst@) == inst@,
        },
{
    match inst {
        IrInst::Arith { dest, op, lhs, rhs } => fold_arith(*dest, *op, *lhs, *rhs),
        IrInst::Icmp { dest, op, lhs, rhs } => match (*lhs, *rhs) {
            (IrOperand::Int(l), IrOperand::Int(r)) => Some(
                copy_inst(*dest, IrOperand::Int(eval_compare(*op, l, r))),
            ),
            _ => None,
        },
        IrInst::Br { cond, then_bb, else_bb } => match *cond {
            IrOperand::Int(v) => Some(
                IrInst::Jump {
                    target: if v != 0 {
                        *then_bb
                    } else {
                        *else_bb
                    },
                },
            ),
            _ => None,
        },
        _ => None,
    }
}

/// Folds a single instruction; `true` where it changed.
fn fold_inst(inst: &mut IrInst) -> (r: bool)
    ensures
        final(inst)@ == folded(old(inst)@),
        r == (folded(old(inst)@) != old(inst)@),
{
    match fold_to(inst) {
        Some(x) => {
            *inst = x;
            true
        },
        None => false,
    }
}

/// Folds the instructions of a block; `true` where one changed.
fn fold_block(block: &mut IrBlock) -> (r: bool)
    ensures
        final(block)@ == folded_block(old(block)@),
        r == block_folds(old(block)@),
{
    let ghost before = block@;
    let mut changed = false;
    let mut i: usize = 0;
    while i < block.instrs.len()
        invariant
            i <= block.instrs@.len(),
            block@ == (BlockV { instrs: block@.instrs, ..before }),
            block@.instrs.len() == before.instrs.len(),
            forall|k: int|
                0 <= k < before.instrs.len() ==> #[trigger] block@.instrs[k] == if k < i {
                    folded(before.instrs[k])
                } else {
                    before.instrs[k]
                },
            changed == (exists|k: int|
                0 <= k < i && folded(#[trigger] before.instrs[k]) != before.instrs[k]),
        decreases block.instrs@.len() - i,
    {
        let ghost mid = block@.instrs;
        let ghost insts = block.instrs@;
        assert(mid[i as int] == insts[i as int]@);
        let item = &mut block.instrs[i];
        let folded_here = fold_inst(item);
        if folded_here {
            changed = true;
            assert(folded(before.instrs[i as int]) != before.instrs[i as int]);
        }
        assert(block@.instrs =~= mid.update(i as int, folded(before.instrs[i as int])));
        i = i + 1;
    }
    assert(block@.instrs =~= folded_block(before).instrs);
    changed
}

impl IrFuncPass for ConstFold {
    open spec fn applied(&self, f: FuncV) -> FuncV {
        folded_func(f)
    }

    open spec fn changes(&self, f: FuncV) -> bool {
        folds(f)
    }

    open spec fn title(&self) -> Seq<char> {
        "const-fold"@
    }

    fn name(&self) -> (r: &str) {
        "const-fold"
    }

    #[verifier::loop_isolation(false)]
    fn run(&self, func: &mut IrFunc) -> (r: bool) {
        let ghost before = func@;
        let mut changed = false;
        let mut b: usize = 0;
        while b < func.blocks.len()
            invariant
                b <= func.blocks@.len(),
                func@ == (FuncV { blocks: func@.blocks, ..before }),
                func@.blocks.len() == before.blocks.len(),
                forall|k: int|
                    0 <= k < before.blocks.len() ==> #[trigger] func@.blocks[k] == if k < b {
                        folded_block(before.blocks[k])
                    } else {
                        before.blocks[k]
                    },
                changed == (exists|k: int| 0 <= k < b && block_folds(#[trigger] before.blocks[k])),
            decreases func.blocks@.len() - b,
        {
            let ghost mid = func@.blocks;
            let ghost blocks = func.blocks@;
            assert(mid[b as int] == blocks[b as int]@);
            let folded_here = fold_block(&mut func.blocks[b]);
            if folded_here {
                changed = true;
            }
            assert(mid[b as int] == before.blocks[b as int]);
            assert(func@.blocks =~= mid.update(b as int, folded_block(before.blocks[b as int])));
            b = b + 1;
        }
        assert(func@.blocks =~= folded_func(before).blocks);
        changed
    }
}

} // verus!

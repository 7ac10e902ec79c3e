//! What the instructions of a function do.
//!
//! A machine says what the world around a function answers: where variables are, what memory
//! holds, what calls and inline assembly do. Against a machine, blocks turn states into states,
//! and functions come to an end or go on.

use crate::cfg;
use crate::ir::{BlockV, InstV, IrOperand};
use crate::opt::const_fold;
use vstd::prelude::*;

verus! {

/// What the world around a function answers.
#[verifier::reject_recursive_types(W)]
pub struct MachineV<W> {
    /// What the name of a variable or of a parameter stands for.
    pub address: spec_fn(usize) -> i32,
    /// The value of what has none.
    pub undef: i32,
    /// The word at an address.
    pub load: spec_fn(W, i32) -> i32,
    /// The world after a word has been stored at an address.
    pub store: spec_fn(W, i32, i32) -> W,
    /// The address of an element, from that of the array, the index and the size of an element.
    pub element: spec_fn(i32, i32, i32) -> i32,
    /// The world after a call, and its result.
    pub call: spec_fn(W, usize, Seq<i32>) -> (W, i32),
    /// The world after inline assembly, and its result.
    pub code: spec_fn(W, Seq<char>) -> (W, i32),
}

/// The state of a function.
#[verifier::ext_equal]
pub struct StateV<W> {
    /// The SSA values.
    pub locals: Map<usize, i32>,
    /// The variables that nothing outside the function reaches.
    pub vars: Map<usize, i32>,
    pub world: W,
}

/// The value of an operand.
pub open spec fn value<W>(m: MachineV<W>, s: StateV<W>, op: IrOperand) -> i32 {
    match op {
        IrOperand::Int(n) => n,
        IrOperand::Local(l) => s.locals[l],
        IrOperand::Global(g) => (m.address)(g),
        IrOperand::Undef => m.undef,
    }
}

/// The values of operands.
pub open spec fn values<W>(m: MachineV<W>, s: StateV<W>, ops: Seq<IrOperand>) -> Seq<i32> {
    ops.map_values(|op: IrOperand| value(m, s, op))
}

/// The state after an SSA value has been defined.
pub open spec fn with_local<W>(s: StateV<W>, dest: usize, v: i32) -> StateV<W> {
    StateV { locals: s.locals.insert(dest, v), ..s }
}

/// The state after an SSA value has been defined, where there is one.
pub open spec fn with_result<W>(s: StateV<W>, dest: Option<usize>, v: i32) -> StateV<W> {
    match dest {
        Some(d) => with_local(s, d, v),
        None => s,
    }
}

/// What is at the place that an operand stands for; `own` are the variables that nothing outside
/// the function reaches.
pub open spec fn read<W>(m: MachineV<W>, own: Set<usize>, s: StateV<W>, src: IrOperand) -> i32 {
    if src is Global && own.contains(src->Global_0) {
        s.vars[src->Global_0]
    } else {
        (m.load)(s.world, value(m, s, src))
    }
}

/// The state after a value has been stored at the place that an operand stands for.
pub open spec fn written<W>(
    m: MachineV<W>,
    own: Set<usize>,
    s: StateV<W>,
    v: i32,
    ptr: IrOperand,
) -> StateV<W> {
    if ptr is Global && own.contains(ptr->Global_0) {
        StateV { vars: s.vars.insert(ptr->Global_0, v), ..s }
    } else {
        StateV { world: (m.store)(s.world, value(m, s, ptr), v), ..s }
    }
}

/// The state after an instruction. Branches and phis are not carried out here.
pub open spec fn step<W>(m: MachineV<W>, own: Set<usize>, s: StateV<W>, i: InstV) -> StateV<W> {
    match i {
        InstV::Load { dest, src } => with_local(s, dest, read(m, own, s, src)),
        InstV::Store { value: v, ptr } => written(m, own, s, value(m, s, v), ptr),
        InstV::Arith { dest, op, lhs, rhs } => with_local(
            s,
            dest,
            const_fold::arith_value(op, value(m, s, lhs), value(m, s, rhs)),
        ),
        InstV::Icmp { dest, op, lhs, rhs } => with_local(
            s,
            dest,
            const_fold::compare_value(op, value(m, s, lhs), value(m, s, rhs)),
        ),
        InstV::GetPtr { dest, ptr, index, elem_size } => with_local(
            s,
            dest,
            (m.element)(value(m, s, ptr), value(m, s, index), elem_size),
        ),
        InstV::GetElemPtr { dest, ptr, index, elem_size } => with_local(
            s,
            dest,
            (m.element)(value(m, s, ptr), value(m, s, index), elem_size),
        ),
        InstV::Call { dest, func, args } => {
            let (world, v) = (m.call)(s.world, func, values(m, s, args));
            with_result(StateV { world, ..s }, dest, v)
        },
        InstV::Asm { dest, code } => {
            let (world, v) = (m.code)(s.world, code);
            with_result(StateV { world, ..s }, dest, v)
        },
        _ => s,
    }
}

/// The state after a list of instructions.
pub open spec fn run<W>(
    m: MachineV<W>,
    own: Set<usize>,
    s: StateV<W>,
    instrs: Seq<InstV>,
) -> StateV<W>
    decreases instrs.len(),
{
    if instrs.len() == 0 {
        s
    } else {
        step(m, own, run(m, own, s, instrs.drop_last()), instrs.last())
    }
}

/// The value that comes in from a block.
pub open spec fn incoming_from(incoming: Seq<(IrOperand, usize)>, from: usize) -> IrOperand
    decreases incoming.len(),
{
    if incoming.len() == 0 {
        IrOperand::Undef
    } else if incoming.last().1 == from {
        incoming.last().0
    } else {
        incoming_from(incoming.drop_last(), from)
    }
}

/// The state after a block that comes from another has been entered: its phis take the values
/// that come in, all at once.
pub open spec fn entered<W>(
    m: MachineV<W>,
    s: StateV<W>,
    instrs: Seq<InstV>,
    from: usize,
) -> StateV<W>
    decreases instrs.len(),
{
    if instrs.len() == 0 {
        s
    } else {
        let before = entered(m, s, instrs.drop_last(), from);
        match instrs.last() {
            InstV::Phi { dest, incoming } => with_local(
                before,
                dest,
                value(m, s, incoming_from(incoming, from)),
            ),
            _ => before,
        }
    }
}

/// What becomes of a function.
pub enum OutcomeV<W> {
    /// It has returned a value, or none.
    Returned(W, Option<i32>),
    /// It has come to a block that ends in no branch, or to a label that no block has.
    Stuck,
    /// It has not come to an end.
    Running,
}

/// What becomes of a function that is about to enter a block from another, within a number of
/// blocks.
pub open spec fn outcome<W>(
    m: MachineV<W>,
    own: Set<usize>,
    blocks: Seq<BlockV>,
    b: int,
    from: usize,
    s: StateV<W>,
    fuel: nat,
) -> OutcomeV<W>
    decreases fuel, 1int,
{
    if fuel == 0 {
        OutcomeV::Running
    } else if b < 0 || b >= blocks.len() || blocks[b].instrs.len() == 0 {
        OutcomeV::Stuck
    } else {
        let instrs = blocks[b].instrs;
        let t = run(m, own, entered(m, s, instrs, from), instrs);
        match instrs.last() {
            InstV::Ret { value: None } => OutcomeV::Returned(t.world, None),
            InstV::Ret { value: Some(v) } => OutcomeV::Returned(t.world, Some(value(m, t, v))),
            InstV::Jump { target } => outcome_at(m, own, blocks, target, b as usize, t, fuel),
            InstV::Br { cond, then_bb, else_bb } => outcome_at(
                m,
                own,
                blocks,
                if value(m, t, cond) != 0 {
                    then_bb
                } else {
                    else_bb
                },
                b as usize,
                t,
                fuel,
            ),
            _ => OutcomeV::Stuck,
        }
    }
}

/// What becomes of a function that goes to a label.
pub open spec fn outcome_at<W>(
    m: MachineV<W>,
    own: Set<usize>,
    blocks: Seq<BlockV>,
    label: usize,
    from: usize,
    s: StateV<W>,
    fuel: nat,
) -> OutcomeV<W>
    decreases fuel, 0int,
{
    if fuel == 0 {
        OutcomeV::Running
    } else {
        match cfg::label_position(blocks, label) {
            Some(b) => outcome(m, own, blocks, b as int, from, s, (fuel - 1) as nat),
            None => OutcomeV::Stuck,
        }
    }
}

} // verus!

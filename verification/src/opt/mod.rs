//! Optimization passes and the manager that runs them.

pub mod const_fold;
pub mod dce;
pub mod gvn;
pub mod inline;

use crate::ir::{FuncV, InstV, IrFunc, IrInst, IrOperand, IrProgram, ProgV};
use const_fold::ConstFold;
use dce::DeadCodeElim;
use gvn::GVN;
use std::collections::HashMap;
use vstd::prelude::*;

verus! {

broadcast use vstd::std_specs::hash::group_hash_axioms;

/// A pass that works on a single function.
pub trait IrFuncPass {
    /// The function that the pass turns a function into.
    spec fn applied(&self, f: FuncV) -> FuncV;

    /// Whether the pass reports a change.
    spec fn changes(&self, f: FuncV) -> bool;

    /// What the pass is called.
    spec fn title(&self) -> Seq<char>;

    fn name(&self) -> (r: &str)
        ensures
            r@ == self.title(),
    ;

    /// Runs the pass; `true` where it changed the function.
    fn run(&self, func: &mut IrFunc) -> (r: bool)
        ensures
            final(func)@ == self.applied(old(func)@),
            r == self.changes(old(func)@),
    ;
}

/// A pass that works on the whole program.
pub trait IrProgramPass {
    /// The program that the pass turns a program into.
    spec fn applied(&self, p: ProgV) -> ProgV;

    /// Whether the pass reports a change.
    spec fn changes(&self, p: ProgV) -> bool;

    /// What the pass is called.
    spec fn title(&self) -> Seq<char>;

    fn name(&self) -> (r: &str)
        ensures
            r@ == self.title(),
    ;

    /// Runs the pass; `true` where it changed the program.
    fn run(&self, program: &mut IrProgram) -> (r: bool)
        ensures
            final(program)@ == self.applied(old(program)@),
            r == self.changes(old(program)@),
    ;
}

// ── The manager ──────────────────────────────────────────────────────────────

/// The program and change flag after the program passes from the `k`th on.
pub open spec fn program_round<P: IrProgramPass>(ps: Seq<P>, k: int, s: (ProgV, bool)) -> (
    ProgV,
    bool,
)
    decreases ps.len() - k,
{
    if k < 0 || k >= ps.len() {
        s
    } else {
        program_round(ps, k + 1, (ps[k].applied(s.0), s.1 || ps[k].changes(s.0)))
    }
}

/// The function and change flag after the function passes from the `k`th on.
pub open spec fn func_round<F: IrFuncPass>(ps: Seq<F>, k: int, s: (FuncV, bool)) -> (FuncV, bool)
    decreases ps.len() - k,
{
    if k < 0 || k >= ps.len() {
        s
    } else {
        func_round(ps, k + 1, (ps[k].applied(s.0), s.1 || ps[k].changes(s.0)))
    }
}

/// The functions and change flag after the function passes on each function from the `i`th on.
pub open spec fn funcs_round<F: IrFuncPass>(ps: Seq<F>, i: int, s: (Seq<FuncV>, bool)) -> (
    Seq<FuncV>,
    bool,
)
    decreases s.0.len() - i,
{
    if i < 0 || i >= s.0.len() {
        s
    } else {
        let r = func_round(ps, 0, (s.0[i], s.1));
        funcs_round(ps, i + 1, (s.0.update(i, r.0), r.1))
    }
}

/// One round of all passes: program passes first.
pub open spec fn round<F: IrFuncPass, P: IrProgramPass>(fs: Seq<F>, ps: Seq<P>, p: ProgV) -> (
    ProgV,
    bool,
) {
    let a = program_round(ps, 0, (p, false));
    let b = funcs_round(fs, 0, (a.0.funcs, a.1));
    (ProgV { funcs: b.0, ..a.0 }, b.1)
}

/// Rounds until one changes nothing, at most `n`.
pub open spec fn rounds<F: IrFuncPass, P: IrProgramPass>(
    fs: Seq<F>,
    ps: Seq<P>,
    p: ProgV,
    n: nat,
) -> ProgV
    decreases n,
{
    if n == 0 {
        p
    } else {
        let r = round(fs, ps, p);
        if r.1 {
            rounds(fs, ps, r.0, (n - 1) as nat)
        } else {
            r.0
        }
    }
}

/// The most rounds that the manager runs.
pub const MAX_ROUNDS: u32 = 10;

/// A sequence of passes that is run to a fixed point.
pub struct PassManager<F, P> {
    func_passes: Vec<F>,
    program_passes: Vec<P>,
}

impl<F: IrFuncPass, P: IrProgramPass> PassManager<F, P> {
    pub closed spec fn func_seq(self) -> Seq<F> {
        self.func_passes@
    }

    pub closed spec fn program_seq(self) -> Seq<P> {
        self.program_passes@
    }

    pub fn new() -> (r: Self)
        ensures
            r.func_seq() == Seq::<F>::empty(),
            r.program_seq() == Seq::<P>::empty(),
    {
        PassManager { func_passes: Vec::new(), program_passes: Vec::new() }
    }

    pub fn add_func_pass(&mut self, pass: F)
        ensures
            final(self).func_seq() == old(self).func_seq().push(pass),
            final(self).program_seq() == old(self).program_seq(),
    {
        self.func_passes.push(pass);
    }

    pub fn add_program_pass(&mut self, pass: P)
        ensures
            final(self).func_seq() == old(self).func_seq(),
            final(self).program_seq() == old(self).program_seq().push(pass),
    {
        self.program_passes.push(pass);
    }

    /// Runs all passes until nothing changes; program passes come before function passes.
    pub fn run(&self, program: &mut IrProgram)
        ensures
            final(program)@ == rounds(
                self.func_seq(),
                self.program_seq(),
                old(program)@,
                MAX_ROUNDS as nat,
            ),
    {
        let mut iteration: u32 = 0;
        let mut changed = true;
        let ghost goal = rounds(
            self.func_seq(),
            self.program_seq(),
            program@,
            MAX_ROUNDS as nat,
        );
        while changed && iteration < MAX_ROUNDS
            invariant
                iteration <= MAX_ROUNDS,
                goal == if changed {
                    rounds(
                        self.func_seq(),
                        self.program_seq(),
                        program@,
                        (MAX_ROUNDS - iteration) as nat,
                    )
                } else {
                    program@
                },
            decreases MAX_ROUNDS - iteration,
        {
            changed = self.run_round(program);
            iteration = iteration + 1;
        }
    }

    /// Runs every pass once.
    #[verifier::loop_isolation(false)]
    fn run_round(&self, program: &mut IrProgram) -> (r: bool)
        ensures
            (final(program)@, r) == round(self.func_seq(), self.program_seq(), old(program)@),
    {
        let mut changed = false;
        let mut k: usize = 0;
        let ghost start = program@;
        while k < self.program_passes.len()
            invariant
                k <= self.program_passes.len(),
                program_round(self.program_seq(), 0, (start, false)) == program_round(
                    self.program_seq(),
                    k as int,
                    (program@, changed),
                ),
            decreases self.program_passes.len() - k,
        {
            if self.program_passes[k].run(program) {
                changed = true;
            }
            k = k + 1;
        }
        let ghost mid = program@;
        let ghost flag = changed;
        let mut i: usize = 0;
        while i < program.funcs.len()
            invariant
                i <= program.funcs@.len(),
                program@ == (ProgV { funcs: program@.funcs, ..mid }),
                funcs_round(self.func_seq(), 0, (mid.funcs, flag)) == funcs_round(
                    self.func_seq(),
                    i as int,
                    (program@.funcs, changed),
                ),
            decreases program.funcs@.len() - i,
        {
            let ghost before = program@;
            let ghost funcs = program.funcs@;
            if self.run_func_passes(&mut program.funcs[i], changed) {
                changed = true;
            } else {
                changed = false;
            }
            assert(program@.funcs =~= before.funcs.update(i as int, program.funcs@[i as int]@));
            i = i + 1;
        }
        changed
    }

    /// Runs the function passes on a function.
    #[verifier::loop_isolation(false)]
    fn run_func_passes(&self, func: &mut IrFunc, before: bool) -> (r: bool)
        ensures
            (final(func)@, r) == func_round(self.func_seq(), 0, (old(func)@, before)),
    {
        let mut changed = before;
        let mut k: usize = 0;
        let ghost start = func@;
        while k < self.func_passes.len()
            invariant
                k <= self.func_passes.len(),
                func_round(self.func_seq(), 0, (start, before)) == func_round(
                    self.func_seq(),
                    k as int,
                    (func@, changed),
                ),
            decreases self.func_passes.len() - k,
        {
            if self.func_passes[k].run(func) {
                changed = true;
            }
            k = k + 1;
        }
        changed
    }
}

/// One of the function passes of this crate.
pub enum StandardPass {
    ConstFold,
    DeadCodeElim,
    Gvn,
}

impl IrFuncPass for StandardPass {
    open spec fn applied(&self, f: FuncV) -> FuncV {
        match *self {
            StandardPass::ConstFold => ConstFold.applied(f),
            StandardPass::DeadCodeElim => DeadCodeElim.applied(f),
            StandardPass::Gvn => GVN.applied(f),
        }
    }

    open spec fn changes(&self, f: FuncV) -> bool {
        match *self {
            StandardPass::ConstFold => ConstFold.changes(f),
            StandardPass::DeadCodeElim => DeadCodeElim.changes(f),
            StandardPass::Gvn => GVN.changes(f),
        }
    }

    open spec fn title(&self) -> Seq<char> {
        match *self {
            StandardPass::ConstFold => ConstFold.title(),
            StandardPass::DeadCodeElim => DeadCodeElim.title(),
            StandardPass::Gvn => GVN.title(),
        }
    }

    fn name(&self) -> (r: &str) {
        match self {
            StandardPass::ConstFold => ConstFold.name(),
            StandardPass::DeadCodeElim => DeadCodeElim.name(),
            StandardPass::Gvn => GVN.name(),
        }
    }

    fn run(&self, func: &mut IrFunc) -> (r: bool) {
        match self {
            StandardPass::ConstFold => ConstFold.run(func),
            StandardPass::DeadCodeElim => DeadCodeElim.run(func),
            StandardPass::Gvn => GVN.run(func),
        }
    }
}

impl<F: IrFuncPass, P: IrProgramPass> Default for PassManager<F, P> {
    fn default() -> (r: Self)
        ensures
            r.func_seq() == Seq::<F>::empty(),
            r.program_seq() == Seq::<P>::empty(),
    {
        PassManager::new()
    }
}

/// What the manager ends in is what some number of rounds gives, of which all but the last
/// changed something; and where that number is below the limit, the last changed nothing.
pub proof fn rounds_stop<F: IrFuncPass, P: IrProgramPass>(
    fs: Seq<F>,
    ps: Seq<P>,
    p: ProgV,
    n: nat,
) -> (k: nat)
    ensures
        k <= n,
        rounds(fs, ps, p, n) == nth_round(fs, ps, p, k),
        k < n ==> k > 0 && !round(fs, ps, nth_round(fs, ps, p, (k - 1) as nat)).1,
        forall|i: nat| i + 1 < k ==> (#[trigger] round(fs, ps, nth_round(fs, ps, p, i))).1,
    decreases n,
{
    if n == 0 {
        0
    } else {
        let r = round(fs, ps, p);
        if r.1 {
            let k = rounds_stop(fs, ps, r.0, (n - 1) as nat);
            nth_round_shift(fs, ps, p, k);
            if k > 0 {
                nth_round_shift(fs, ps, p, (k - 1) as nat);
            }
            assert forall|i: nat| i + 1 < k + 1 implies (#[trigger] round(
                fs,
                ps,
                nth_round(fs, ps, p, i),
            )).1 by {
                if i > 0 {
                    nth_round_shift(fs, ps, p, (i - 1) as nat);
                    assert(round(fs, ps, nth_round(fs, ps, r.0, (i - 1) as nat)).1);
                }
            }
            (k + 1) as nat
        } else {
            assert(nth_round(fs, ps, p, 1) == r.0) by {
                reveal_with_fuel(nth_round, 2);
            }
            1
        }
    }
}

/// The program after `k` rounds.
pub open spec fn nth_round<F: IrFuncPass, P: IrProgramPass>(
    fs: Seq<F>,
    ps: Seq<P>,
    p: ProgV,
    k: nat,
) -> ProgV
    decreases k,
{
    if k == 0 {
        p
    } else {
        round(fs, ps, nth_round(fs, ps, p, (k - 1) as nat)).0
    }
}

proof fn nth_round_shift<F: IrFuncPass, P: IrProgramPass>(
    fs: Seq<F>,
    ps: Seq<P>,
    p: ProgV,
    k: nat,
)
    ensures
        nth_round(fs, ps, p, k + 1) == nth_round(fs, ps, round(fs, ps, p).0, k),
    decreases k,
{
    if k > 0 {
        nth_round_shift(fs, ps, p, (k - 1) as nat);
    } else {
        reveal_with_fuel(nth_round, 2);
    }
}

// ── Substitution ─────────────────────────────────────────────────────────────

/// An operand with a replaced SSA value.
pub open spec fn replaced(op: IrOperand, m: Map<usize, IrOperand>) -> IrOperand {
    match op {
        IrOperand::Local(i) => if m.contains_key(i) {
            m[i]
        } else {
            op
        },
        _ => op,
    }
}

/// Operands with replaced SSA values.
pub open spec fn replaced_all(ops: Seq<IrOperand>, m: Map<usize, IrOperand>) -> Seq<IrOperand> {
    ops.map_values(|o: IrOperand| replaced(o, m))
}

/// An instruction with replaced SSA values; phis are left as they are.
pub open spec fn substituted(i: InstV, m: Map<usize, IrOperand>) -> InstV {
    match i {
        InstV::Load { dest, src } => InstV::Load { dest, src: replaced(src, m) },
        InstV::Store { value, ptr } => InstV::Store {
            value: replaced(value, m),
            ptr: replaced(ptr, m),
        },
        InstV::Arith { dest, op, lhs, rhs } => InstV::Arith {
            dest,
            op,
            lhs: replaced(lhs, m),
            rhs: replaced(rhs, m),
        },
        InstV::Icmp { dest, op, lhs, rhs } => InstV::Icmp {
            dest,
            op,
            lhs: replaced(lhs, m),
            rhs: replaced(rhs, m),
        },
        InstV::GetPtr { dest, ptr, index, elem_size } => InstV::GetPtr {
            dest,
            ptr: replaced(ptr, m),
            index: replaced(index, m),
            elem_size,
        },
        InstV::GetElemPtr { dest, ptr, index, elem_size } => InstV::GetElemPtr {
            dest,
            ptr: replaced(ptr, m),
            index: replaced(index, m),
            elem_size,
        },
        InstV::Call { dest, func, args } => InstV::Call { dest, func, args: replaced_all(args, m) },
        InstV::Br { cond, then_bb, else_bb } => InstV::Br {
            cond: replaced(cond, m),
            then_bb,
            else_bb,
        },
        InstV::Ret { value: Some(v) } => InstV::Ret { value: Some(replaced(v, m)) },
        _ => i,
    }
}

/// An operand with a replaced SSA value.
pub(crate) fn replace(op: IrOperand, m: &HashMap<usize, IrOperand>) -> (r: IrOperand)
    ensures
        r == replaced(op, m@),
{
    match op {
        IrOperand::Local(i) => match m.get(&i) {
            Some(new) => *new,
            None => op,
        },
        _ => op,
    }
}

fn replace_list(args: &Vec<IrOperand>, m: &HashMap<usize, IrOperand>) -> (r: Vec<IrOperand>)
    ensures
        r@ == replaced_all(args@, m@),
{
    let mut out: Vec<IrOperand> = Vec::new();
    let mut i: usize = 0;
    while i < args.len()
        invariant
            i <= args.len(),
            out@ =~= replaced_all(args@.take(i as int), m@),
        decreases args.len() - i,
    {
        out.push(replace(args[i], m));
        i = i + 1;
        assert(args@.take(i as int) =~= args@.take(i - 1).push(args@[i - 1]));
    }
    assert(args@.take(i as int) =~= args@);
    out
}

/// An instruction with replaced SSA values.
pub(crate) fn substitute(inst: &IrInst, m: &HashMap<usize, IrOperand>) -> (r: IrInst)
    ensures
        r@ == substituted(inst@, m@),
{
    match inst {
        IrInst::Load { dest, src } => IrInst::Load { dest: *dest, src: replace(*src, m) },
        IrInst::Store { value, ptr } => IrInst::Store {
            value: replace(*value, m),
            ptr: replace(*ptr, m),
        },
        IrInst::Arith { dest, op, lhs, rhs } => IrInst::Arith {
            dest: *dest,
            op: *op,
            lhs: replace(*lhs, m),
            rhs: replace(*rhs, m),
        },
        IrInst::Icmp { dest, op, lhs, rhs } => IrInst::Icmp {
            dest: *dest,
            op: *op,
            lhs: replace(*lhs, m),
            rhs: replace(*rhs, m),
        },
        IrInst::GetPtr { dest, ptr, index, elem_size } => IrInst::GetPtr {
            dest: *dest,
            ptr: replace(*ptr, m),
            index: replace(*index, m),
            elem_size: *elem_size,
        },
        IrInst::GetElemPtr { dest, ptr, index, elem_size } => IrInst::GetElemPtr {
            dest: *dest,
            ptr: replace(*ptr, m),
            index: replace(*index, m),
            elem_size: *elem_size,
        },
        IrInst::Call { dest, func, args } => IrInst::Call {
            dest: *dest,
            func: *func,
            args: replace_list(args, m),
        },
        IrInst::Br { cond, then_bb, else_bb } => IrInst::Br {
            cond: replace(*cond, m),
            then_bb: *then_bb,
            else_bb: *else_bb,
        },
        IrInst::Ret { value: Some(v) } => IrInst::Ret { value: Some(replace(*v, m)) },
        _ => inst.clone(),
    }
}

} // verus!

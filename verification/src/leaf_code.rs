//! Functions without a frame: those of a single block that call nothing and need few registers.
//! Their values stay in registers.

use crate::frame::REG_ARGS;
use crate::ir::{
    self, BlockV, FuncV, InstV, IrArithOp, IrBlock, IrCmpOp, IrFunc, IrInst, IrOperand, IrProgram,
    IrType, ProgV,
};
use crate::ir_to_riscv::{self, emit_arg_reg, label_at};
use crate::numbering_meaning;
use crate::reg_alloc::{self, RegTracker, TrackerV};
use crate::text::{self, cat2, cat3, cat4, cat5, cat6, cat8};
use vstd::prelude::*;

verus! {

broadcast use {crate::text::texts_push, crate::ir::insts_push};

/// How many registers the pool has.
pub const POOL: usize = 3;

// ── Which functions ──────────────────────────────────────────────────────────

/// The position of a parameter.
pub open spec fn param_at(params: Seq<(usize, IrType)>, g: usize) -> Option<usize>
    decreases params.len(),
{
    if params.len() == 0 {
        None
    } else {
        match param_at(params.drop_last(), g) {
            Some(k) => Some(k),
            None => if params.last().0 == g {
                Some((params.len() - 1) as usize)
            } else {
                None
            },
        }
    }
}

/// Whether an instruction works on registers alone.
pub open spec fn is_simple(params: Seq<(usize, IrType)>, i: InstV) -> bool {
    match i {
        InstV::Arith { lhs, .. } => reg_alloc::copies_param(i) ==> param_at(
            params,
            lhs->Global_0,
        ) is Some,
        InstV::Load { .. } => true,
        InstV::Store { .. } => true,
        InstV::Icmp { .. } => true,
        InstV::GetPtr { .. } => true,
        InstV::GetElemPtr { .. } => true,
        InstV::Ret { .. } => true,
        _ => false,
    }
}

/// Whether all instructions of a list work on registers alone.
pub open spec fn are_simple(params: Seq<(usize, IrType)>, instrs: Seq<InstV>) -> bool {
    forall|i: int| 0 <= i < instrs.len() ==> is_simple(params, #[trigger] instrs[i])
}

/// Whether a function needs no frame: it is a single block, calls nothing, keeps nothing in memory
/// of its own, gets its parameters in registers, and no more values are alive at once than the pool
/// has registers.
pub open spec fn no_frame(f: FuncV) -> bool {
    &&& f.blocks.len() == 1
    &&& f.params.len() <= REG_ARGS
    &&& are_simple(f.params, f.blocks[0].instrs)
    &&& reg_alloc::max_pressure(
        f.blocks[0].instrs,
        f.blocks[0].instrs.len() as int + 1,
    ) <= POOL
}

// ── Registers ────────────────────────────────────────────────────────────────

/// The registers before the first instruction of a block.
pub open spec fn at_start(instrs: Seq<InstV>) -> TrackerV {
    TrackerV {
        locals: Map::empty(),
        regs: Map::empty(),
        pool: reg_alloc::pool_regs(),
        last_use: reg_alloc::last_uses(instrs, instrs.len() as int),
        first_def: reg_alloc::first_defs(instrs, instrs.len() as int),
        pos: 0,
        max_pool_pressure: reg_alloc::max_pressure(instrs, instrs.len() as int + 1),
    }
}

/// The registers at a position, without the values whose last use has passed.
pub open spec fn advanced(t: TrackerV, p: usize) -> TrackerV {
    reg_alloc::without(TrackerV { pos: p, ..t }, |l: usize| reg_alloc::is_dead(t, p, l))
}

/// The register for a new value: the first of the pool that is free.
pub open spec fn target(t: TrackerV) -> Seq<char> {
    match reg_alloc::free_reg(t, 0) {
        Some(r) => r,
        None => "t6"@,
    }
}

/// The register of the parameter that an instruction copies.
pub open spec fn copied_reg(params: Seq<(usize, IrType)>, i: InstV) -> Seq<char> {
    match param_at(params, i->Arith_lhs->Global_0) {
        Some(k) => reg_of(k),
        None => Seq::empty(),
    }
}

/// The register of the parameter at a position.
pub open spec fn reg_of(k: usize) -> Seq<char> {
    ir_to_riscv::arg_reg(k as nat)
}

/// The registers after an instruction. The copy of a parameter stays in its register.
pub open spec fn after(params: Seq<(usize, IrType)>, t: TrackerV, i: InstV) -> TrackerV {
    match ir::inst_dest(i) {
        Some(d) => if reg_alloc::copies_param(i) {
            reg_alloc::noted(t, d, copied_reg(params, i))
        } else {
            reg_alloc::put(t, d, target(t))
        },
        None => t,
    }
}

/// The registers after the first `n` instructions.
pub open spec fn regs_after(params: Seq<(usize, IrType)>, instrs: Seq<InstV>, n: int) -> TrackerV
    decreases n,
{
    if n <= 0 {
        at_start(instrs)
    } else {
        after(
            params,
            advanced(regs_after(params, instrs, n - 1), (n - 1) as usize),
            instrs[n - 1],
        )
    }
}

// ── Code ─────────────────────────────────────────────────────────────────────

/// Puts a named variable in a register: a parameter is in one, of any other it is the address. The
/// instructions, and the register.
pub open spec fn name_in(p: ProgV, params: Seq<(usize, IrType)>, g: usize, pref: Seq<char>) -> (
    Seq<char>,
    Seq<char>,
) {
    match param_at(params, g) {
        Some(k) => (Seq::empty(), reg_of(k)),
        None => if g < p.global_names.len() {
            (
                "  la "@ + pref + ", "@ + ir_to_riscv::bare(p.global_names[g as int]) + "\n"@,
                pref,
            )
        } else {
            (ir_to_riscv::li(pref, 0), pref)
        },
    }
}

/// Puts an operand in a register, `pref` unless it is in one. The instructions, and the register.
pub open spec fn op_in(
    p: ProgV,
    params: Seq<(usize, IrType)>,
    t: TrackerV,
    op: IrOperand,
    pref: Seq<char>,
) -> (Seq<char>, Seq<char>) {
    match op {
        IrOperand::Int(n) => (ir_to_riscv::li(pref, n as int), pref),
        IrOperand::Local(l) => if t.locals.contains_key(l) {
            (Seq::empty(), t.locals[l].0)
        } else {
            (ir_to_riscv::li(pref, 0), pref)
        },
        IrOperand::Global(g) => name_in(p, params, g, pref),
        IrOperand::Undef => (ir_to_riscv::li(pref, 0), pref),
    }
}

/// `op rd, l, r`
pub open spec fn three(op: Seq<char>, rd: Seq<char>, l: Seq<char>, r: Seq<char>) -> Seq<char> {
    "  "@ + op + " "@ + rd + ", "@ + l + ", "@ + (r + "\n"@)
}

/// Compares two registers.
pub open spec fn compare(op: IrCmpOp, rd: Seq<char>, l: Seq<char>, r: Seq<char>) -> Seq<char> {
    match op {
        IrCmpOp::Lt => three("slt"@, rd, l, r),
        IrCmpOp::Gt => three("slt"@, rd, r, l),
        IrCmpOp::Le => three("slt"@, rd, r, l) + three("xori"@, rd, rd, "1"@),
        IrCmpOp::Ge => three("slt"@, rd, l, r) + three("xori"@, rd, rd, "1"@),
        IrCmpOp::Eq => three("sub"@, rd, l, r) + three("sltiu"@, rd, rd, "1"@),
        IrCmpOp::Ne => three("sub"@, rd, l, r) + three("sltu"@, rd, "zero"@, rd),
    }
}

/// Computes the address of an element.
pub open spec fn elem_code(
    p: ProgV,
    params: Seq<(usize, IrType)>,
    t: TrackerV,
    ptr: IrOperand,
    index: IrOperand,
    elem_size: i32,
) -> Seq<char> {
    let b = op_in(p, params, t, ptr, "t4"@);
    let i = op_in(p, params, t, index, "t5"@);
    b.0 + i.0 + ir_to_riscv::offset_mul(elem_size, "t5"@, i.1) + three(
        "add"@,
        target(t),
        b.1,
        if elem_size == 0 || elem_size == 1 {
            i.1
        } else {
            "t5"@
        },
    )
}

/// Returns a value.
pub open spec fn ret_code(
    p: ProgV,
    params: Seq<(usize, IrType)>,
    t: TrackerV,
    value: Option<IrOperand>,
) -> Seq<char> {
    match value {
        Some(v) => {
            let r = op_in(p, params, t, v, "a0"@);
            r.0 + ir_to_riscv::to_a0(r.1) + "  ret\n"@
        },
        None => "  ret\n"@,
    }
}

/// The code of an instruction.
pub open spec fn inst_code(
    p: ProgV,
    params: Seq<(usize, IrType)>,
    t: TrackerV,
    i: InstV,
) -> Seq<char> {
    match i {
        InstV::Load { src, .. } => {
            let a = op_in(p, params, t, src, "t3"@);
            a.0 + ("  lw "@ + target(t) + ", 0("@ + a.1 + ")\n"@)
        },
        InstV::Store { value, ptr } => {
            let v = op_in(p, params, t, value, "t3"@);
            let a = op_in(p, params, t, ptr, "t4"@);
            v.0 + a.0 + ("  sw "@ + v.1 + ", 0("@ + a.1 + ")\n"@)
        },
        InstV::Arith { op, lhs, rhs, .. } => if reg_alloc::copies_param(i) {
            Seq::empty()
        } else {
            let l = op_in(p, params, t, lhs, "t3"@);
            let r = op_in(p, params, t, rhs, "t4"@);
            l.0 + r.0 + three(ir_to_riscv::arith_name(op), target(t), l.1, r.1)
        },
        InstV::Icmp { op, lhs, rhs, .. } => {
            let l = op_in(p, params, t, lhs, "t3"@);
            let r = op_in(p, params, t, rhs, "t4"@);
            l.0 + r.0 + compare(op, target(t), l.1, r.1)
        },
        InstV::GetPtr { ptr, index, elem_size, .. } => elem_code(
            p,
            params,
            t,
            ptr,
            index,
            elem_size,
        ),
        InstV::GetElemPtr { ptr, index, elem_size, .. } => elem_code(
            p,
            params,
            t,
            ptr,
            index,
            elem_size,
        ),
        InstV::Ret { value } => ret_code(p, params, t, value),
        _ => Seq::empty(),
    }
}

/// The code of the first `n` instructions.
pub open spec fn insts_code(
    p: ProgV,
    params: Seq<(usize, IrType)>,
    instrs: Seq<InstV>,
    n: int,
) -> Seq<char>
    decreases n,
{
    if n <= 0 {
        Seq::empty()
    } else {
        insts_code(p, params, instrs, n - 1) + inst_code(
            p,
            params,
            advanced(regs_after(params, instrs, n - 1), (n - 1) as usize),
            instrs[n - 1],
        )
    }
}

/// The way out of a function that does not end with a return.
pub open spec fn epilogue(f: FuncV) -> Seq<char> {
    if ir_to_riscv::ends_with_ret(f.blocks) {
        Seq::empty()
    } else if f.ret_type is Void {
        "  ret\n"@
    } else {
        "  li a0, 0\n  ret\n"@
    }
}

/// A function without a frame, with the number of blocks before it.
pub open spec fn func_code(p: ProgV, f: FuncV, base: int) -> Seq<char> {
    let name = ir_to_riscv::bare(p.func_names[f.name as int]);
    let instrs = f.blocks[0].instrs;
    ("  .globl "@ + name + "\n"@ + name + ":\n"@) + (label_at(base, 0) + ":\n"@) + insts_code(
        p,
        f.params,
        instrs,
        instrs.len() as int,
    ) + epilogue(f)
}

// ── Writing ──────────────────────────────────────────────────────────────────

/// The position of a parameter.
#[verifier::loop_isolation(false)]
fn find_param(params: &Vec<(usize, IrType)>, g: usize) -> (r: Option<usize>)
    ensures
        r == param_at(params@, g),
{
    let mut i: usize = 0;
    assert(params@.take(0) =~= Seq::empty());
    while i < params.len()
        invariant
            i <= params.len(),
            param_at(params@.take(i as int), g) is None,
        decreases params.len() - i,
    {
        assert(params@.take(i + 1).drop_last() =~= params@.take(i as int));
        if params[i].0 == g {
            proof {
                param_in_prefix(params@, i + 1, g);
            }
            return Some(i);
        }
        i = i + 1;
    }
    assert(params@.take(i as int) =~= params@);
    None
}

proof fn param_in_prefix(params: Seq<(usize, IrType)>, k: int, g: usize)
    requires
        0 <= k <= params.len(),
        param_at(params.take(k), g) is Some,
    ensures
        param_at(params, g) == param_at(params.take(k), g),
    decreases params.len() - k,
{
    if k == params.len() {
        assert(params.take(k) =~= params);
    } else {
        assert(params.take(k + 1).drop_last() =~= params.take(k));
        param_in_prefix(params, k + 1, g);
    }
}

fn inst_is_simple(params: &Vec<(usize, IrType)>, inst: &IrInst) -> (r: bool)
    ensures
        r == is_simple(params@, inst@),
{
    match inst {
        IrInst::Arith { op, lhs, rhs, .. } => {
            if let IrOperand::Global(g) = *lhs {
                if *op == IrArithOp::Add && *rhs == IrOperand::Int(0) {
                    return find_param(params, g).is_some();
                }
            }
            true
        },
        IrInst::Load { .. } => true,
        IrInst::Store { .. } => true,
        IrInst::Icmp { .. } => true,
        IrInst::GetPtr { .. } => true,
        IrInst::GetElemPtr { .. } => true,
        IrInst::Ret { .. } => true,
        _ => false,
    }
}

fn insts_are_simple(params: &Vec<(usize, IrType)>, block: &IrBlock) -> (r: bool)
    ensures
        r == are_simple(params@, block@.instrs),
{
    let ghost all = block@.instrs;
    let mut i: usize = 0;
    while i < block.instrs.len()
        invariant
            i <= block.instrs.len(),
            all == block@.instrs,
            forall|k: int| 0 <= k < i ==> is_simple(params@, #[trigger] all[k]),
        decreases block.instrs.len() - i,
    {
        assert(all[i as int] == block.instrs@[i as int]@);
        if !inst_is_simple(params, &block.instrs[i]) {
            return false;
        }
        i = i + 1;
    }
    true
}

/// Whether a function needs no frame.
pub fn needs_no_frame(func: &IrFunc) -> (r: bool)
    ensures
        r == no_frame(func@),
{
    if func.blocks.len() != 1 || func.params.len() > REG_ARGS {
        return false;
    }
    assert(func@.blocks[0] == func.blocks@[0]@);
    if !insts_are_simple(&func.params, &func.blocks[0]) {
        return false;
    }
    let mut tracker = RegTracker::new();
    tracker.build_intervals(&func.blocks[0]);
    tracker.pressure() <= POOL
}

/// The register of the parameter at a position.
fn emit_reg_of(k: usize) -> (r: String)
    ensures
        r@ == reg_of(k),
{
    emit_arg_reg(k)
}

fn name_to_reg(
    program: &IrProgram,
    params: &Vec<(usize, IrType)>,
    g: usize,
    pref: &str,
) -> (r: (String, String))
    ensures
        (r.0@, r.1@) == name_in(program@, params@, g, pref@),
{
    match find_param(params, g) {
        Some(k) => (String::new(), emit_reg_of(k)),
        None => if g < program.global_names.len() {
            (
                cat5(
                    "  la ",
                    pref,
                    ", ",
                    ir_to_riscv::bare_name(program.global_name(g)).as_str(),
                    "\n",
                ),
                pref.to_owned(),
            )
        } else {
            (ir_to_riscv::emit_li(pref, 0), pref.to_owned())
        },
    }
}

fn op_to_reg(
    program: &IrProgram,
    params: &Vec<(usize, IrType)>,
    tracker: &RegTracker,
    op: IrOperand,
    pref: &str,
) -> (r: (String, String))
    ensures
        (r.0@, r.1@) == op_in(program@, params@, tracker@, op, pref@),
{
    match op {
        IrOperand::Int(n) => (ir_to_riscv::emit_li(pref, n), pref.to_owned()),
        IrOperand::Local(l) => match tracker.get(l) {
            Some(reg) => (String::new(), reg),
            None => (ir_to_riscv::emit_li(pref, 0), pref.to_owned()),
        },
        IrOperand::Global(g) => name_to_reg(program, params, g, pref),
        IrOperand::Undef => (ir_to_riscv::emit_li(pref, 0), pref.to_owned()),
    }
}

fn emit_three(op: &str, rd: &str, l: &str, r: &str) -> (out: String)
    ensures
        out@ == three(op@, rd@, l@, r@),
{
    cat8("  ", op, " ", rd, ", ", l, ", ", cat2(r, "\n").as_str())
}

fn emit_compare(op: IrCmpOp, rd: &str, l: &str, r: &str) -> (out: String)
    ensures
        out@ == compare(op, rd@, l@, r@),
{
    match op {
        IrCmpOp::Lt => emit_three("slt", rd, l, r),
        IrCmpOp::Gt => emit_three("slt", rd, r, l),
        IrCmpOp::Le => cat2(
            emit_three("slt", rd, r, l).as_str(),
            emit_three("xori", rd, rd, "1").as_str(),
        ),
        IrCmpOp::Ge => cat2(
            emit_three("slt", rd, l, r).as_str(),
            emit_three("xori", rd, rd, "1").as_str(),
        ),
        IrCmpOp::Eq => cat2(
            emit_three("sub", rd, l, r).as_str(),
            emit_three("sltiu", rd, rd, "1").as_str(),
        ),
        IrCmpOp::Ne => cat2(
            emit_three("sub", rd, l, r).as_str(),
            emit_three("sltu", rd, "zero", rd).as_str(),
        ),
    }
}

fn pick_target(tracker: &RegTracker) -> (r: String)
    ensures
        r@ == target(tracker@),
{
    match tracker.free_pool_reg() {
        Some(reg) => reg,
        None => "t6".to_owned(),
    }
}

fn emit_elem(
    program: &IrProgram,
    params: &Vec<(usize, IrType)>,
    tracker: &RegTracker,
    ptr: IrOperand,
    index: IrOperand,
    elem_size: i32,
) -> (r: String)
    ensures
        r@ == elem_code(program@, params@, tracker@, ptr, index, elem_size),
{
    let b = op_to_reg(program, params, tracker, ptr, "t4");
    let i = op_to_reg(program, params, tracker, index, "t5");
    let offset = if elem_size == 0 || elem_size == 1 {
        i.1.as_str()
    } else {
        "t5"
    };
    cat4(
        b.0.as_str(),
        i.0.as_str(),
        ir_to_riscv::emit_offset_mul(elem_size, "t5", i.1.as_str()).as_str(),
        emit_three("add", pick_target(tracker).as_str(), b.1.as_str(), offset).as_str(),
    )
}

fn emit_ret(
    program: &IrProgram,
    params: &Vec<(usize, IrType)>,
    tracker: &RegTracker,
    value: Option<IrOperand>,
) -> (out: String)
    ensures
        out@ == ret_code(program@, params@, tracker@, value),
{
    match value {
        Some(v) => {
            let r = op_to_reg(program, params, tracker, v, "a0");
            cat3(r.0.as_str(), ir_to_riscv::emit_to_a0(r.1.as_str()).as_str(), "  ret\n")
        },
        None => "  ret\n".to_owned(),
    }
}

fn emit_inst(
    program: &IrProgram,
    params: &Vec<(usize, IrType)>,
    tracker: &RegTracker,
    inst: &IrInst,
) -> (out: String)
    ensures
        out@ == inst_code(program@, params@, tracker@, inst@),
{
    match inst {
        IrInst::Load { src, .. } => {
            let a = op_to_reg(program, params, tracker, *src, "t3");
            cat2(
                a.0.as_str(),
                cat5("  lw ", pick_target(tracker).as_str(), ", 0(", a.1.as_str(), ")\n").as_str(),
            )
        },
        IrInst::Store { value, ptr } => {
            let v = op_to_reg(program, params, tracker, *value, "t3");
            let a = op_to_reg(program, params, tracker, *ptr, "t4");
            cat3(
                v.0.as_str(),
                a.0.as_str(),
                cat5("  sw ", v.1.as_str(), ", 0(", a.1.as_str(), ")\n").as_str(),
            )
        },
        IrInst::Arith { op, lhs, rhs, .. } => if is_param_copy(inst) {
            String::new()
        } else {
            let l = op_to_reg(program, params, tracker, *lhs, "t3");
            let r = op_to_reg(program, params, tracker, *rhs, "t4");
            cat3(
                l.0.as_str(),
                r.0.as_str(),
                emit_three(
                    ir_to_riscv::emit_arith_name(*op),
                    pick_target(tracker).as_str(),
                    l.1.as_str(),
                    r.1.as_str(),
                ).as_str(),
            )
        },
        IrInst::Icmp { op, lhs, rhs, .. } => {
            let l = op_to_reg(program, params, tracker, *lhs, "t3");
            let r = op_to_reg(program, params, tracker, *rhs, "t4");
            cat3(
                l.0.as_str(),
                r.0.as_str(),
                emit_compare(
                    *op,
                    pick_target(tracker).as_str(),
                    l.1.as_str(),
                    r.1.as_str(),
                ).as_str(),
            )
        },
        IrInst::GetPtr { ptr, index, elem_size, .. } => emit_elem(
            program,
            params,
            tracker,
            *ptr,
            *index,
            *elem_size,
        ),
        IrInst::GetElemPtr { ptr, index, elem_size, .. } => emit_elem(
            program,
            params,
            tracker,
            *ptr,
            *index,
            *elem_size,
        ),
        IrInst::Ret { value } => emit_ret(program, params, tracker, *value),
        _ => String::new(),
    }
}

fn is_param_copy(inst: &IrInst) -> (r: bool)
    ensures
        r == reg_alloc::copies_param(inst@),
{
    match inst {
        IrInst::Arith { op, lhs, rhs, .. } => *op == IrArithOp::Add && *rhs == IrOperand::Int(0)
            && matches!(lhs, IrOperand::Global(_)),
        _ => false,
    }
}

/// The register of the parameter that an instruction copies.
fn find_copied_reg(params: &Vec<(usize, IrType)>, inst: &IrInst) -> (r: String)
    requires
        reg_alloc::copies_param(inst@),
    ensures
        r@ == copied_reg(params@, inst@),
{
    if let IrInst::Arith { lhs, .. } = inst {
        if let IrOperand::Global(g) = *lhs {
            if let Some(k) = find_param(params, g) {
                return emit_reg_of(k);
            }
        }
    }
    String::new()
}

/// Records where the value of an instruction is.
fn record(params: &Vec<(usize, IrType)>, tracker: &mut RegTracker, inst: &IrInst)
    ensures
        final(tracker)@ == after(params@, old(tracker)@, inst@),
{
    if let Some(d) = inst.dest() {
        if is_param_copy(inst) {
            tracker.note(d, find_copied_reg(params, inst));
        } else {
            let reg = pick_target(tracker);
            tracker.set_dirty(d, reg);
        }
    }
}

#[verifier::loop_isolation(false)]
fn emit_insts(program: &IrProgram, params: &Vec<(usize, IrType)>, block: &IrBlock) -> (r: String)
    ensures
        r@ == insts_code(program@, params@, block@.instrs, block@.instrs.len() as int),
{
    let ghost all = block@.instrs;
    let mut tracker = RegTracker::new();
    tracker.build_intervals(block);
    assert(tracker@ =~= at_start(all));
    let mut out = String::new();
    let mut i: usize = 0;
    while i < block.instrs.len()
        invariant
            i <= block.instrs.len(),
            all.len() == block.instrs.len(),
            tracker@ == regs_after(params@, all, i as int),
            out@ == insts_code(program@, params@, all, i as int),
        decreases block.instrs.len() - i,
    {
        assert(all[i as int] == block.instrs@[i as int]@);
        let inst = &block.instrs[i];
        let ghost before = tracker@;
        tracker.advance(i);
        assert(tracker@ == advanced(before, i));
        out.append(emit_inst(program, params, &tracker, inst).as_str());
        record(params, &mut tracker, inst);
        i = i + 1;
    }
    out
}

fn emit_epilogue(func: &IrFunc) -> (r: String)
    ensures
        r@ == epilogue(func@),
{
    if ir_to_riscv::has_ret(&func.blocks) {
        String::new()
    } else if func.ret_type.is_void() {
        "  ret\n".to_owned()
    } else {
        "  li a0, 0\n  ret\n".to_owned()
    }
}

/// Writes a function without a frame.
pub fn emit_leaf(program: &IrProgram, func: &IrFunc, base: usize) -> (r: String)
    requires
        func@.name < program@.func_names.len(),
        func@.blocks.len() == 1,
    ensures
        r@ == func_code(program@, func@, base as int),
{
    assert(func@.blocks[0] == func.blocks@[0]@);
    let name = ir_to_riscv::bare_name(program.func_name(func.name));
    let head = cat5("  .globl ", name.as_str(), "\n", name.as_str(), ":\n");
    let label = cat3(".L", text::dec_usize(base).as_str(), ":\n");
    cat4(
        head.as_str(),
        label.as_str(),
        emit_insts(program, &func.params, &func.blocks[0]).as_str(),
        emit_epilogue(func).as_str(),
    )
}

// ── Enough registers ─────────────────────────────────────────────────────────

/// Whether no two instructions of a list define the same.
pub open spec fn defines_once(instrs: Seq<InstV>) -> bool {
    forall|i: int, j: int|
        0 <= i < instrs.len() && 0 <= j < instrs.len() && ir::inst_dest(
            #[trigger] instrs[i],
        ) is Some && ir::inst_dest(instrs[i]) == ir::inst_dest(#[trigger] instrs[j]) ==> i == j
}

/// Whether the registers hold values of the first `n` instructions, each in the one it is in.
spec fn holds(instrs: Seq<InstV>, n: int, t: TrackerV) -> bool {
    &&& t.pool == reg_alloc::pool_regs()
    &&& t.last_use == reg_alloc::last_uses(instrs, instrs.len() as int)
    &&& forall|r: Seq<char>| #[trigger]
        t.regs.contains_key(r) ==> t.locals.contains_key(t.regs[r]) && t.locals[t.regs[r]].0 == r
            && made_before(instrs, n, t.regs[r])
}

/// Whether one of the first `n` instructions defines a value that needs a register.
spec fn made_before(instrs: Seq<InstV>, n: int, l: usize) -> bool {
    exists|i: int|
        0 <= i < n && ir::inst_dest(#[trigger] instrs[i]) == Some(l) && reg_alloc::needs_register(
            instrs[i],
        )
}

proof fn advanced_holds(instrs: Seq<InstV>, n: int, t: TrackerV, p: usize)
    requires
        holds(instrs, n, t),
    ensures
        holds(instrs, n, advanced(t, p)),
        forall|r: Seq<char>| #[trigger]
            advanced(t, p).regs.contains_key(r) ==> t.last_use.contains_key(
                advanced(t, p).regs[r],
            ) && p <= t.last_use[advanced(t, p).regs[r]],
{
    let u = advanced(t, p);
    assert forall|r: Seq<char>| #[trigger] u.regs.contains_key(r) implies u.locals.contains_key(
        u.regs[r],
    ) && u.locals[u.regs[r]].0 == r && made_before(instrs, n, u.regs[r])
        && t.last_use.contains_key(u.regs[r]) && p <= t.last_use[u.regs[r]] by {
        assert(t.regs.contains_key(r));
        let l = t.regs[r];
        assert(t.locals.contains_key(l));
        assert(!reg_alloc::is_dead(t, p, l));
    }
}

proof fn regs_hold(params: Seq<(usize, IrType)>, instrs: Seq<InstV>, n: int)
    requires
        0 <= n <= instrs.len() <= usize::MAX,
        are_simple(params, instrs),
        defines_once(instrs),
    ensures
        holds(instrs, n, regs_after(params, instrs, n)),
    decreases n,
{
    if n > 0 {
        regs_hold(params, instrs, n - 1);
        let t = regs_after(params, instrs, n - 1);
        advanced_holds(instrs, n - 1, t, (n - 1) as usize);
        let u = advanced(t, (n - 1) as usize);
        let i = instrs[n - 1];
        let v = after(params, u, i);
        assert(is_simple(params, instrs[n - 1]));
        assert forall|r: Seq<char>| #[trigger] v.regs.contains_key(r) implies v.locals.contains_key(
            v.regs[r],
        ) && v.locals[v.regs[r]].0 == r && made_before(instrs, n, v.regs[r]) by {
            if u.regs.contains_key(r) && v.regs[r] == u.regs[r] {
                let l = u.regs[r];
                assert(made_before(instrs, n - 1, l));
                let k = choose|k: int|
                    0 <= k < n - 1 && ir::inst_dest(#[trigger] instrs[k]) == Some(l)
                        && reg_alloc::needs_register(instrs[k]);
                assert(ir::inst_dest(instrs[k]) == Some(l));
                if let Some(d) = ir::inst_dest(instrs[n - 1]) {
                    assert(d != l);
                    if !reg_alloc::copies_param(i) && u.regs.contains_key(target(u)) {
                        assert(u.locals[u.regs[target(u)]].0 == target(u));
                    }
                }
            } else {
                assert(ir::inst_dest(instrs[n - 1]) == Some(v.regs[r]));
            }
        }
    }
}

proof fn last_use_is_use(instrs: Seq<InstV>, n: int, l: usize)
    requires
        0 <= n <= instrs.len() <= usize::MAX,
        reg_alloc::last_uses(instrs, n).contains_key(l),
    ensures
        reg_alloc::last_uses(instrs, n)[l] < n,
        numbering_meaning::uses(instrs[reg_alloc::last_uses(instrs, n)[l] as int], l),
    decreases n,
{
    if n > 0 {
        let before = reg_alloc::last_uses(instrs, n - 1);
        let ops = ir::inst_operands(instrs[n - 1]);
        use_of_some(before, ops, (n - 1) as usize, l);
        if !ops.contains(IrOperand::Local(l)) {
            last_use_is_use(instrs, n - 1, l);
        }
    }
}

proof fn use_of_some(before: Map<usize, usize>, ops: Seq<IrOperand>, at: usize, l: usize)
    ensures
        ops.contains(IrOperand::Local(l)) ==> reg_alloc::uses_of(before, ops, at).contains_key(l)
            && reg_alloc::uses_of(before, ops, at)[l] == at,
        !ops.contains(IrOperand::Local(l)) ==> reg_alloc::uses_of(before, ops, at).contains_key(l)
            == before.contains_key(l) && reg_alloc::uses_of(before, ops, at)[l] == before[l],
    decreases ops.len(),
{
    if ops.len() > 0 {
        let front = ops.drop_last();
        let n = ops.len() - 1;
        use_of_some(before, front, at, l);
        assert(ops[n] == ops.last());
        if front.contains(IrOperand::Local(l)) {
            let k = choose|k: int| 0 <= k < front.len() && front[k] == IrOperand::Local(l);
            assert(ops[k] == IrOperand::Local(l));
        } else if ops.contains(IrOperand::Local(l)) {
            let k = choose|k: int| 0 <= k < ops.len() && ops[k] == IrOperand::Local(l);
            if k < n {
                assert(front[k] == IrOperand::Local(l));
            }
        }
    }
}

proof fn first_def_is_def(instrs: Seq<InstV>, n: int, d: usize)
    requires
        0 <= n <= instrs.len(),
        reg_alloc::first_defs(instrs, n).contains_key(d),
    ensures
        exists|j: int| 0 <= j < n && ir::inst_dest(#[trigger] instrs[j]) == Some(d),
    decreases n,
{
    if n > 0 {
        if reg_alloc::first_defs(instrs, n - 1).contains_key(d) {
            first_def_is_def(instrs, n - 1, d);
        } else {
            assert(ir::inst_dest(instrs[n - 1]) == Some(d));
        }
    }
}

/// No fewer values are alive than there are in a set of such.
proof fn pressure_counts(instrs: Seq<InstV>, at: int, n: int, s: Set<int>)
    requires
        s.finite(),
        forall|i: int| #[trigger]
            s.contains(i) ==> 0 <= i < n && reg_alloc::alive_at(instrs, i, at),
    ensures
        s.len() <= reg_alloc::pressure_at(instrs, at, n),
    decreases n,
{
    if n > 0 {
        let less = s.remove(n - 1);
        pressure_counts(instrs, at, n - 1, less);
    } else {
        assert(s =~= Set::empty());
    }
}

proof fn pressure_is_below_max(instrs: Seq<InstV>, at: int, n: int)
    requires
        0 <= at < n,
    ensures
        reg_alloc::pressure_at(instrs, at, instrs.len() as int) <= reg_alloc::max_pressure(
            instrs,
            n,
        ),
    decreases n,
{
    if at < n - 1 {
        pressure_is_below_max(instrs, at, n - 1);
    }
}

proof fn held_is_alive(instrs: Seq<InstV>, p: int, l: usize) -> (i: int)
    requires
        0 <= p < instrs.len() <= usize::MAX,
        defines_once(instrs),
        made_before(instrs, p, l),
        reg_alloc::last_uses(instrs, instrs.len() as int).contains_key(l),
        p <= reg_alloc::last_uses(instrs, instrs.len() as int)[l],
    ensures
        0 <= i < p,
        ir::inst_dest(instrs[i]) == Some(l),
        reg_alloc::alive_at(instrs, i, p),
{
    let i = choose|i: int|
        0 <= i < p && ir::inst_dest(#[trigger] instrs[i]) == Some(l) && reg_alloc::needs_register(
            instrs[i],
        );
    if reg_alloc::first_defs(instrs, i).contains_key(l) {
        first_def_is_def(instrs, i, l);
    }
    i
}

/// There is a register of the pool for every value of a function without a frame that needs one:
/// no value is defined twice or used before its definition.
pub proof fn registers_suffice(f: FuncV, p: int)
    requires
        no_frame(f),
        f.blocks[0].instrs.len() <= usize::MAX,
        defines_once(f.blocks[0].instrs),
        numbering_meaning::used_after(f.blocks[0].instrs),
        0 <= p < f.blocks[0].instrs.len(),
        reg_alloc::needs_register(f.blocks[0].instrs[p]),
    ensures
        reg_alloc::free_reg(
            advanced(regs_after(f.params, f.blocks[0].instrs, p), p as usize),
            0,
        ) is Some,
{
    let instrs = f.blocks[0].instrs;
    let t = regs_after(f.params, instrs, p);
    let u = advanced(t, p as usize);
    regs_hold(f.params, instrs, p);
    advanced_holds(instrs, p, t, p as usize);
    if reg_alloc::free_reg(u, 0) is None {
        reveal_strlit("t2");
        reveal_strlit("t1");
        reveal_strlit("t0");
        let r2 = u.pool[0];
        let r1 = u.pool[1];
        let r0 = u.pool[2];
        assert("t2"@[1] != "t1"@[1] && "t1"@[1] != "t0"@[1] && "t2"@[1] != "t0"@[1]);
        assert(reg_alloc::free_reg(u, 3) is None);
        reveal_with_fuel(reg_alloc::free_reg, 4);
        assert(u.regs.contains_key(r2) && u.regs.contains_key(r1) && u.regs.contains_key(r0));
        assert(is_simple(f.params, instrs[p]));
        let a = held_is_alive(instrs, p, u.regs[r2]);
        let b = held_is_alive(instrs, p, u.regs[r1]);
        let c = held_is_alive(instrs, p, u.regs[r0]);
        let d = ir::inst_dest(instrs[p])->0;
        assert(reg_alloc::alive_at(instrs, p, p)) by {
            if reg_alloc::first_defs(instrs, p).contains_key(d) {
                first_def_is_def(instrs, p, d);
            }
            let n = instrs.len() as int;
            let uses = reg_alloc::last_uses(instrs, n);
            if uses.contains_key(d) {
                last_use_is_use(instrs, n, d);
                let q = uses[d] as int;
                if q <= p {
                    assert(numbering_meaning::defines(instrs[p], d));
                    assert(!(instrs[q] is Phi)) by {
                        assert(is_simple(f.params, instrs[q]));
                    }
                    assert(!numbering_meaning::uses(instrs[q], d));
                }
            }
        }
        let s = Set::<int>::empty().insert(a).insert(b).insert(c).insert(p);
        assert(s.len() == 4);
        pressure_counts(instrs, p, instrs.len() as int, s);
        pressure_is_below_max(instrs, p, instrs.len() as int + 1);
    }
}

} // verus!

//! Writes a program as RISC-V assembly.

use crate::cfg;
use crate::frame::{self, FrameInfo, FrameV, REG_ARGS};
use crate::ir::{
    self, BlockV, FuncV, GlobalV, InitV, InstV, IrArithOp, IrBlock, IrCmpOp, IrFunc, IrGlobal,
    IrGlobalInit, IrInst, IrOperand, IrProgram, IrType, ProgV,
};
use crate::leaf_code::{self, emit_leaf, needs_no_frame};
use crate::links;
use crate::text::{self, cat2, cat3, cat4, cat5, cat6, cat7, dec_i32, dec_usize, str_eq};
use std::collections::HashMap;
use vstd::prelude::*;

verus! {

broadcast use {
    vstd::std_specs::hash::group_hash_axioms,
    crate::text::texts_push,
    crate::ir::insts_push,
    crate::ir::blocks_push,
};

// ── Instructions with offsets ────────────────────────────────────────────────

/// Whether an offset fits the immediate of an instruction.
pub open spec fn is_short(offset: int) -> bool {
    -2048 <= offset < 2048
}

/// Loads a word at an offset from the stack pointer.
pub open spec fn lw(rd: Seq<char>, offset: i32) -> Seq<char> {
    let off = text::dec_int(offset as int);
    if is_short(offset as int) {
        "  lw "@ + rd + ", "@ + off + "(sp)\n"@
    } else {
        ("  li t0, "@ + off + "\n  add t0, sp, t0\n"@) + ("  lw "@ + rd + ", 0(t0)\n"@)
    }
}

/// The register that a long offset is put in when a register is stored.
pub open spec fn scratch(rs: Seq<char>) -> Seq<char> {
    if rs == "t0"@ {
        "t1"@
    } else {
        "t0"@
    }
}

/// Stores a word at an offset from the stack pointer.
pub open spec fn sw(rs: Seq<char>, offset: i32) -> Seq<char> {
    let off = text::dec_int(offset as int);
    let s = scratch(rs);
    if is_short(offset as int) {
        "  sw "@ + rs + ", "@ + off + "(sp)\n"@
    } else {
        ("  li "@ + s + ", "@ + off + "\n"@) + ("  add "@ + s + ", sp, "@ + s + "\n"@) + ("  sw "@
            + rs + ", 0("@ + s + ")\n"@)
    }
}

/// Moves the stack pointer.
pub open spec fn addi_sp(delta: i32) -> Seq<char> {
    let d = text::dec_int(delta as int);
    if is_short(delta as int) {
        "  addi sp, sp, "@ + d + "\n"@
    } else {
        "  li t0, "@ + d + "\n  add sp, sp, t0\n"@
    }
}

/// Computes an address at an offset from the stack pointer.
pub open spec fn addr(rd: Seq<char>, offset: i32) -> Seq<char> {
    let off = text::dec_int(offset as int);
    if is_short(offset as int) {
        "  addi "@ + rd + ", sp, "@ + off + "\n"@
    } else {
        ("  li "@ + rd + ", "@ + off + "\n"@) + ("  add "@ + rd + ", sp, "@ + rd + "\n"@)
    }
}

/// Multiplies an index by the size of an element.
pub open spec fn offset_mul(elem_size: i32, rd: Seq<char>, idx: Seq<char>) -> Seq<char> {
    if elem_size == 0 || elem_size == 1 {
        Seq::empty()
    } else if elem_size == 4 {
        "  slli "@ + rd + ", "@ + idx + ", 2\n"@
    } else {
        ("  li t3, "@ + text::dec_int(elem_size as int) + "\n"@) + ("  mul "@ + rd + ", "@ + idx
            + ", t3\n"@)
    }
}

// ── Operands ─────────────────────────────────────────────────────────────────

/// A name without the mark of a global one.
pub open spec fn bare(name: Seq<char>) -> Seq<char> {
    if text::starts_with(name, '@') {
        name.skip(1)
    } else {
        name
    }
}

/// The argument register with a number.
pub open spec fn arg_reg(i: nat) -> Seq<char> {
    "a"@ + text::dec_nat(i)
}

/// Puts a constant in a register.
pub open spec fn li(rd: Seq<char>, n: int) -> Seq<char> {
    "  li "@ + rd + ", "@ + text::dec_int(n) + "\n"@
}

/// Puts the value of a named variable in a register: that of a parameter, the address of any
/// other. The instructions, and the register.
pub open spec fn global_in(p: ProgV, fr: FrameV, g: usize, pref: Seq<char>) -> (
    Seq<char>,
    Seq<char>,
) {
    if fr.spills.contains_key(g) {
        (lw(pref, fr.spills[g]), pref)
    } else if fr.regs.contains_key(g) {
        (Seq::empty(), arg_reg(fr.regs[g] as nat))
    } else if fr.stack.contains_key(g) {
        (lw(pref, fr.stack[g]), pref)
    } else if fr.vars.contains_key(g) {
        (addr(pref, fr.vars[g]), pref)
    } else {
        ("  la "@ + pref + ", "@ + bare(p.global_names[g as int]) + "\n"@, pref)
    }
}

/// Puts an operand in a register, `pref` unless it is in one. The instructions, and the register.
pub open spec fn op_in(p: ProgV, fr: FrameV, op: IrOperand, pref: Seq<char>) -> (
    Seq<char>,
    Seq<char>,
) {
    match op {
        IrOperand::Int(n) => (li(pref, n as int), pref),
        IrOperand::Local(l) => (lw(pref, frame::slot(fr, l)), pref),
        IrOperand::Global(g) => global_in(p, fr, g, pref),
        IrOperand::Undef => (li(pref, 0), pref),
    }
}

/// Copies a register to `a0`, where it is another.
pub open spec fn to_a0(r: Seq<char>) -> Seq<char> {
    if r == "a0"@ {
        Seq::empty()
    } else {
        "  mv a0, "@ + r + "\n"@
    }
}

/// An operand can be put in a register.
pub open spec fn op_ready(p: ProgV, fr: FrameV, op: IrOperand) -> bool {
    match op {
        IrOperand::Global(g) => {
            ||| fr.spills.contains_key(g)
            ||| fr.regs.contains_key(g)
            ||| fr.stack.contains_key(g)
            ||| fr.vars.contains_key(g)
            ||| g < p.global_names.len()
        },
        _ => true,
    }
}

// ── Instructions ─────────────────────────────────────────────────────────────

/// The machine instruction of an operator.
pub open spec fn arith_name(op: IrArithOp) -> Seq<char> {
    match op {
        IrArithOp::Add => "add"@,
        IrArithOp::Sub => "sub"@,
        IrArithOp::Mul => "mul"@,
        IrArithOp::Div => "div"@,
        IrArithOp::Mod => "rem"@,
    }
}

/// `op a0, l, r`
pub open spec fn to_a0_from(op: Seq<char>, l: Seq<char>, r: Seq<char>) -> Seq<char> {
    "  "@ + op + " a0, "@ + l + ", "@ + r + "\n"@
}

/// Compares two registers, with the result in `a0`.
pub open spec fn compare(op: IrCmpOp, l: Seq<char>, r: Seq<char>) -> Seq<char> {
    match op {
        IrCmpOp::Lt => to_a0_from("slt"@, l, r),
        IrCmpOp::Gt => to_a0_from("slt"@, r, l),
        IrCmpOp::Le => to_a0_from("slt"@, r, l) + "  xori a0, a0, 1\n"@,
        IrCmpOp::Ge => to_a0_from("slt"@, l, r) + "  xori a0, a0, 1\n"@,
        IrCmpOp::Eq => to_a0_from("sub"@, l, r) + "  sltiu a0, a0, 1\n"@,
        IrCmpOp::Ne => to_a0_from("sub"@, l, r) + "  sltu a0, zero, a0\n"@,
    }
}

/// Loads from an address.
pub open spec fn load_code(p: ProgV, fr: FrameV, dest: usize, src: IrOperand) -> Seq<char> {
    let a = op_in(p, fr, src, "t2"@);
    a.0 + ("  lw t0, 0("@ + a.1 + ")\n"@) + sw("t0"@, frame::slot(fr, dest))
}

/// Stores to an address.
pub open spec fn store_code(p: ProgV, fr: FrameV, value: IrOperand, ptr: IrOperand) -> Seq<char> {
    let v = op_in(p, fr, value, "t1"@);
    let a = op_in(p, fr, ptr, "t2"@);
    v.0 + a.0 + ("  sw "@ + v.1 + ", 0("@ + a.1 + ")\n"@)
}

/// Computes with two operands.
pub open spec fn arith_code(
    p: ProgV,
    fr: FrameV,
    dest: usize,
    op: IrArithOp,
    lhs: IrOperand,
    rhs: IrOperand,
) -> Seq<char> {
    let l = op_in(p, fr, lhs, "t0"@);
    let r = op_in(p, fr, rhs, "t1"@);
    l.0 + r.0 + to_a0_from(arith_name(op), l.1, r.1) + sw("a0"@, frame::slot(fr, dest))
}

/// Compares two operands.
pub open spec fn compare_code(
    p: ProgV,
    fr: FrameV,
    dest: usize,
    op: IrCmpOp,
    lhs: IrOperand,
    rhs: IrOperand,
) -> Seq<char> {
    let l = op_in(p, fr, lhs, "t0"@);
    let r = op_in(p, fr, rhs, "t1"@);
    l.0 + r.0 + compare(op, l.1, r.1) + sw("a0"@, frame::slot(fr, dest))
}

/// Computes the address of an element.
pub open spec fn elem_code(
    p: ProgV,
    fr: FrameV,
    dest: usize,
    ptr: IrOperand,
    index: IrOperand,
    elem_size: i32,
) -> Seq<char> {
    let b = op_in(p, fr, ptr, "t0"@);
    let i = op_in(p, fr, index, "t1"@);
    b.0 + i.0 + offset_mul(elem_size, "t1"@, i.1) + ("  add t0, "@ + b.1 + ", t1\n"@) + sw(
        "t0"@,
        frame::slot(fr, dest),
    )
}

/// Keeps the first `n` arguments of a call in the frame.
pub open spec fn args_kept(p: ProgV, fr: FrameV, args: Seq<IrOperand>, n: int) -> Seq<char>
    decreases n,
{
    if n <= 0 {
        Seq::empty()
    } else {
        let a = op_in(p, fr, args[n - 1], "a0"@);
        args_kept(p, fr, args, n - 1) + (a.0 + to_a0(a.1) + sw(
            "a0"@,
            (fr.args + (n - 1) * 4) as i32,
        ))
    }
}

/// Pushes the last `k` of `n` kept arguments. As the stack pointer moves with each, they are all
/// found at one offset.
pub open spec fn args_pushed(fr: FrameV, n: int, k: int) -> Seq<char>
    decreases k,
{
    if k <= 0 {
        Seq::empty()
    } else {
        args_pushed(fr, n, k - 1) + ("  addi sp, sp, -4\n"@ + lw("t0"@, (fr.args + n * 4) as i32)
            + "  sw t0, 0(sp)\n"@)
    }
}

/// Pops `k` arguments into registers.
pub open spec fn args_popped(k: int) -> Seq<char>
    decreases k,
{
    if k <= 0 {
        Seq::empty()
    } else {
        args_popped(k - 1) + ("  lw "@ + arg_reg((k - 1) as nat) + ", 0(sp)\n  addi sp, sp, 4\n"@)
    }
}

/// The arguments that are left on the stack are dropped.
pub open spec fn args_dropped(n: int) -> Seq<char> {
    if n > REG_ARGS {
        "  addi sp, sp, "@ + text::dec_int((n - REG_ARGS) * 4) + "\n"@
    } else {
        Seq::empty()
    }
}

/// The number of arguments that go to registers.
pub open spec fn in_regs(n: int) -> int {
    if n < REG_ARGS {
        n
    } else {
        REG_ARGS as int
    }
}

/// Keeps the result of a call.
pub open spec fn result_kept(fr: FrameV, dest: Option<usize>) -> Seq<char> {
    match dest {
        Some(d) => sw("a0"@, frame::slot(fr, d)),
        None => Seq::empty(),
    }
}

/// Calls a function.
pub open spec fn call_code(
    p: ProgV,
    fr: FrameV,
    dest: Option<usize>,
    func: usize,
    args: Seq<IrOperand>,
) -> Seq<char> {
    let n = args.len() as int;
    args_kept(p, fr, args, n) + args_pushed(fr, n, n) + args_popped(in_regs(n)) + ("  call "@
        + bare(p.func_names[func as int]) + "\n"@) + args_dropped(n) + result_kept(fr, dest)
}

/// The label of the block at a position.
pub open spec fn label_at(base: int, pos: int) -> Seq<char> {
    ".L"@ + text::dec_nat((base + pos) as nat)
}

/// The label of a block by its index.
pub open spec fn label_text(blocks: Seq<BlockV>, base: int, label: usize) -> Seq<char> {
    match cfg::label_position(blocks, label) {
        Some(pos) => label_at(base, pos as int),
        None => Seq::empty(),
    }
}

/// Branches on a condition.
pub open spec fn br_code(
    p: ProgV,
    fr: FrameV,
    cond: IrOperand,
    yes: Seq<char>,
    no: Seq<char>,
) -> Seq<char> {
    let c = op_in(p, fr, cond, "t0"@);
    c.0 + ("  bnez "@ + c.1 + ", "@ + yes + "\n"@) + ("  j "@ + no + "\n"@)
}

/// Keeps the return address, where the function calls another.
pub open spec fn ra_kept(fr: FrameV) -> Seq<char> {
    if fr.calls {
        sw("ra"@, fr.ra)
    } else {
        Seq::empty()
    }
}

/// Gets the return address back.
pub open spec fn ra_back(fr: FrameV) -> Seq<char> {
    if fr.calls {
        lw("ra"@, fr.ra)
    } else {
        Seq::empty()
    }
}

/// Leaves the function.
pub open spec fn leave(fr: FrameV) -> Seq<char> {
    ra_back(fr) + addi_sp(fr.size) + "  ret\n"@
}

/// Returns from the function.
pub open spec fn ret_code(p: ProgV, fr: FrameV, value: Option<IrOperand>) -> Seq<char> {
    match value {
        Some(v) => {
            let r = op_in(p, fr, v, "a0"@);
            r.0 + to_a0(r.1) + leave(fr)
        },
        None => leave(fr),
    }
}

/// The code of an instruction.
pub open spec fn inst_code(
    p: ProgV,
    fr: FrameV,
    blocks: Seq<BlockV>,
    base: int,
    i: InstV,
) -> Seq<char> {
    match i {
        InstV::Alloc { .. } => Seq::empty(),
        InstV::Load { dest, src } => load_code(p, fr, dest, src),
        InstV::Store { value, ptr } => store_code(p, fr, value, ptr),
        InstV::Arith { dest, op, lhs, rhs } => arith_code(p, fr, dest, op, lhs, rhs),
        InstV::Icmp { dest, op, lhs, rhs } => compare_code(p, fr, dest, op, lhs, rhs),
        InstV::GetPtr { dest, ptr, index, elem_size } => elem_code(
            p,
            fr,
            dest,
            ptr,
            index,
            elem_size,
        ),
        InstV::GetElemPtr { dest, ptr, index, elem_size } => elem_code(
            p,
            fr,
            dest,
            ptr,
            index,
            elem_size,
        ),
        InstV::Call { dest, func, args } => call_code(p, fr, dest, func, args),
        InstV::Br { cond, then_bb, else_bb } => br_code(
            p,
            fr,
            cond,
            label_text(blocks, base, then_bb),
            label_text(blocks, base, else_bb),
        ),
        InstV::Jump { target } => "  j "@ + label_text(blocks, base, target) + "\n"@,
        InstV::Ret { value } => ret_code(p, fr, value),
        InstV::Phi { .. } => "  # phi\n"@,
        InstV::Asm { dest, code } => "  "@ + code + "\n"@ + result_kept(fr, dest),
    }
}

/// The code of a list of instructions.
pub open spec fn insts_code(
    p: ProgV,
    fr: FrameV,
    blocks: Seq<BlockV>,
    base: int,
    instrs: Seq<InstV>,
) -> Seq<char>
    decreases instrs.len(),
{
    if instrs.len() == 0 {
        Seq::empty()
    } else {
        insts_code(p, fr, blocks, base, instrs.drop_last()) + inst_code(
            p,
            fr,
            blocks,
            base,
            instrs.last(),
        )
    }
}

/// Loads the first `n` kept arguments into registers.
pub open spec fn args_loaded(fr: FrameV, n: int) -> Seq<char>
    decreases n,
{
    if n <= 0 {
        Seq::empty()
    } else {
        args_loaded(fr, n - 1) + lw(arg_reg((n - 1) as nat), (fr.args + (n - 1) * 4) as i32)
    }
}

/// Starts a function over with new arguments, in the place of its frame.
pub open spec fn restart_code(
    p: ProgV,
    fr: FrameV,
    name: Seq<char>,
    args: Seq<IrOperand>,
) -> Seq<char> {
    let n = args.len() as int;
    args_kept(p, fr, args, n) + args_loaded(fr, n) + ra_back(fr) + addi_sp(fr.size) + ("  j "@
        + name + "\n"@)
}

/// Whether an instruction is a call, with a result, of the function with a name, whose arguments
/// all go to registers.
pub open spec fn calls(p: ProgV, name: Seq<char>, i: InstV) -> bool {
    match i {
        InstV::Call { dest, func, args } => dest is Some && bare(p.func_names[func as int]) == name
            && args.len() <= REG_ARGS,
        _ => false,
    }
}

/// Whether a block ends by returning what the function with a name gives.
pub open spec fn ends_in_call(p: ProgV, name: Seq<char>, instrs: Seq<InstV>) -> bool {
    let n = instrs.len() as int;
    n >= 2 && calls(p, name, instrs[n - 2]) && instrs[n - 1] == (InstV::Ret {
        value: Some(IrOperand::Local(instrs[n - 2]->Call_dest->0)),
    })
}

/// Whether a function has an array in its frame, which a call may be given the address of.
pub open spec fn has_array(blocks: Seq<BlockV>) -> bool {
    exists|b: int, i: int|
        #![trigger blocks[b].instrs[i]]
        0 <= b < blocks.len() && 0 <= i < blocks[b].instrs.len() && is_array(blocks[b].instrs[i])
}

/// Whether an instruction puts an array in the frame.
pub open spec fn is_array(i: InstV) -> bool {
    match i {
        InstV::Alloc { ty, .. } => ty is Array,
        _ => false,
    }
}

/// The code of a block of the function with a name. Where it returns what the function itself
/// gives and `reuse` is set, the call takes the place of the frame.
pub open spec fn block_code(
    p: ProgV,
    fr: FrameV,
    blocks: Seq<BlockV>,
    base: int,
    name: Seq<char>,
    reuse: bool,
    instrs: Seq<InstV>,
) -> Seq<char> {
    if reuse && ends_in_call(p, name, instrs) {
        let n = instrs.len() as int;
        insts_code(p, fr, blocks, base, instrs.take(n - 2)) + restart_code(
            p,
            fr,
            name,
            instrs[n - 2]->args,
        )
    } else {
        insts_code(p, fr, blocks, base, instrs)
    }
}

/// An instruction can be written: its operands have a place, and what it names is there.
pub open spec fn inst_ready(p: ProgV, fr: FrameV, blocks: Seq<BlockV>, i: InstV) -> bool {
    &&& !(i is Phi) ==> forall|k: int|
        0 <= k < ir::inst_operands(i).len() ==> op_ready(
            p,
            fr,
            #[trigger] ir::inst_operands(i)[k],
        )
    &&& match i {
        InstV::Call { func, .. } => func < p.func_names.len(),
        InstV::Br { then_bb, else_bb, .. } => cfg::label_position(blocks, then_bb) is Some
            && cfg::label_position(blocks, else_bb) is Some,
        InstV::Jump { target } => cfg::label_position(blocks, target) is Some,
        _ => true,
    }
}

// ── Functions and programs ───────────────────────────────────────────────────

/// The first `n` blocks of the function with a name.
pub open spec fn blocks_code(
    p: ProgV,
    fr: FrameV,
    blocks: Seq<BlockV>,
    base: int,
    name: Seq<char>,
    n: int,
) -> Seq<char>
    decreases n,
{
    if n <= 0 {
        Seq::empty()
    } else {
        blocks_code(p, fr, blocks, base, name, n - 1) + (label_text(
            blocks,
            base,
            blocks[n - 1].label,
        ) + ":\n"@ + block_code(
            p,
            fr,
            blocks,
            base,
            name,
            !has_array(blocks),
            blocks[n - 1].instrs,
        ))
    }
}

/// Stores the first `n` parameters that come in registers.
pub open spec fn params_saved(fr: FrameV, params: Seq<(usize, IrType)>, n: int) -> Seq<char>
    decreases n,
{
    if n <= 0 {
        Seq::empty()
    } else {
        let name = params[n - 1].0;
        params_saved(fr, params, n - 1) + if fr.vars.contains_key(name) {
            sw(arg_reg((n - 1) as nat), fr.vars[name])
        } else if fr.spills.contains_key(name) {
            sw(arg_reg((n - 1) as nat), fr.spills[name])
        } else {
            Seq::empty()
        }
    }
}

/// Whether a function ends with a return.
pub open spec fn ends_with_ret(blocks: Seq<BlockV>) -> bool {
    blocks.len() > 0 && blocks.last().instrs.len() > 0 && blocks.last().instrs.last() is Ret
}

/// The way out of a function that does not end with a return.
pub open spec fn epilogue(f: FuncV, fr: FrameV) -> Seq<char> {
    if ends_with_ret(f.blocks) {
        Seq::empty()
    } else if f.ret_type is Void {
        leave(fr)
    } else {
        "  li a0, 0\n"@ + leave(fr)
    }
}

/// The beginning of a function.
pub open spec fn prologue(p: ProgV, f: FuncV, fr: FrameV) -> Seq<char> {
    let name = bare(p.func_names[f.name as int]);
    ("  .globl "@ + name + "\n"@ + name + ":\n"@) + addi_sp((-fr.size) as i32) + ra_kept(fr)
        + params_saved(fr, f.params, frame::reg_params(f))
}

/// A function, with the number of blocks before it.
pub open spec fn func_code(p: ProgV, f: FuncV, base: int) -> Seq<char> {
    if leaf_code::no_frame(f) {
        leaf_code::func_code(p, f, base)
    } else {
        framed_code(p, f, base)
    }
}

/// A function with a frame, with the number of blocks before it.
pub open spec fn framed_code(p: ProgV, f: FuncV, base: int) -> Seq<char> {
    match frame::frame(f) {
        Some(fr) => prologue(p, f, fr) + blocks_code(
            p,
            fr,
            f.blocks,
            base,
            bare(p.func_names[f.name as int]),
            f.blocks.len() as int,
        ) + epilogue(f, fr),
        None => Seq::empty(),
    }
}

/// The number of blocks of the first `n` functions.
pub open spec fn blocks_before(funcs: Seq<FuncV>, n: int) -> int
    decreases n,
{
    if n <= 0 {
        0
    } else {
        blocks_before(funcs, n - 1) + funcs[n - 1].blocks.len()
    }
}

/// The first `n` functions.
pub open spec fn funcs_code(p: ProgV, n: int) -> Seq<char>
    decreases n,
{
    if n <= 0 {
        Seq::empty()
    } else {
        funcs_code(p, n - 1) + func_code(p, p.funcs[n - 1], blocks_before(p.funcs, n - 1))
    }
}

/// The first `n` words of a global variable.
pub open spec fn words(vals: Seq<i32>, n: int) -> Seq<char>
    decreases n,
{
    if n <= 0 {
        Seq::empty()
    } else {
        words(vals, n - 1) + "\n  .word "@ + text::dec_int(vals[n - 1] as int)
    }
}

/// A global variable.
pub open spec fn global_data(p: ProgV, g: GlobalV) -> Seq<char> {
    bare(p.global_names[g.name as int]) + ":"@ + match g.init {
        InitV::Zero => match frame::type_size(g.ty) {
            Some(n) => "\n  .zero "@ + text::dec_nat(n as nat),
            None => Seq::empty(),
        },
        InitV::Values(vals) => words(vals, vals.len() as int),
    } + "\n"@
}

/// The first `n` global variables.
pub open spec fn globals_data(p: ProgV, n: int) -> Seq<char>
    decreases n,
{
    if n <= 0 {
        Seq::empty()
    } else {
        globals_data(p, n - 1) + global_data(p, p.globals[n - 1])
    }
}

/// A program as assembly.
pub open spec fn riscv(p: ProgV) -> Seq<char> {
    let data = globals_data(p, p.globals.len() as int);
    (if data.len() == 0 {
        Seq::empty()
    } else {
        "  .data\n"@ + data
    }) + "  .text\n"@ + funcs_code(p, p.funcs.len() as int)
}

/// A function can be written.
pub open spec fn func_ready(p: ProgV, f: FuncV) -> bool {
    &&& f.name < p.func_names.len()
    &&& frame::frame(f) is Some
    &&& forall|b: int, i: int|
        #![trigger f.blocks[b].instrs[i]]
        0 <= b < f.blocks.len() && 0 <= i < f.blocks[b].instrs.len() ==> inst_ready(
            p,
            frame::frame(f)->0,
            f.blocks,
            f.blocks[b].instrs[i],
        )
}

/// A global variable can be written.
pub open spec fn global_ready(p: ProgV, g: GlobalV) -> bool {
    g.name < p.global_names.len() && (g.init is Zero ==> frame::type_size(g.ty) is Some)
}

/// A program can be written: what it names is there, and its frames fit machine words.
pub open spec fn ready(p: ProgV) -> bool {
    &&& forall|i: int| 0 <= i < p.globals.len() ==> global_ready(p, #[trigger] p.globals[i])
    &&& forall|i: int| 0 <= i < p.funcs.len() ==> func_ready(p, #[trigger] p.funcs[i])
    &&& blocks_before(p.funcs, p.funcs.len() as int) <= usize::MAX
}

/// The frames and the global variables of a program fit machine words.
pub open spec fn fits(p: ProgV) -> bool {
    &&& forall|i: int|
        0 <= i < p.globals.len() && (#[trigger] p.globals[i]).init is Zero ==> frame::type_size(
            p.globals[i].ty,
        ) is Some
    &&& forall|i: int| 0 <= i < p.funcs.len() ==> frame::frame(#[trigger] p.funcs[i]) is Some
    &&& blocks_before(p.funcs, p.funcs.len() as int) <= usize::MAX
}

/// A label that a block has is found.
proof fn label_is_found(blocks: Seq<BlockV>, label: usize)
    requires
        links::has_label(blocks, label),
    ensures
        cfg::label_position(blocks, label) is Some,
    decreases blocks.len(),
{
    let k = choose|k: int| 0 <= k < blocks.len() && (#[trigger] blocks[k]).label == label;
    if blocks.last().label != label {
        assert(blocks.drop_last()[k].label == label);
        label_is_found(blocks.drop_last(), label);
    }
}

/// A program that refers only to what is there can be written just where its frames and global
/// variables fit machine words.
pub proof fn linked_is_ready(p: ProgV)
    requires
        links::linked(p),
    ensures
        ready(p) <==> fits(p),
{
    let n = links::sizes(p);
    if fits(p) {
        assert forall|k: int| 0 <= k < p.funcs.len() implies func_ready(p, #[trigger] p.funcs[k]) by {
            let f = p.funcs[k];
            assert(links::func_linked(n, f));
            assert forall|b: int, i: int|
                #![trigger f.blocks[b].instrs[i]]
                0 <= b < f.blocks.len() && 0 <= i < f.blocks[b].instrs.len() implies inst_ready(
                p,
                frame::frame(f)->0,
                f.blocks,
                f.blocks[b].instrs[i],
            ) by {
                let fr = frame::frame(f)->0;
                let inst = f.blocks[b].instrs[i];
                assert(links::insts_linked(n, f.blocks, f.blocks[b].instrs));
                assert(links::inst_linked(n, f.blocks, inst));
                assert forall|j: int| 0 <= j < ir::inst_operands(inst).len() implies op_ready(
                    p,
                    fr,
                    #[trigger] ir::inst_operands(inst)[j],
                ) by {
                    assert(links::op_fits(n, ir::inst_operands(inst)[j]));
                }
                match inst {
                    InstV::Br { then_bb, else_bb, .. } => {
                        assert(links::goes_to(inst, then_bb));
                        assert(links::goes_to(inst, else_bb));
                        label_is_found(f.blocks, then_bb);
                        label_is_found(f.blocks, else_bb);
                    },
                    InstV::Jump { target } => {
                        assert(links::goes_to(inst, target));
                        label_is_found(f.blocks, target);
                    },
                    _ => {},
                }
            }
        }
    }
    if ready(p) {
        assert forall|i: int| 0 <= i < p.globals.len() && (#[trigger] p.globals[i]).init is Zero
            implies frame::type_size(p.globals[i].ty) is Some by {
            assert(global_ready(p, p.globals[i]));
        }
        assert forall|i: int| 0 <= i < p.funcs.len() implies frame::frame(
            #[trigger] p.funcs[i],
        ) is Some by {
            assert(func_ready(p, p.funcs[i]));
        }
    }
}

// ── Writing instructions with offsets ────────────────────────────────────────

pub(crate) fn short(offset: i32) -> (r: bool)
    ensures
        r == is_short(offset as int),
{
    offset >= -2048 && offset < 2048
}

pub(crate) fn emit_lw(rd: &str, offset: i32) -> (r: String)
    ensures
        r@ == lw(rd@, offset),
{
    let off = dec_i32(offset);
    if short(offset) {
        cat5("  lw ", rd, ", ", off.as_str(), "(sp)\n")
    } else {
        cat2(
            cat3("  li t0, ", off.as_str(), "\n  add t0, sp, t0\n").as_str(),
            cat3("  lw ", rd, ", 0(t0)\n").as_str(),
        )
    }
}

pub(crate) fn emit_sw(rs: &str, offset: i32) -> (r: String)
    ensures
        r@ == sw(rs@, offset),
{
    let off = dec_i32(offset);
    if short(offset) {
        cat5("  sw ", rs, ", ", off.as_str(), "(sp)\n")
    } else {
        let s = if str_eq(rs, "t0") {
            "t1"
        } else {
            "t0"
        };
        cat3(
            cat5("  li ", s, ", ", off.as_str(), "\n").as_str(),
            cat5("  add ", s, ", sp, ", s, "\n").as_str(),
            cat5("  sw ", rs, ", 0(", s, ")\n").as_str(),
        )
    }
}

fn emit_addi_sp(delta: i32) -> (r: String)
    ensures
        r@ == addi_sp(delta),
{
    let d = dec_i32(delta);
    if short(delta) {
        cat3("  addi sp, sp, ", d.as_str(), "\n")
    } else {
        cat3("  li t0, ", d.as_str(), "\n  add sp, sp, t0\n")
    }
}

fn emit_addr(rd: &str, offset: i32) -> (r: String)
    ensures
        r@ == addr(rd@, offset),
{
    let off = dec_i32(offset);
    if short(offset) {
        cat5("  addi ", rd, ", sp, ", off.as_str(), "\n")
    } else {
        cat2(
            cat5("  li ", rd, ", ", off.as_str(), "\n").as_str(),
            cat5("  add ", rd, ", sp, ", rd, "\n").as_str(),
        )
    }
}

pub(crate) fn emit_offset_mul(elem_size: i32, rd: &str, idx: &str) -> (r: String)
    ensures
        r@ == offset_mul(elem_size, rd@, idx@),
{
    if elem_size == 0 || elem_size == 1 {
        String::new()
    } else if elem_size == 4 {
        cat5("  slli ", rd, ", ", idx, ", 2\n")
    } else {
        cat2(
            cat3("  li t3, ", dec_i32(elem_size).as_str(), "\n").as_str(),
            cat5("  mul ", rd, ", ", idx, ", t3\n").as_str(),
        )
    }
}

// ── Writing operands ─────────────────────────────────────────────────────────

#[verifier::loop_isolation(false)]
pub(crate) fn bare_name(name: &str) -> (r: String)
    ensures
        r@ == bare(name@),
{
    let n = name.unicode_len();
    if n == 0 || name.get_char(0) != '@' {
        return name.to_owned();
    }
    let mut out = String::new();
    let mut i: usize = 1;
    while i < n
        invariant
            1 <= i <= n,
            out@ == name@.subrange(1, i as int),
        decreases n - i,
    {
        out.push(name.get_char(i));
        i = i + 1;
        assert(name@.subrange(1, i as int) =~= name@.subrange(1, i - 1).push(name@[i - 1]));
    }
    assert(name@.subrange(1, i as int) =~= name@.skip(1));
    out
}

pub(crate) fn emit_arg_reg(i: usize) -> (r: String)
    ensures
        r@ == arg_reg(i as nat),
{
    cat2("a", dec_usize(i).as_str())
}

pub(crate) fn emit_li(rd: &str, n: i32) -> (r: String)
    ensures
        r@ == li(rd@, n as int),
{
    cat5("  li ", rd, ", ", dec_i32(n).as_str(), "\n")
}

/// The offset of an SSA value.
fn slot_of(frame: &FrameInfo, l: usize) -> (r: i32)
    ensures
        r == frame::slot(frame@, l),
{
    match frame.locals.get(&l) {
        Some(o) => *o,
        None => 0,
    }
}

fn global_to_reg(program: &IrProgram, frame: &FrameInfo, g: usize, pref: &str) -> (r: (
    String,
    String,
))
    requires
        op_ready(program@, frame@, IrOperand::Global(g)),
    ensures
        (r.0@, r.1@) == global_in(program@, frame@, g, pref@),
{
    if let Some(o) = frame.spills.get(&g) {
        return (emit_lw(pref, *o), pref.to_owned());
    }
    if let Some(i) = frame.regs.get(&g) {
        return (String::new(), emit_arg_reg(*i));
    }
    if let Some(o) = frame.stack.get(&g) {
        return (emit_lw(pref, *o), pref.to_owned());
    }
    if let Some(o) = frame.vars.get(&g) {
        return (emit_addr(pref, *o), pref.to_owned());
    }
    let name = bare_name(program.global_name(g));
    (cat5("  la ", pref, ", ", name.as_str(), "\n"), pref.to_owned())
}

fn op_to_reg(program: &IrProgram, frame: &FrameInfo, op: IrOperand, pref: &str) -> (r: (
    String,
    String,
))
    requires
        op_ready(program@, frame@, op),
    ensures
        (r.0@, r.1@) == op_in(program@, frame@, op, pref@),
{
    match op {
        IrOperand::Int(n) => (emit_li(pref, n), pref.to_owned()),
        IrOperand::Local(l) => (emit_lw(pref, slot_of(frame, l)), pref.to_owned()),
        IrOperand::Global(g) => global_to_reg(program, frame, g, pref),
        IrOperand::Undef => (emit_li(pref, 0), pref.to_owned()),
    }
}

pub(crate) fn emit_to_a0(reg: &str) -> (r: String)
    ensures
        r@ == to_a0(reg@),
{
    if str_eq(reg, "a0") {
        String::new()
    } else {
        cat3("  mv a0, ", reg, "\n")
    }
}

// ── Writing instructions ─────────────────────────────────────────────────────

fn emit_to_a0_from(op: &str, l: &str, r: &str) -> (out: String)
    ensures
        out@ == to_a0_from(op@, l@, r@),
{
    cat7("  ", op, " a0, ", l, ", ", r, "\n")
}

fn emit_compare(op: IrCmpOp, l: &str, r: &str) -> (out: String)
    ensures
        out@ == compare(op, l@, r@),
{
    match op {
        IrCmpOp::Lt => emit_to_a0_from("slt", l, r),
        IrCmpOp::Gt => emit_to_a0_from("slt", r, l),
        IrCmpOp::Le => cat2(emit_to_a0_from("slt", r, l).as_str(), "  xori a0, a0, 1\n"),
        IrCmpOp::Ge => cat2(emit_to_a0_from("slt", l, r).as_str(), "  xori a0, a0, 1\n"),
        IrCmpOp::Eq => cat2(emit_to_a0_from("sub", l, r).as_str(), "  sltiu a0, a0, 1\n"),
        IrCmpOp::Ne => cat2(emit_to_a0_from("sub", l, r).as_str(), "  sltu a0, zero, a0\n"),
    }
}

fn emit_load(program: &IrProgram, frame: &FrameInfo, dest: usize, src: IrOperand) -> (r: String)
    requires
        op_ready(program@, frame@, src),
    ensures
        r@ == load_code(program@, frame@, dest, src),
{
    let a = op_to_reg(program, frame, src, "t2");
    cat3(
        a.0.as_str(),
        cat3("  lw t0, 0(", a.1.as_str(), ")\n").as_str(),
        emit_sw("t0", slot_of(frame, dest)).as_str(),
    )
}

fn emit_store(program: &IrProgram, frame: &FrameInfo, value: IrOperand, ptr: IrOperand) -> (r:
    String)
    requires
        op_ready(program@, frame@, value),
        op_ready(program@, frame@, ptr),
    ensures
        r@ == store_code(program@, frame@, value, ptr),
{
    let v = op_to_reg(program, frame, value, "t1");
    let a = op_to_reg(program, frame, ptr, "t2");
    cat3(
        v.0.as_str(),
        a.0.as_str(),
        cat5("  sw ", v.1.as_str(), ", 0(", a.1.as_str(), ")\n").as_str(),
    )
}

pub(crate) fn emit_arith_name(op: IrArithOp) -> (r: &'static str)
    ensures
        r@ == arith_name(op),
{
    match op {
        IrArithOp::Add => "add",
        IrArithOp::Sub => "sub",
        IrArithOp::Mul => "mul",
        IrArithOp::Div => "div",
        IrArithOp::Mod => "rem",
    }
}

fn emit_arith(
    program: &IrProgram,
    frame: &FrameInfo,
    dest: usize,
    op: IrArithOp,
    lhs: IrOperand,
    rhs: IrOperand,
) -> (out: String)
    requires
        op_ready(program@, frame@, lhs),
        op_ready(program@, frame@, rhs),
    ensures
        out@ == arith_code(program@, frame@, dest, op, lhs, rhs),
{
    let l = op_to_reg(program, frame, lhs, "t0");
    let r = op_to_reg(program, frame, rhs, "t1");
    cat4(
        l.0.as_str(),
        r.0.as_str(),
        emit_to_a0_from(emit_arith_name(op), l.1.as_str(), r.1.as_str()).as_str(),
        emit_sw("a0", slot_of(frame, dest)).as_str(),
    )
}

fn emit_compare_ops(
    program: &IrProgram,
    frame: &FrameInfo,
    dest: usize,
    op: IrCmpOp,
    lhs: IrOperand,
    rhs: IrOperand,
) -> (out: String)
    requires
        op_ready(program@, frame@, lhs),
        op_ready(program@, frame@, rhs),
    ensures
        out@ == compare_code(program@, frame@, dest, op, lhs, rhs),
{
    let l = op_to_reg(program, frame, lhs, "t0");
    let r = op_to_reg(program, frame, rhs, "t1");
    cat4(
        l.0.as_str(),
        r.0.as_str(),
        emit_compare(op, l.1.as_str(), r.1.as_str()).as_str(),
        emit_sw("a0", slot_of(frame, dest)).as_str(),
    )
}

fn emit_elem(
    program: &IrProgram,
    frame: &FrameInfo,
    dest: usize,
    ptr: IrOperand,
    index: IrOperand,
    elem_size: i32,
) -> (out: String)
    requires
        op_ready(program@, frame@, ptr),
        op_ready(program@, frame@, index),
    ensures
        out@ == elem_code(program@, frame@, dest, ptr, index, elem_size),
{
    let b = op_to_reg(program, frame, ptr, "t0");
    let i = op_to_reg(program, frame, index, "t1");
    cat5(
        b.0.as_str(),
        i.0.as_str(),
        emit_offset_mul(elem_size, "t1", i.1.as_str()).as_str(),
        cat3("  add t0, ", b.1.as_str(), ", t1\n").as_str(),
        emit_sw("t0", slot_of(frame, dest)).as_str(),
    )
}

fn emit_result(frame: &FrameInfo, dest: Option<usize>) -> (r: String)
    ensures
        r@ == result_kept(frame@, dest),
{
    match dest {
        Some(d) => emit_sw("a0", slot_of(frame, d)),
        None => String::new(),
    }
}

#[verifier::loop_isolation(false)]
fn emit_kept(program: &IrProgram, frame: &FrameInfo, args: &Vec<IrOperand>) -> (r: String)
    requires
        frame.args >= 0,
        frame.args + args@.len() * 4 <= i32::MAX,
        forall|k: int| 0 <= k < args@.len() ==> op_ready(program@, frame@, #[trigger] args@[k]),
    ensures
        r@ == args_kept(program@, frame@, args@, args@.len() as int),
{
    let mut out = String::new();
    let mut i: usize = 0;
    while i < args.len()
        invariant
            i <= args.len(),
            out@ == args_kept(program@, frame@, args@, i as int),
        decreases args.len() - i,
    {
        let a = op_to_reg(program, frame, args[i], "a0");
        let kept = emit_sw("a0", frame.args + i as i32 * 4);
        out.append(cat3(a.0.as_str(), emit_to_a0(a.1.as_str()).as_str(), kept.as_str()).as_str());
        i = i + 1;
    }
    out
}

#[verifier::loop_isolation(false)]
fn emit_pushed(frame: &FrameInfo, n: usize) -> (r: String)
    requires
        frame.args >= 0,
        frame.args + n * 4 <= i32::MAX,
    ensures
        r@ == args_pushed(frame@, n as int, n as int),
{
    let mut out = String::new();
    let mut k: usize = 0;
    while k < n
        invariant
            k <= n,
            out@ == args_pushed(frame@, n as int, k as int),
        decreases n - k,
    {
        let back = emit_lw("t0", frame.args + n as i32 * 4);
        out.append(cat3("  addi sp, sp, -4\n", back.as_str(), "  sw t0, 0(sp)\n").as_str());
        k = k + 1;
    }
    out
}

#[verifier::loop_isolation(false)]
pub(crate) fn emit_popped(n: usize) -> (r: String)
    ensures
        r@ == args_popped(n as int),
{
    let mut out = String::new();
    let mut k: usize = 0;
    while k < n
        invariant
            k <= n,
            out@ == args_popped(k as int),
        decreases n - k,
    {
        out.append(
            cat3("  lw ", emit_arg_reg(k).as_str(), ", 0(sp)\n  addi sp, sp, 4\n").as_str(),
        );
        k = k + 1;
    }
    out
}

fn emit_dropped(n: usize) -> (r: String)
    requires
        n * 4 <= i32::MAX,
    ensures
        r@ == args_dropped(n as int),
{
    if n > REG_ARGS {
        cat3("  addi sp, sp, ", dec_i32((n - REG_ARGS) as i32 * 4).as_str(), "\n")
    } else {
        String::new()
    }
}

fn emit_call(
    program: &IrProgram,
    frame: &FrameInfo,
    dest: Option<usize>,
    func: usize,
    args: &Vec<IrOperand>,
) -> (r: String)
    requires
        func < program@.func_names.len(),
        frame.args >= 0,
        frame.args + args@.len() * 4 <= i32::MAX,
        forall|k: int| 0 <= k < args@.len() ==> op_ready(program@, frame@, #[trigger] args@[k]),
    ensures
        r@ == call_code(program@, frame@, dest, func, args@),
{
    let n = args.len();
    let regs = if n < REG_ARGS {
        n
    } else {
        REG_ARGS
    };
    let callee = bare_name(program.func_name(func));
    cat6(
        emit_kept(program, frame, args).as_str(),
        emit_pushed(frame, n).as_str(),
        emit_popped(regs).as_str(),
        cat3("  call ", callee.as_str(), "\n").as_str(),
        emit_dropped(n).as_str(),
        emit_result(frame, dest).as_str(),
    )
}

fn emit_br(program: &IrProgram, frame: &FrameInfo, cond: IrOperand, yes: &str, no: &str) -> (r:
    String)
    requires
        op_ready(program@, frame@, cond),
    ensures
        r@ == br_code(program@, frame@, cond, yes@, no@),
{
    let c = op_to_reg(program, frame, cond, "t0");
    cat3(
        c.0.as_str(),
        cat5("  bnez ", c.1.as_str(), ", ", yes, "\n").as_str(),
        cat3("  j ", no, "\n").as_str(),
    )
}

fn emit_ra_kept(frame: &FrameInfo) -> (r: String)
    ensures
        r@ == ra_kept(frame@),
{
    if frame.calls {
        emit_sw("ra", frame.ra)
    } else {
        String::new()
    }
}

fn emit_ra_back(frame: &FrameInfo) -> (r: String)
    ensures
        r@ == ra_back(frame@),
{
    if frame.calls {
        emit_lw("ra", frame.ra)
    } else {
        String::new()
    }
}

fn emit_leave(frame: &FrameInfo) -> (r: String)
    ensures
        r@ == leave(frame@),
{
    cat3(emit_ra_back(frame).as_str(), emit_addi_sp(frame.size).as_str(), "  ret\n")
}

fn emit_ret(program: &IrProgram, frame: &FrameInfo, value: Option<IrOperand>) -> (out: String)
    requires
        value matches Some(v) ==> op_ready(program@, frame@, v),
    ensures
        out@ == ret_code(program@, frame@, value),
{
    match value {
        Some(v) => {
            let r = op_to_reg(program, frame, v, "a0");
            cat3(
                r.0.as_str(),
                emit_to_a0(r.1.as_str()).as_str(),
                emit_leave(frame).as_str(),
            )
        },
        None => emit_leave(frame),
    }
}

/// The label of a block by its index.
fn emit_label(
    index: &HashMap<usize, usize>,
    base: usize,
    label: usize,
    Ghost(blocks): Ghost<Seq<BlockV>>,
) -> (r: String)
    requires
        cfg::indexes(index@, blocks),
        base + blocks.len() <= usize::MAX,
        cfg::label_position(blocks, label) is Some,
    ensures
        r@ == label_text(blocks, base as int, label),
{
    proof {
        cfg::label_position_is_last(blocks, label);
        assert(cfg::entry(index@, label) == cfg::label_position(blocks, label));
    }
    match index.get(&label) {
        Some(pos) => cat2(".L", dec_usize(base + *pos).as_str()),
        None => String::new(),
    }
}

/// An instruction of a function that can be written.
spec fn emittable(p: ProgV, fr: FrameV, blocks: Seq<BlockV>, i: InstV) -> bool {
    &&& inst_ready(p, fr, blocks, i)
    &&& fr.args >= 0
    &&& fr.args + frame::arg_count(i) * 4 <= i32::MAX
}

proof fn operands_ready(p: ProgV, fr: FrameV, blocks: Seq<BlockV>, i: InstV)
    requires
        inst_ready(p, fr, blocks, i),
    ensures
        match i {
            InstV::Load { src, .. } => op_ready(p, fr, src),
            InstV::Store { value, ptr } => op_ready(p, fr, value) && op_ready(p, fr, ptr),
            InstV::Arith { lhs, rhs, .. } => op_ready(p, fr, lhs) && op_ready(p, fr, rhs),
            InstV::Icmp { lhs, rhs, .. } => op_ready(p, fr, lhs) && op_ready(p, fr, rhs),
            InstV::GetPtr { ptr, index, .. } => op_ready(p, fr, ptr) && op_ready(p, fr, index),
            InstV::GetElemPtr { ptr, index, .. } => op_ready(p, fr, ptr) && op_ready(p, fr, index),
            InstV::Call { args, .. } => forall|k: int|
                0 <= k < args.len() ==> op_ready(p, fr, #[trigger] args[k]),
            InstV::Br { cond, .. } => op_ready(p, fr, cond),
            InstV::Ret { value } => value matches Some(v) ==> op_ready(p, fr, v),
            _ => true,
        },
{
    let ops = ir::inst_operands(i);
    if !(i is Phi) {
        if ops.len() > 0 {
            assert(op_ready(p, fr, ops[0]));
        }
        if ops.len() > 1 {
            assert(op_ready(p, fr, ops[1]));
        }
    }
}

fn emit_inst(
    program: &IrProgram,
    frame: &FrameInfo,
    index: &HashMap<usize, usize>,
    base: usize,
    inst: &IrInst,
    Ghost(blocks): Ghost<Seq<BlockV>>,
) -> (r: String)
    requires
        cfg::indexes(index@, blocks),
        base + blocks.len() <= usize::MAX,
        emittable(program@, frame@, blocks, inst@),
    ensures
        r@ == code_in(program@, frame@, blocks, base, inst@),
{
    proof {
        operands_ready(program@, frame@, blocks, inst@);
    }
    match inst {
        IrInst::Alloc { .. } => String::new(),
        IrInst::Load { dest, src } => emit_load(program, frame, *dest, *src),
        IrInst::Store { value, ptr } => emit_store(program, frame, *value, *ptr),
        IrInst::Arith { dest, op, lhs, rhs } => emit_arith(
            program,
            frame,
            *dest,
            *op,
            *lhs,
            *rhs,
        ),
        IrInst::Icmp { dest, op, lhs, rhs } => emit_compare_ops(
            program,
            frame,
            *dest,
            *op,
            *lhs,
            *rhs,
        ),
        IrInst::GetPtr { dest, ptr, index, elem_size } => emit_elem(
            program,
            frame,
            *dest,
            *ptr,
            *index,
            *elem_size,
        ),
        IrInst::GetElemPtr { dest, ptr, index, elem_size } => emit_elem(
            program,
            frame,
            *dest,
            *ptr,
            *index,
            *elem_size,
        ),
        IrInst::Call { dest, func, args } => emit_call(program, frame, *dest, *func, args),
        IrInst::Br { cond, then_bb, else_bb } => {
            let yes = emit_label(index, base, *then_bb, Ghost(blocks));
            let no = emit_label(index, base, *else_bb, Ghost(blocks));
            emit_br(program, frame, *cond, yes.as_str(), no.as_str())
        },
        IrInst::Jump { target } => {
            let to = emit_label(index, base, *target, Ghost(blocks));
            cat3("  j ", to.as_str(), "\n")
        },
        IrInst::Ret { value } => emit_ret(program, frame, *value),
        IrInst::Phi { .. } => "  # phi\n".to_owned(),
        IrInst::Asm { dest, code } => cat4(
            "  ",
            code.as_str(),
            "\n",
            emit_result(frame, *dest).as_str(),
        ),
    }
}

/// The code of an instruction, with a machine integer for the number of blocks before.
spec fn code_in(p: ProgV, fr: FrameV, blocks: Seq<BlockV>, base: usize, i: InstV) -> Seq<char> {
    inst_code(p, fr, blocks, base as int, i)
}

/// The code of the first `n` instructions.
#[verifier::loop_isolation(false)]
fn emit_insts(
    program: &IrProgram,
    frame: &FrameInfo,
    index: &HashMap<usize, usize>,
    base: usize,
    instrs: &Vec<IrInst>,
    n: usize,
    Ghost(blocks): Ghost<Seq<BlockV>>,
) -> (r: String)
    requires
        n <= instrs@.len(),
        cfg::indexes(index@, blocks),
        base + blocks.len() <= usize::MAX,
        forall|i: int|
            0 <= i < instrs@.len() ==> emittable(
                program@,
                frame@,
                blocks,
                #[trigger] ir::insts(instrs@)[i],
            ),
    ensures
        r@ == insts_code(program@, frame@, blocks, base as int, ir::insts(instrs@).take(n as int)),
{
    let ghost list = ir::insts(instrs@);
    let mut out = String::new();
    let mut i: usize = 0;
    assert(list.take(0) =~= Seq::empty());
    while i < n
        invariant
            i <= n,
            out@ == insts_code(program@, frame@, blocks, base as int, list.take(i as int)),
        decreases n - i,
    {
        assert(list[i as int] == instrs@[i as int]@);
        assert(list.take(i + 1).drop_last() =~= list.take(i as int));
        out.append(emit_inst(program, frame, index, base, &instrs[i], Ghost(blocks)).as_str());
        i = i + 1;
    }
    out
}

#[verifier::loop_isolation(false)]
fn emit_loaded(frame: &FrameInfo, n: usize) -> (r: String)
    requires
        frame.args >= 0,
        frame.args + n * 4 <= i32::MAX,
    ensures
        r@ == args_loaded(frame@, n as int),
{
    let mut out = String::new();
    let mut k: usize = 0;
    while k < n
        invariant
            k <= n,
            out@ == args_loaded(frame@, k as int),
        decreases n - k,
    {
        out.append(emit_lw(emit_arg_reg(k).as_str(), frame.args + k as i32 * 4).as_str());
        k = k + 1;
    }
    out
}

fn emit_restart(program: &IrProgram, frame: &FrameInfo, name: &str, args: &Vec<IrOperand>) -> (r:
    String)
    requires
        frame.args >= 0,
        frame.args + args@.len() * 4 <= i32::MAX,
        forall|k: int| 0 <= k < args@.len() ==> op_ready(program@, frame@, #[trigger] args@[k]),
    ensures
        r@ == restart_code(program@, frame@, name@, args@),
{
    cat5(
        emit_kept(program, frame, args).as_str(),
        emit_loaded(frame, args.len()).as_str(),
        emit_ra_back(frame).as_str(),
        emit_addi_sp(frame.size).as_str(),
        cat3("  j ", name, "\n").as_str(),
    )
}

/// The arguments of the call that a block ends in, where it returns what the function with a name
/// gives.
fn last_call<'a>(program: &IrProgram, name: &str, instrs: &'a Vec<IrInst>) -> (r: Option<
    &'a Vec<IrOperand>,
>)
    requires
        forall|i: int|
            0 <= i < instrs@.len() ==> match #[trigger] ir::insts(instrs@)[i] {
                InstV::Call { func, .. } => func < program@.func_names.len(),
                _ => true,
            },
    ensures
        match r {
            Some(args) => ends_in_call(program@, name@, ir::insts(instrs@)) && ir::insts(
                instrs@,
            )[instrs@.len() - 2]->args == args@,
            None => !ends_in_call(program@, name@, ir::insts(instrs@)),
        },
{
    let n = instrs.len();
    if n < 2 {
        return None;
    }
    assert(ir::insts(instrs@)[n - 2] == instrs@[n - 2]@);
    assert(ir::insts(instrs@)[n - 1] == instrs@[n - 1]@);
    match (&instrs[n - 2], &instrs[n - 1]) {
        (
            IrInst::Call { dest: Some(d), func, args },
            IrInst::Ret { value: Some(IrOperand::Local(l)) },
        ) => if *d == *l && args.len() <= REG_ARGS && str_eq(
            bare_name(program.func_name(*func)).as_str(),
            name,
        ) {
            Some(args)
        } else {
            None
        },
        _ => None,
    }
}

/// The code of a block.
fn emit_block(
    program: &IrProgram,
    frame: &FrameInfo,
    index: &HashMap<usize, usize>,
    base: usize,
    name: &str,
    reuse: bool,
    instrs: &Vec<IrInst>,
    Ghost(blocks): Ghost<Seq<BlockV>>,
) -> (r: String)
    requires
        cfg::indexes(index@, blocks),
        base + blocks.len() <= usize::MAX,
        forall|i: int|
            0 <= i < instrs@.len() ==> emittable(
                program@,
                frame@,
                blocks,
                #[trigger] ir::insts(instrs@)[i],
            ),
    ensures
        r@ == block_code(
            program@,
            frame@,
            blocks,
            base as int,
            name@,
            reuse,
            ir::insts(instrs@),
        ),
{
    let n = instrs.len();
    if reuse {
        if let Some(args) = last_call(program, name, instrs) {
            proof {
                operands_ready(program@, frame@, blocks, ir::insts(instrs@)[n - 2]);
            }
            let code = emit_insts(program, frame, index, base, instrs, n - 2, Ghost(blocks));
            return cat2(
                code.as_str(),
                emit_restart(program, frame, name, args).as_str(),
            );
        }
    }
    assert(ir::insts(instrs@).take(n as int) =~= ir::insts(instrs@));
    emit_insts(program, frame, index, base, instrs, n, Ghost(blocks))
}

/// Whether a function has an array in its frame.
#[verifier::loop_isolation(false)]
fn holds_array(blocks: &Vec<IrBlock>) -> (r: bool)
    ensures
        r == has_array(ir::blocks_view(blocks@)),
{
    let ghost all = ir::blocks_view(blocks@);
    let mut b: usize = 0;
    while b < blocks.len()
        invariant
            b <= blocks.len(),
            forall|k: int, i: int|
                #![trigger all[k].instrs[i]]
                0 <= k < b && 0 <= i < all[k].instrs.len() ==> !is_array(all[k].instrs[i]),
        decreases blocks.len() - b,
    {
        let instrs = &blocks[b].instrs;
        assert(all[b as int] == blocks@[b as int]@);
        let mut i: usize = 0;
        while i < instrs.len()
            invariant
                i <= instrs.len(),
                forall|k: int|
                    0 <= k < i ==> !is_array(#[trigger] all[b as int].instrs[k]),
            decreases instrs.len() - i,
        {
            assert(all[b as int].instrs[i as int] == instrs@[i as int]@);
            if let IrInst::Alloc { ty: IrType::Array(..), .. } = &instrs[i] {
                assert(is_array(all[b as int].instrs[i as int]));
                return true;
            }
            i = i + 1;
        }
        b = b + 1;
    }
    false
}

#[verifier::loop_isolation(false)]
fn emit_blocks(
    program: &IrProgram,
    frame: &FrameInfo,
    base: usize,
    name: &str,
    blocks: &Vec<IrBlock>,
) -> (r: String)
    requires
        base + blocks@.len() <= usize::MAX,
        forall|b: int, i: int|
            #![trigger ir::blocks_view(blocks@)[b].instrs[i]]
            0 <= b < blocks@.len() && 0 <= i < ir::blocks_view(blocks@)[b].instrs.len()
                ==> emittable(
                program@,
                frame@,
                ir::blocks_view(blocks@),
                ir::blocks_view(blocks@)[b].instrs[i],
            ),
    ensures
        r@ == blocks_code(
            program@,
            frame@,
            ir::blocks_view(blocks@),
            base as int,
            name@,
            blocks@.len() as int,
        ),
{
    let ghost all = ir::blocks_view(blocks@);
    let index = cfg::index_blocks(blocks);
    let reuse = !holds_array(blocks);
    let mut out = String::new();
    let mut b: usize = 0;
    while b < blocks.len()
        invariant
            b <= blocks.len(),
            out@ == blocks_code(program@, frame@, all, base as int, name@, b as int),
        decreases blocks.len() - b,
    {
        let block = &blocks[b];
        assert(all[b as int] == block@);
        proof {
            cfg::label_position_is_last(all, block.label);
            assert forall|i: int| 0 <= i < block.instrs@.len() implies emittable(
                program@,
                frame@,
                all,
                #[trigger] ir::insts(block.instrs@)[i],
            ) by {
                assert(all[b as int].instrs[i] == ir::insts(block.instrs@)[i]);
            }
        }
        let label = emit_label(&index, base, block.label, Ghost(all));
        let code = emit_block(
            program,
            frame,
            &index,
            base,
            name,
            reuse,
            &block.instrs,
            Ghost(all),
        );
        out.append(cat3(label.as_str(), ":\n", code.as_str()).as_str());
        b = b + 1;
    }
    out
}

#[verifier::loop_isolation(false)]
fn emit_params(frame: &FrameInfo, params: &Vec<(usize, IrType)>, n: usize) -> (r: String)
    requires
        n <= params@.len(),
    ensures
        r@ == params_saved(frame@, params@, n as int),
{
    let mut out = String::new();
    let mut i: usize = 0;
    while i < n
        invariant
            i <= n,
            out@ == params_saved(frame@, params@, i as int),
        decreases n - i,
    {
        let ghost was = out@;
        let reg = emit_arg_reg(i);
        if let Some(o) = frame.vars.get(&params[i].0) {
            out.append(emit_sw(reg.as_str(), *o).as_str());
        } else if let Some(o) = frame.spills.get(&params[i].0) {
            out.append(emit_sw(reg.as_str(), *o).as_str());
        } else {
            assert(was + Seq::<char>::empty() =~= was);
        }
        i = i + 1;
    }
    out
}

pub(crate) fn has_ret(blocks: &Vec<IrBlock>) -> (r: bool)
    ensures
        r == ends_with_ret(ir::blocks_view(blocks@)),
{
    let n = blocks.len();
    if n == 0 {
        return false;
    }
    let instrs = &blocks[n - 1].instrs;
    assert(ir::blocks_view(blocks@).last() == blocks@[n - 1]@);
    let k = instrs.len();
    if k == 0 {
        return false;
    }
    assert(blocks@[n - 1]@.instrs.last() == instrs@[k - 1]@);
    matches!(instrs[k - 1], IrInst::Ret { .. })
}

fn emit_epilogue(func: &IrFunc, frame: &FrameInfo) -> (r: String)
    ensures
        r@ == epilogue(func@, frame@),
{
    if has_ret(&func.blocks) {
        String::new()
    } else if func.ret_type.is_void() {
        emit_leave(frame)
    } else {
        cat2("  li a0, 0\n", emit_leave(frame).as_str())
    }
}

fn emit_function(program: &IrProgram, func: &IrFunc, base: usize) -> (r: String)
    requires
        func_ready(program@, func@),
        base + func@.blocks.len() <= usize::MAX,
    ensures
        r@ == func_code(program@, func@, base as int),
{
    if needs_no_frame(func) {
        return emit_leaf(program, func, base);
    }
    match frame::compute_frame(func) {
        Some(frame) => {
            proof {
                frame::frame_is_laid_out(func@);
                let all = func@.blocks;
                assert forall|b: int, i: int|
                    #![trigger all[b].instrs[i]]
                    0 <= b < all.len() && 0 <= i < all[b].instrs.len() implies emittable(
                    program@,
                    frame@,
                    all,
                    all[b].instrs[i],
                ) by {
                    frame::max_args_is_most(all, b, i);
                }
            }
            let n = if func.params.len() < REG_ARGS {
                func.params.len()
            } else {
                REG_ARGS
            };
            let name = bare_name(program.func_name(func.name));
            let head = cat5("  .globl ", name.as_str(), "\n", name.as_str(), ":\n");
            let start = cat4(
                head.as_str(),
                emit_addi_sp(-frame.size).as_str(),
                emit_ra_kept(&frame).as_str(),
                emit_params(&frame, &func.params, n).as_str(),
            );
            cat3(
                start.as_str(),
                emit_blocks(program, &frame, base, name.as_str(), &func.blocks).as_str(),
                emit_epilogue(func, &frame).as_str(),
            )
        },
        None => String::new(),
    }
}

#[verifier::loop_isolation(false)]
fn emit_words(vals: &Vec<i32>) -> (r: String)
    ensures
        r@ == words(vals@, vals@.len() as int),
{
    let mut out = String::new();
    let mut i: usize = 0;
    while i < vals.len()
        invariant
            i <= vals.len(),
            out@ == words(vals@, i as int),
        decreases vals.len() - i,
    {
        out.append("\n  .word ");
        out.append(dec_i32(vals[i]).as_str());
        i = i + 1;
    }
    out
}

fn emit_global(program: &IrProgram, g: &IrGlobal) -> (r: String)
    requires
        global_ready(program@, g@),
    ensures
        r@ == global_data(program@, g@),
{
    let name = bare_name(program.global_name(g.name));
    let value = match &g.init {
        IrGlobalInit::Zero => match frame::size_of_type(&g.ty) {
            Some(n) => cat2("\n  .zero ", dec_usize(n).as_str()),
            None => String::new(),
        },
        IrGlobalInit::Values(vals) => emit_words(vals),
    };
    cat4(name.as_str(), ":", value.as_str(), "\n")
}

#[verifier::loop_isolation(false)]
fn emit_globals(program: &IrProgram) -> (r: String)
    requires
        ready(program@),
    ensures
        r@ == globals_data(program@, program@.globals.len() as int),
{
    let mut out = String::new();
    let mut i: usize = 0;
    while i < program.globals.len()
        invariant
            i <= program.globals.len(),
            out@ == globals_data(program@, i as int),
        decreases program.globals.len() - i,
    {
        assert(program@.globals[i as int] == program.globals@[i as int]@);
        out.append(emit_global(program, &program.globals[i]).as_str());
        i = i + 1;
    }
    out
}

proof fn blocks_before_grows(funcs: Seq<FuncV>, n: int, m: int)
    requires
        0 <= n <= m,
    ensures
        0 <= blocks_before(funcs, n) <= blocks_before(funcs, m),
    decreases m,
{
    if n < m {
        blocks_before_grows(funcs, n, m - 1);
    } else if n > 0 {
        blocks_before_grows(funcs, n - 1, n - 1);
    }
}

#[verifier::rlimit(40)]
fn emit_funcs(program: &IrProgram) -> (r: String)
    requires
        ready(program@),
    ensures
        r@ == funcs_code(program@, program@.funcs.len() as int),
{
    let mut out = String::new();
    let mut base: usize = 0;
    let mut i: usize = 0;
    while i < program.funcs.len()
        invariant
            i <= program.funcs.len(),
            ready(program@),
            base == blocks_before(program@.funcs, i as int),
            out@ == funcs_code(program@, i as int),
        decreases program.funcs.len() - i,
    {
        let func = &program.funcs[i];
        assert(program@.funcs[i as int] == func@);
        proof {
            blocks_before_grows(program@.funcs, i + 1, program@.funcs.len() as int);
        }
        out.append(emit_function(program, func, base).as_str());
        base = base + func.blocks.len();
        i = i + 1;
    }
    out
}

/// Writes a program as RISC-V assembly.
pub fn emit_riscv(program: &IrProgram) -> (r: String)
    requires
        ready(program@),
    ensures
        r@ == riscv(program@),
{
    let data = emit_globals(program);
    let code = emit_funcs(program);
    if data.as_str().unicode_len() == 0 {
        let ghost none = Seq::<char>::empty();
        assert(none + "  .text\n"@ + code@ =~= "  .text\n"@ + code@);
        cat2("  .text\n", code.as_str())
    } else {
        cat4("  .data\n", data.as_str(), "  .text\n", code.as_str())
    }
}

// ── What can be written ──────────────────────────────────────────────────────

fn is_op_ready(program: &IrProgram, frame: &FrameInfo, op: IrOperand) -> (r: bool)
    ensures
        r == op_ready(program@, frame@, op),
{
    match op {
        IrOperand::Global(g) => frame.spills.contains_key(&g) || frame.regs.contains_key(&g)
            || frame.stack.contains_key(&g) || frame.vars.contains_key(&g) || g
            < program.global_names.len(),
        _ => true,
    }
}

#[verifier::loop_isolation(false)]
fn are_ops_ready(program: &IrProgram, frame: &FrameInfo, inst: &IrInst) -> (r: bool)
    ensures
        r == forall|k: int|
            0 <= k < ir::inst_operands(inst@).len() ==> op_ready(
                program@,
                frame@,
                #[trigger] ir::inst_operands(inst@)[k],
            ),
{
    let ops = inst.operands();
    let ghost all = ir::inst_operands(inst@);
    let mut i: usize = 0;
    while i < ops.len()
        invariant
            i <= ops.len(),
            forall|k: int| 0 <= k < i ==> op_ready(program@, frame@, #[trigger] all[k]),
        decreases ops.len() - i,
    {
        assert(all[i as int] == *ops@[i as int]);
        if !is_op_ready(program, frame, *ops[i]) {
            return false;
        }
        i = i + 1;
    }
    true
}

fn is_label(index: &HashMap<usize, usize>, label: usize, Ghost(blocks): Ghost<Seq<BlockV>>) -> (r:
    bool)
    requires
        cfg::indexes(index@, blocks),
    ensures
        r == (cfg::label_position(blocks, label) is Some),
{
    assert(cfg::entry(index@, label) == cfg::label_position(blocks, label));
    index.contains_key(&label)
}

fn is_inst_ready(
    program: &IrProgram,
    frame: &FrameInfo,
    index: &HashMap<usize, usize>,
    inst: &IrInst,
    Ghost(blocks): Ghost<Seq<BlockV>>,
) -> (r: bool)
    requires
        cfg::indexes(index@, blocks),
    ensures
        r == inst_ready(program@, frame@, blocks, inst@),
{
    if !matches!(inst, IrInst::Phi { .. }) && !are_ops_ready(program, frame, inst) {
        return false;
    }
    match inst {
        IrInst::Call { func, .. } => *func < program.func_names.len(),
        IrInst::Br { then_bb, else_bb, .. } => is_label(index, *then_bb, Ghost(blocks))
            && is_label(index, *else_bb, Ghost(blocks)),
        IrInst::Jump { target } => is_label(index, *target, Ghost(blocks)),
        _ => true,
    }
}

#[verifier::loop_isolation(false)]
fn is_func_ready(program: &IrProgram, func: &IrFunc) -> (r: bool)
    ensures
        r == func_ready(program@, func@),
{
    if func.name >= program.func_names.len() {
        return false;
    }
    let frame = match frame::compute_frame(func) {
        Some(frame) => frame,
        None => return false,
    };
    let ghost all = func@.blocks;
    let index = cfg::index_blocks(&func.blocks);
    let mut b: usize = 0;
    while b < func.blocks.len()
        invariant
            b <= func.blocks.len(),
            forall|k: int, i: int|
                #![trigger all[k].instrs[i]]
                0 <= k < b && 0 <= i < all[k].instrs.len() ==> inst_ready(
                    program@,
                    frame@,
                    all,
                    all[k].instrs[i],
                ),
        decreases func.blocks.len() - b,
    {
        let block = &func.blocks[b];
        assert(all[b as int] == block@);
        let mut i: usize = 0;
        while i < block.instrs.len()
            invariant
                i <= block.instrs.len(),
                forall|k: int|
                    0 <= k < i ==> inst_ready(
                        program@,
                        frame@,
                        all,
                        #[trigger] all[b as int].instrs[k],
                    ),
            decreases block.instrs.len() - i,
        {
            assert(all[b as int].instrs[i as int] == block.instrs@[i as int]@);
            if !is_inst_ready(program, &frame, &index, &block.instrs[i], Ghost(all)) {
                return false;
            }
            i = i + 1;
        }
        b = b + 1;
    }
    true
}

fn is_global_ready(program: &IrProgram, g: &IrGlobal) -> (r: bool)
    ensures
        r == global_ready(program@, g@),
{
    g.name < program.global_names.len() && match &g.init {
        IrGlobalInit::Zero => frame::size_of_type(&g.ty).is_some(),
        IrGlobalInit::Values(_) => true,
    }
}

/// Whether a program can be written.
#[verifier::loop_isolation(false)]
pub fn is_ready(program: &IrProgram) -> (r: bool)
    ensures
        r == ready(program@),
{
    let mut i: usize = 0;
    while i < program.globals.len()
        invariant
            i <= program.globals.len(),
            forall|k: int| 0 <= k < i ==> global_ready(program@, #[trigger] program@.globals[k]),
        decreases program.globals.len() - i,
    {
        assert(program@.globals[i as int] == program.globals@[i as int]@);
        if !is_global_ready(program, &program.globals[i]) {
            return false;
        }
        i = i + 1;
    }
    let mut blocks: usize = 0;
    let mut k: usize = 0;
    while k < program.funcs.len()
        invariant
            k <= program.funcs.len(),
            blocks == blocks_before(program@.funcs, k as int),
            forall|j: int| 0 <= j < k ==> func_ready(program@, #[trigger] program@.funcs[j]),
        decreases program.funcs.len() - k,
    {
        let func = &program.funcs[k];
        assert(program@.funcs[k as int] == func@);
        if !is_func_ready(program, func) {
            return false;
        }
        match blocks.checked_add(func.blocks.len()) {
            Some(n) => {
                blocks = n;
            },
            None => {
                proof {
                    blocks_before_grows(program@.funcs, k + 1, program@.funcs.len() as int);
                }
                return false;
            },
        }
        k = k + 1;
    }
    true
}

} // verus!

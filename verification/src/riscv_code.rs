//! What the code of a function with a frame does.
//!
//! Each SSA value and each parameter has a place in the frame. Running the code of an instruction
//! on the machine does to these places and to the rest of memory what the instruction means.

use crate::cfg;
use crate::frame::{self, FrameV};
use crate::ir::{self, BlockV, FuncV, InstV, IrArithOp, IrCmpOp, IrOperand, ProgV};
use crate::ir_to_riscv;
use crate::meaning::{self, MachineV, StateV};
use crate::opt::const_fold;
use crate::reading::{is_word, whole_lines};
use crate::riscv_machine::{
    self, address, executed, get, is_straight, left, listing, register, run, straight, Exit,
    Line, Machine, Op, Outside, Reg,
};
use crate::riscv_reading::{self, names};
use crate::text;
use crate::words::{self, divides, wrap};
use vstd::prelude::*;

verus! {

// ── Places ───────────────────────────────────────────────────────────────────

/// The address at an offset from the stack pointer.
pub open spec fn at_offset(m: Machine, offset: int) -> i32 {
    wrap(m.regs[Reg::Sp] + offset)
}

/// The word at an offset from the stack pointer.
pub open spec fn word(m: Machine, offset: int) -> i32 {
    m.mem[at_offset(m, offset)]
}

/// What an operand is on the machine: an SSA value and a parameter are what their places hold, a
/// variable is the address of its place or of its symbol.
pub open spec fn operand(
    p: ProgV,
    fr: FrameV,
    out: Outside,
    m: Machine,
    op: IrOperand,
) -> i32 {
    match op {
        IrOperand::Int(n) => n,
        IrOperand::Local(l) => word(m, frame::slot(fr, l) as int),
        IrOperand::Global(g) => if fr.spills.contains_key(g) {
            word(m, fr.spills[g] as int)
        } else if fr.stack.contains_key(g) {
            word(m, fr.stack[g] as int)
        } else if fr.vars.contains_key(g) {
            at_offset(m, fr.vars[g] as int)
        } else {
            (out.address)(ir_to_riscv::bare(p.global_names[g as int]))
        },
        IrOperand::Undef => 0,
    }
}

/// Whether an operand has a place: a parameter that comes in a register is kept in the frame, and a
/// symbol is a word.
pub open spec fn has_place(p: ProgV, fr: FrameV, op: IrOperand) -> bool {
    op matches IrOperand::Global(g) ==> {
        &&& fr.regs.contains_key(g) ==> fr.spills.contains_key(g)
        &&& !fr.spills.contains_key(g) && !fr.stack.contains_key(g) && !fr.vars.contains_key(g)
            ==> g < p.global_names.len() && is_word(ir_to_riscv::bare(p.global_names[g as int]))
    }
}

/// Whether an operand is loaded from an offset that does not fit an instruction.
pub open spec fn is_far(fr: FrameV, op: IrOperand) -> bool {
    match op {
        IrOperand::Local(l) => !ir_to_riscv::is_short(frame::slot(fr, l) as int),
        IrOperand::Global(g) => if fr.spills.contains_key(g) {
            !ir_to_riscv::is_short(fr.spills[g] as int)
        } else {
            fr.stack.contains_key(g) && !ir_to_riscv::is_short(fr.stack[g] as int)
        },
        _ => false,
    }
}

/// Whether a register is one that the code of an instruction may change.
pub open spec fn is_scratch(r: Reg) -> bool {
    r == Reg::T(0) || r == Reg::T(1) || r == Reg::T(2) || r == Reg::T(3) || r == Reg::A(0)
}

/// A machine on which only scratch registers have changed.
pub open spec fn keeps_registers(m: Machine, n: Machine) -> bool {
    forall|r: Reg| !is_scratch(r) ==> #[trigger] n.regs[r] == m.regs[r]
}

// ── Steps ────────────────────────────────────────────────────────────────────

proof fn straight_one(out: Outside, a: Line, m: Machine)
    ensures
        straight(out, seq![a], m) == executed(out, a, m),
        straight(out, Seq::empty(), m) == m,
{
    assert(seq![a].drop_last() =~= Seq::empty());
    assert(straight(out, seq![a].drop_last(), m) == m);
}

/// What two lines do.
pub proof fn straight_two(out: Outside, a: Line, b: Line, m: Machine)
    ensures
        straight(out, seq![a, b], m) == executed(out, b, executed(out, a, m)),
{
    assert(seq![a, b].drop_last() =~= seq![a]);
    straight_one(out, a, m);
}

proof fn straight_three(out: Outside, a: Line, b: Line, c: Line, m: Machine)
    ensures
        straight(out, seq![a, b, c], m) == executed(out, c, executed(out, b, executed(out, a, m))),
{
    assert(seq![a, b, c].drop_last() =~= seq![a, b]);
    straight_two(out, a, b, m);
}

/// A word modulo 2^32 is itself.
pub proof fn words_wrap(v: i32)
    ensures
        wrap(v as int) == v,
        wrap(v + 0) == v,
{
    words::wrap_is_unique(v as int, v);
}

/// Code that does not send control elsewhere, and what it does.
pub open spec fn does(out: Outside, code: Seq<char>, m: Machine, n: Machine) -> bool {
    whole_lines(code) && is_straight(listing(code)) && straight(out, listing(code), m) == n
}

/// Pieces of code do what they do one after another.
pub proof fn does_both(
    out: Outside,
    x: Seq<char>,
    y: Seq<char>,
    a: Machine,
    b: Machine,
    c: Machine,
)
    requires
        does(out, x, a, b),
        does(out, y, b, c),
    ensures
        does(out, x + y, a, c),
{
    riscv_machine::listing_of_two(x, y);
    riscv_machine::straight_of_two(out, listing(x), listing(y), a);
    if y.len() > 0 {
        assert((x + y).last() == y.last());
    } else {
        assert(x + y =~= x);
    }
}

/// No code does nothing.
pub proof fn nothing_does(out: Outside, m: Machine)
    ensures
        does(out, Seq::empty(), m, m),
{
    assert(listing(Seq::empty()) =~= Seq::<Line>::empty());
}

/// One line of code does what it does.
pub proof fn line_does(out: Outside, code: Seq<char>, l: Line, m: Machine)
    requires
        whole_lines(code),
        listing(code) == seq![l],
        !riscv_machine::is_control(l),
    ensures
        does(out, code, m, executed(out, l, m)),
{
    straight_one(out, l, m);
}

/// Loading a word relative to the stack pointer.
pub proof fn lw_does(
    out: Outside,
    d: Seq<char>,
    rd: Reg,
    offset: i32,
    m: Machine,
) -> (n: Machine)
    requires
        names(d, rd),
        !(rd is Zero),
    ensures
        does(out, ir_to_riscv::lw(d, offset), m, n),
        n.mem == m.mem,
        n.regs[rd] == word(m, offset as int),
        forall|r: Reg|
            r != rd && (r != Reg::T(0) || ir_to_riscv::is_short(offset as int))
                ==> #[trigger] n.regs[r] == m.regs[r],
{
    riscv_reading::lw_is_read(d, rd, offset);
    words_wrap(offset);
    words_wrap(at_offset(m, offset as int));
    let off = offset as int;
    if ir_to_riscv::is_short(off) {
        let l = Line::Lw { rd, offset: off, base: Reg::Sp };
        straight_one(out, l, m);
        executed(out, l, m)
    } else {
        let a = Line::Li { rd: Reg::T(0), imm: off };
        let b = Line::Compute { op: Op::Add, rd: Reg::T(0), a: Reg::Sp, b: Reg::T(0) };
        let c = Line::Lw { rd, offset: 0, base: Reg::T(0) };
        straight_three(out, a, b, c, m);
        executed(out, c, executed(out, b, executed(out, a, m)))
    }
}

/// Storing a word relative to the stack pointer.
pub proof fn sw_does(
    out: Outside,
    d: Seq<char>,
    rs: Reg,
    offset: i32,
    m: Machine,
) -> (n: Machine)
    requires
        names(d, rs),
        !(rs is Zero),
    ensures
        does(out, ir_to_riscv::sw(d, offset), m, n),
        n.mem == m.mem.insert(at_offset(m, offset as int), m.regs[rs]),
        forall|r: Reg|
            r != riscv_reading::spare(rs) || ir_to_riscv::is_short(offset as int)
                ==> #[trigger] n.regs[r] == m.regs[r],
{
    riscv_reading::sw_is_read(d, rs, offset);
    words_wrap(offset);
    words_wrap(at_offset(m, offset as int));
    let off = offset as int;
    let s = riscv_reading::spare(rs);
    if ir_to_riscv::is_short(off) {
        let l = Line::Sw { rs, offset: off, base: Reg::Sp };
        straight_one(out, l, m);
        executed(out, l, m)
    } else {
        let a = Line::Li { rd: s, imm: off };
        let b = Line::Compute { op: Op::Add, rd: s, a: Reg::Sp, b: s };
        let c = Line::Sw { rs, offset: 0, base: s };
        straight_three(out, a, b, c, m);
        executed(out, c, executed(out, b, executed(out, a, m)))
    }
}

/// Computing an address relative to the stack pointer.
proof fn addr_does(
    out: Outside,
    d: Seq<char>,
    rd: Reg,
    offset: i32,
    m: Machine,
) -> (n: Machine)
    requires
        names(d, rd),
        !(rd is Zero),
        rd != Reg::Sp,
    ensures
        does(out, ir_to_riscv::addr(d, offset), m, n),
        n.mem == m.mem,
        n.regs[rd] == at_offset(m, offset as int),
        forall|r: Reg| r != rd ==> #[trigger] n.regs[r] == m.regs[r],
{
    riscv_reading::addr_is_read(d, rd, offset);
    words_wrap(offset);
    let off = offset as int;
    if ir_to_riscv::is_short(off) {
        let l = Line::ComputeImm { op: Op::Add, rd, a: Reg::Sp, imm: off };
        straight_one(out, l, m);
        executed(out, l, m)
    } else {
        let a = Line::Li { rd, imm: off };
        let b = Line::Compute { op: Op::Add, rd, a: Reg::Sp, b: rd };
        straight_two(out, a, b, m);
        executed(out, b, executed(out, a, m))
    }
}

/// Putting an operand in a register.
pub proof fn operand_loads(
    p: ProgV,
    fr: FrameV,
    out: Outside,
    op: IrOperand,
    d: Seq<char>,
    rd: Reg,
    m: Machine,
) -> (n: Machine)
    requires
        has_place(p, fr, op),
        names(d, rd),
        !(rd is Zero),
        rd != Reg::Sp,
    ensures
        ir_to_riscv::op_in(p, fr, op, d).1 == d,
        does(out, ir_to_riscv::op_in(p, fr, op, d).0, m, n),
        n.mem == m.mem,
        n.regs[rd] == operand(p, fr, out, m, op),
        forall|r: Reg|
            r != rd && (r != Reg::T(0) || !is_far(fr, op)) ==> #[trigger] n.regs[r] == m.regs[r],
{
    match op {
        IrOperand::Int(v) => {
            riscv_reading::li_is_read(d, rd, v as int);
            words_wrap(v);
            let l = Line::Li { rd, imm: v as int };
            line_does(out, ir_to_riscv::li(d, v as int), l, m);
            executed(out, l, m)
        },
        IrOperand::Local(l) => lw_does(out, d, rd, frame::slot(fr, l), m),
        IrOperand::Global(g) => {
            if fr.spills.contains_key(g) {
                lw_does(out, d, rd, fr.spills[g], m)
            } else if fr.stack.contains_key(g) {
                lw_does(out, d, rd, fr.stack[g], m)
            } else if fr.vars.contains_key(g) {
                addr_does(out, d, rd, fr.vars[g], m)
            } else {
                let symbol = ir_to_riscv::bare(p.global_names[g as int]);
                riscv_reading::la_is_read(d, rd, symbol);
                let l = Line::La { rd, symbol };
                line_does(out, "  la "@ + d + ", "@ + symbol + "\n"@, l, m);
                executed(out, l, m)
            }
        },
        IrOperand::Undef => {
            riscv_reading::li_is_read(d, rd, 0);
            words_wrap(0);
            let l = Line::Li { rd, imm: 0 };
            line_does(out, ir_to_riscv::li(d, 0), l, m);
            executed(out, l, m)
        },
    }
}

/// Operands do not change where only scratch registers do.
proof fn operand_stays(
    p: ProgV,
    fr: FrameV,
    out: Outside,
    op: IrOperand,
    m: Machine,
    n: Machine,
)
    requires
        n.mem == m.mem,
        n.regs[Reg::Sp] == m.regs[Reg::Sp],
    ensures
        operand(p, fr, out, n, op) == operand(p, fr, out, m, op),
{
}

// ── What operations compute ──────────────────────────────────────────────────

/// The machine computes what arithmetic means, but for quotients that do not exist.
pub proof fn arithmetic_agrees(op: IrArithOp, l: i32, r: i32)
    requires
        (op is Div || op is Mod) ==> divides(l, r),
    ensures
        riscv_machine::computed(riscv_reading::arith_op(op), l, r) == const_fold::arith_value(
            op,
            l,
            r,
        ),
{
    words::wrapping_is_wrap(l, r);
    if divides(l, r) {
        words::division_rounds(l, r);
        let q = l.checked_div(r)->0;
        let s = l.checked_rem(r)->0;
        words_wrap(q);
        words_wrap(s);
    }
}

proof fn flips()
    ensures
        0i32 ^ 1i32 == 1i32,
        1i32 ^ 1i32 == 0i32,
{
    assert(0i32 ^ 1i32 == 1i32) by (bit_vector);
    assert(1i32 ^ 1i32 == 0i32) by (bit_vector);
}

/// A difference is zero only for what is the same.
proof fn difference_is_zero(l: i32, r: i32)
    ensures
        wrap(l - r) == 0 <==> l == r,
{
    if l == r {
        words::wrap_is_unique(0, 0);
    } else {
        let d = l - r;
        let m = words::modulus();
        if d > 0 {
            vstd::arithmetic::div_mod::lemma_small_mod(d as nat, m as nat);
        } else {
            vstd::arithmetic::div_mod::lemma_mod_add_multiples_vanish(d, m);
            vstd::arithmetic::div_mod::lemma_small_mod((d + m) as nat, m as nat);
        }
    }
}

/// Comparing two registers.
pub proof fn comparison_does(
    out: Outside,
    op: IrCmpOp,
    x: Seq<char>,
    l: Reg,
    y: Seq<char>,
    r: Reg,
    m: Machine,
) -> (n: Machine)
    requires
        names(x, l),
        names(y, r),
        !(l is Zero) && !(r is Zero),
    ensures
        does(out, ir_to_riscv::compare(op, x, y), m, n),
        n.mem == m.mem,
        n.regs[Reg::A(0)] == const_fold::compare_value(op, m.regs[l], m.regs[r]),
        forall|q: Reg| q != Reg::A(0) ==> #[trigger] n.regs[q] == m.regs[q],
{
    riscv_reading::compare_is_read(op, x, l, y, r);
    lines_compare(out, op, Reg::A(0), l, r, m)
}

/// The lines that compare two registers do so.
pub proof fn lines_compare(
    out: Outside,
    op: IrCmpOp,
    rd: Reg,
    l: Reg,
    r: Reg,
    m: Machine,
) -> (n: Machine)
    requires
        !(l is Zero) && !(r is Zero) && !(rd is Zero),
    ensures
        is_straight(riscv_reading::compare_lines(op, rd, l, r)),
        straight(out, riscv_reading::compare_lines(op, rd, l, r), m) == n,
        n.mem == m.mem,
        n.regs[rd] == const_fold::compare_value(op, m.regs[l], m.regs[r]),
        forall|q: Reg| q != rd ==> #[trigger] n.regs[q] == m.regs[q],
{
    let v = m.regs[l];
    let w = m.regs[r];
    flips();
    words_wrap(1);
    difference_is_zero(v, w);
    let lr = Line::Compute { op: Op::Slt, rd, a: l, b: r };
    let rl = Line::Compute { op: Op::Slt, rd, a: r, b: l };
    let sub = Line::Compute { op: Op::Sub, rd, a: l, b: r };
    let flip = Line::ComputeImm { op: Op::Xor, rd, a: rd, imm: 1 };
    let below = Line::ComputeImm { op: Op::Sltu, rd, a: rd, imm: 1 };
    let above = Line::Compute { op: Op::Sltu, rd, a: Reg::Zero, b: rd };
    straight_one(out, lr, m);
    straight_one(out, rl, m);
    straight_two(out, rl, flip, m);
    straight_two(out, lr, flip, m);
    straight_two(out, sub, below, m);
    straight_two(out, sub, above, m);
    straight(out, riscv_reading::compare_lines(op, rd, l, r), m)
}

// ── The code of instructions ─────────────────────────────────────────────────

/// What is left of a machine after the value of an instruction has been put in its place: nothing
/// else in memory has changed, and of the registers only scratch ones.
pub open spec fn placed(fr: FrameV, dest: usize, v: i32, m: Machine, n: Machine) -> bool {
    &&& n.mem == m.mem.insert(at_offset(m, frame::slot(fr, dest) as int), v)
    &&& keeps_registers(m, n)
}

/// Arithmetic puts what the operation means of its operands in the place of its result. The second
/// operand must be near: one that is far is loaded by way of the register of the first.
pub proof fn arithmetic_does(
    p: ProgV,
    fr: FrameV,
    out: Outside,
    dest: usize,
    op: IrArithOp,
    lhs: IrOperand,
    rhs: IrOperand,
    m: Machine,
) -> (n: Machine)
    requires
        has_place(p, fr, lhs),
        has_place(p, fr, rhs),
        !is_far(fr, rhs),
        (op is Div || op is Mod) ==> divides(operand(p, fr, out, m, lhs), operand(p, fr, out, m, rhs)),
    ensures
        does(out, ir_to_riscv::arith_code(p, fr, dest, op, lhs, rhs), m, n),
        placed(
            fr,
            dest,
            const_fold::arith_value(
                op,
                operand(p, fr, out, m, lhs),
                operand(p, fr, out, m, rhs),
            ),
            m,
            n,
        ),
{
    riscv_reading::registers_are_read();
    riscv_reading::mnemonics_are_words();
    let l = operand(p, fr, out, m, lhs);
    let r = operand(p, fr, out, m, rhs);
    let m1 = operand_loads(p, fr, out, lhs, "t0"@, Reg::T(0), m);
    let m2 = operand_loads(p, fr, out, rhs, "t1"@, Reg::T(1), m1);
    operand_stays(p, fr, out, rhs, m, m1);
    let o = riscv_reading::arith_op(op);
    riscv_reading::to_a0_from_is_read(
        ir_to_riscv::arith_name(op),
        o,
        "t0"@,
        Reg::T(0),
        "t1"@,
        Reg::T(1),
    );
    let line = Line::Compute { op: o, rd: Reg::A(0), a: Reg::T(0), b: Reg::T(1) };
    let code = ir_to_riscv::to_a0_from(ir_to_riscv::arith_name(op), "t0"@, "t1"@);
    line_does(out, code, line, m2);
    let m3 = executed(out, line, m2);
    arithmetic_agrees(op, l, r);
    let n = sw_does(out, "a0"@, Reg::A(0), frame::slot(fr, dest), m3);
    let a = ir_to_riscv::op_in(p, fr, lhs, "t0"@).0;
    let b = ir_to_riscv::op_in(p, fr, rhs, "t1"@).0;
    does_both(out, a, b, m, m1, m2);
    does_both(out, a + b, code, m, m2, m3);
    does_both(out, a + b + code, ir_to_riscv::sw("a0"@, frame::slot(fr, dest)), m, m3, n);
    n
}

/// A comparison puts one or zero in the place of its result.
pub proof fn compare_does(
    p: ProgV,
    fr: FrameV,
    out: Outside,
    dest: usize,
    op: IrCmpOp,
    lhs: IrOperand,
    rhs: IrOperand,
    m: Machine,
) -> (n: Machine)
    requires
        has_place(p, fr, lhs),
        has_place(p, fr, rhs),
        !is_far(fr, rhs),
    ensures
        does(out, ir_to_riscv::compare_code(p, fr, dest, op, lhs, rhs), m, n),
        placed(
            fr,
            dest,
            const_fold::compare_value(
                op,
                operand(p, fr, out, m, lhs),
                operand(p, fr, out, m, rhs),
            ),
            m,
            n,
        ),
{
    riscv_reading::registers_are_read();
    let m1 = operand_loads(p, fr, out, lhs, "t0"@, Reg::T(0), m);
    let m2 = operand_loads(p, fr, out, rhs, "t1"@, Reg::T(1), m1);
    operand_stays(p, fr, out, rhs, m, m1);
    let m3 = comparison_does(out, op, "t0"@, Reg::T(0), "t1"@, Reg::T(1), m2);
    let n = sw_does(out, "a0"@, Reg::A(0), frame::slot(fr, dest), m3);
    let a = ir_to_riscv::op_in(p, fr, lhs, "t0"@).0;
    let b = ir_to_riscv::op_in(p, fr, rhs, "t1"@).0;
    let code = ir_to_riscv::compare(op, "t0"@, "t1"@);
    does_both(out, a, b, m, m1, m2);
    does_both(out, a + b, code, m, m2, m3);
    does_both(out, a + b + code, ir_to_riscv::sw("a0"@, frame::slot(fr, dest)), m, m3, n);
    n
}

/// A load puts the word at an address in the place of its result.
pub proof fn load_does(
    p: ProgV,
    fr: FrameV,
    out: Outside,
    dest: usize,
    src: IrOperand,
    m: Machine,
) -> (n: Machine)
    requires
        has_place(p, fr, src),
    ensures
        does(out, ir_to_riscv::load_code(p, fr, dest, src), m, n),
        placed(fr, dest, m.mem[operand(p, fr, out, m, src)], m, n),
{
    riscv_reading::registers_are_read();
    let a = operand(p, fr, out, m, src);
    let m1 = operand_loads(p, fr, out, src, "t2"@, Reg::T(2), m);
    riscv_reading::indirect_is_read("t2"@, Reg::T(2), "t2"@, Reg::T(2));
    let line = Line::Lw { rd: Reg::T(0), offset: 0, base: Reg::T(2) };
    let code = "  lw t0, 0("@ + "t2"@ + ")\n"@;
    line_does(out, code, line, m1);
    words_wrap(a);
    let m2 = executed(out, line, m1);
    let n = sw_does(out, "t0"@, Reg::T(0), frame::slot(fr, dest), m2);
    let x = ir_to_riscv::op_in(p, fr, src, "t2"@).0;
    does_both(out, x, code, m, m1, m2);
    does_both(out, x + code, ir_to_riscv::sw("t0"@, frame::slot(fr, dest)), m, m2, n);
    n
}

/// A store puts a value at an address.
pub proof fn store_does(
    p: ProgV,
    fr: FrameV,
    out: Outside,
    value: IrOperand,
    ptr: IrOperand,
    m: Machine,
) -> (n: Machine)
    requires
        has_place(p, fr, value),
        has_place(p, fr, ptr),
    ensures
        does(out, ir_to_riscv::store_code(p, fr, value, ptr), m, n),
        n.mem == m.mem.insert(operand(p, fr, out, m, ptr), operand(p, fr, out, m, value)),
        keeps_registers(m, n),
{
    riscv_reading::registers_are_read();
    let a = operand(p, fr, out, m, ptr);
    let m1 = operand_loads(p, fr, out, value, "t1"@, Reg::T(1), m);
    let m2 = operand_loads(p, fr, out, ptr, "t2"@, Reg::T(2), m1);
    operand_stays(p, fr, out, ptr, m, m1);
    riscv_reading::indirect_is_read("t1"@, Reg::T(1), "t2"@, Reg::T(2));
    let line = Line::Sw { rs: Reg::T(1), offset: 0, base: Reg::T(2) };
    let code = "  sw "@ + "t1"@ + ", 0("@ + "t2"@ + ")\n"@;
    line_does(out, code, line, m2);
    words_wrap(a);
    let n = executed(out, line, m2);
    let x = ir_to_riscv::op_in(p, fr, value, "t1"@).0;
    let y = ir_to_riscv::op_in(p, fr, ptr, "t2"@).0;
    does_both(out, x, y, m, m1, m2);
    does_both(out, x + y, code, m, m2, n);
    n
}

/// The address of an element.
pub open spec fn element_address(base: i32, index: i32, size: i32) -> i32 {
    wrap(base + index * size)
}

/// Scaling an index and adding it to an address, modulo 2^32.
pub proof fn scaled(base: i32, index: i32, size: i32)
    ensures
        wrap(base + wrap(index * size)) == element_address(base, index, size),
        size == 4 ==> riscv_machine::computed(Op::Sll, index, wrap(2)) == wrap(index * size),
        size == 1 ==> index == wrap(index * size),
{
    let m = words::modulus();
    let x = index * size;
    let w = wrap(x);
    assert((x - w) % m == 0) by {
        vstd::arithmetic::div_mod::lemma_fundamental_div_mod(x, m);
        let q = x / m;
        if x % m > i32::MAX {
            assert(x - w == (q + 1) * m) by (nonlinear_arith)
                requires
                    x == m * q + x % m,
                    w == x % m - m,
            ;
            vstd::arithmetic::div_mod::lemma_mod_multiples_basic(q + 1, m);
        } else {
            assert(x - w == q * m) by (nonlinear_arith)
                requires
                    x == m * q + x % m,
                    w == x % m,
            ;
            vstd::arithmetic::div_mod::lemma_mod_multiples_basic(q, m);
        }
    }
    let e = wrap(base + w);
    assert((base + w - e) % m == 0) by {
        let y = base + w;
        vstd::arithmetic::div_mod::lemma_fundamental_div_mod(y, m);
        let q = y / m;
        if y % m > i32::MAX {
            assert(y - e == (q + 1) * m) by (nonlinear_arith)
                requires
                    y == m * q + y % m,
                    e == y % m - m,
            ;
            vstd::arithmetic::div_mod::lemma_mod_multiples_basic(q + 1, m);
        } else {
            assert(y - e == q * m) by (nonlinear_arith)
                requires
                    y == m * q + y % m,
                    e == y % m,
            ;
            vstd::arithmetic::div_mod::lemma_mod_multiples_basic(q, m);
        }
    }
    assert((base + x - e) % m == 0) by {
        let a = x - w;
        let b = base + w - e;
        assert(base + x - e == a + b);
        vstd::arithmetic::div_mod::lemma_mod_adds(a, b, m);
    }
    words::wrap_is_unique(base + x, e);
    words_wrap(2);
    if size == 4 {
        vstd::arithmetic::power2::lemma2_to64();
        assert(words::bits(2) % 32 == 2);
    }
    if size == 1 {
        words_wrap(index);
    }
}

/// Computing the address of an element puts it in the place of the result.
pub proof fn element_does(
    p: ProgV,
    fr: FrameV,
    out: Outside,
    dest: usize,
    ptr: IrOperand,
    index: IrOperand,
    size: i32,
    m: Machine,
) -> (n: Machine)
    requires
        has_place(p, fr, ptr),
        has_place(p, fr, index),
        !is_far(fr, index),
        size != 0,
    ensures
        does(out, ir_to_riscv::elem_code(p, fr, dest, ptr, index, size), m, n),
        placed(
            fr,
            dest,
            element_address(operand(p, fr, out, m, ptr), operand(p, fr, out, m, index), size),
            m,
            n,
        ),
{
    riscv_reading::registers_are_read();
    let b = operand(p, fr, out, m, ptr);
    let i = operand(p, fr, out, m, index);
    let m1 = operand_loads(p, fr, out, ptr, "t0"@, Reg::T(0), m);
    let m2 = operand_loads(p, fr, out, index, "t1"@, Reg::T(1), m1);
    operand_stays(p, fr, out, index, m, m1);
    scaled(b, i, size);
    words_wrap(size);
    riscv_reading::scale_is_read(size, "t1"@, Reg::T(1), "t1"@, Reg::T(1));
    let scale = ir_to_riscv::offset_mul(size, "t1"@, "t1"@);
    let m3 = straight(out, listing(scale), m2);
    if size == 1 {
        nothing_does(out, m2);
    } else if size == 4 {
        straight_one(
            out,
            Line::ComputeImm { op: Op::Sll, rd: Reg::T(1), a: Reg::T(1), imm: 2 },
            m2,
        );
    } else {
        straight_two(
            out,
            Line::Li { rd: Reg::T(3), imm: size as int },
            Line::Compute { op: Op::Mul, rd: Reg::T(1), a: Reg::T(1), b: Reg::T(3) },
            m2,
        );
    }
    assert(does(out, scale, m2, m3));
    assert(m3.regs[Reg::T(1)] == wrap(i * size));
    riscv_reading::sum_is_read("t0"@, Reg::T(0));
    let line = Line::Compute { op: Op::Add, rd: Reg::T(0), a: Reg::T(0), b: Reg::T(1) };
    let sum = "  add t0, "@ + "t0"@ + ", t1\n"@;
    line_does(out, sum, line, m3);
    let m4 = executed(out, line, m3);
    let n = sw_does(out, "t0"@, Reg::T(0), frame::slot(fr, dest), m4);
    let x = ir_to_riscv::op_in(p, fr, ptr, "t0"@).0;
    let y = ir_to_riscv::op_in(p, fr, index, "t1"@).0;
    does_both(out, x, y, m, m1, m2);
    does_both(out, x + y, scale, m, m2, m3);
    does_both(out, x + y + scale, sum, m, m3, m4);
    does_both(out, x + y + scale + sum, ir_to_riscv::sw("t0"@, frame::slot(fr, dest)), m, m4, n);
    n
}

// ── Branches and returns ─────────────────────────────────────────────────────

/// Control that runs through code comes to what follows it.
pub proof fn runs_on(
    out: Outside,
    x: Seq<char>,
    y: Seq<char>,
    m: Machine,
    n: Machine,
)
    requires
        does(out, x, m, n),
    ensures
        run(out, x + y, m) == run(out, y, n),
{
    riscv_machine::listing_of_two(x, y);
    riscv_machine::left_after(out, listing(x), listing(y), m);
    riscv_machine::left_shifts(out, listing(x), listing(y), 0, n);
}

/// The code of a branch reaches the label of its first block where the condition is not zero, and
/// of its second where it is.
pub proof fn branch_goes(
    p: ProgV,
    fr: FrameV,
    out: Outside,
    cond: IrOperand,
    yes: Seq<char>,
    no: Seq<char>,
    m: Machine,
) -> (n: Machine)
    requires
        has_place(p, fr, cond),
        is_word(yes),
        is_word(no),
    ensures
        run(out, ir_to_riscv::br_code(p, fr, cond, yes, no), m) == Exit::To(
            if operand(p, fr, out, m, cond) != 0 {
                yes
            } else {
                no
            },
            n,
        ),
        n.mem == m.mem,
        keeps_registers(m, n),
{
    riscv_reading::registers_are_read();
    let n = operand_loads(p, fr, out, cond, "t0"@, Reg::T(0), m);
    riscv_reading::branch_is_read("t0"@, Reg::T(0), yes, no);
    let x = ir_to_riscv::op_in(p, fr, cond, "t0"@).0;
    let y = "  bnez "@ + "t0"@ + ", "@ + yes + "\n"@;
    let z = "  j "@ + no + "\n"@;
    assert(x + y + z =~= x + (y + z));
    runs_on(out, x, y + z, m, n);
    let ls = listing(y + z);
    assert(left(out, ls, 1, n) == Exit::To(no, n));
    assert(left(out, ls, 0, n) == if n.regs[Reg::T(0)] != 0 {
        Exit::To(yes, n)
    } else {
        left(out, ls, 1, n)
    });
    n
}

/// The code of a jump reaches its label.
pub proof fn jump_goes(out: Outside, label: Seq<char>, m: Machine)
    requires
        is_word(label),
    ensures
        run(out, "  j "@ + label + "\n"@, m) == Exit::To(label, m),
{
    riscv_reading::registers_are_read();
    riscv_reading::branch_is_read("t0"@, Reg::T(0), label, label);
}

/// Moving the stack pointer.
pub proof fn addi_sp_does(out: Outside, delta: i32, m: Machine) -> (n: Machine)
    ensures
        does(out, ir_to_riscv::addi_sp(delta), m, n),
        n.mem == m.mem,
        n.regs[Reg::Sp] == at_offset(m, delta as int),
        forall|r: Reg|
            r != Reg::Sp && (r != Reg::T(0) || ir_to_riscv::is_short(delta as int))
                ==> #[trigger] n.regs[r] == m.regs[r],
{
    riscv_reading::addi_sp_is_read(delta);
    words_wrap(delta);
    let d = delta as int;
    if ir_to_riscv::is_short(d) {
        let l = Line::ComputeImm { op: Op::Add, rd: Reg::Sp, a: Reg::Sp, imm: d };
        straight_one(out, l, m);
        executed(out, l, m)
    } else {
        let a = Line::Li { rd: Reg::T(0), imm: d };
        let b = Line::Compute { op: Op::Add, rd: Reg::Sp, a: Reg::Sp, b: Reg::T(0) };
        straight_two(out, a, b, m);
        executed(out, b, executed(out, a, m))
    }
}

/// Leaving a function takes the return address back where it was kept, and the frame away.
pub proof fn leave_goes(fr: FrameV, out: Outside, m: Machine) -> (n: Machine)
    ensures
        run(out, ir_to_riscv::leave(fr), m) == Exit::Returns(n),
        n.mem == m.mem,
        n.regs[Reg::Sp] == at_offset(m, fr.size as int),
        n.regs[Reg::Ra] == if fr.calls {
            word(m, fr.ra as int)
        } else {
            m.regs[Reg::Ra]
        },
        forall|r: Reg|
            r != Reg::Sp && r != Reg::Ra && r != Reg::T(0) ==> #[trigger] n.regs[r] == m.regs[r],
{
    riscv_reading::registers_are_read();
    let m1 = if fr.calls {
        lw_does(out, "ra"@, Reg::Ra, fr.ra, m)
    } else {
        nothing_does(out, m);
        m
    };
    let n = addi_sp_does(out, fr.size, m1);
    let x = ir_to_riscv::ra_back(fr);
    let y = ir_to_riscv::addi_sp(fr.size);
    does_both(out, x, y, m, m1, n);
    riscv_reading::call_is_read("ra"@);
    runs_on(out, x + y, "  ret\n"@, m, n);
    assert(left(out, listing("  ret\n"@), 0, n) == Exit::Returns(n));
    n
}

/// A return leaves its value in `a0`.
pub proof fn return_goes(
    p: ProgV,
    fr: FrameV,
    out: Outside,
    value: Option<IrOperand>,
    m: Machine,
) -> (n: Machine)
    requires
        value matches Some(v) ==> has_place(p, fr, v),
    ensures
        run(out, ir_to_riscv::ret_code(p, fr, value), m) == Exit::Returns(n),
        n.mem == m.mem,
        n.regs[Reg::Sp] == at_offset(m, fr.size as int),
        n.regs[Reg::Ra] == if fr.calls {
            word(m, fr.ra as int)
        } else {
            m.regs[Reg::Ra]
        },
        value matches Some(v) ==> n.regs[Reg::A(0)] == operand(p, fr, out, m, v),
{
    match value {
        Some(v) => {
            riscv_reading::registers_are_read();
            let m1 = operand_loads(p, fr, out, v, "a0"@, Reg::A(0), m);
            riscv_reading::to_a0_is_read("a0"@, Reg::A(0));
            nothing_does(out, m1);
            let x = ir_to_riscv::op_in(p, fr, v, "a0"@).0;
            let y = ir_to_riscv::to_a0("a0"@);
            assert(y =~= Seq::empty());
            does_both(out, x, y, m, m1, m1);
            let n = leave_goes(fr, out, m1);
            runs_on(out, x + y, ir_to_riscv::leave(fr), m, m1);
            n
        },
        None => leave_goes(fr, out, m),
    }
}

} // verus!

//! How functions are entered: what the code before a call and at the beginning of a function does.
//!
//! The first eight arguments of a call are in `a0` to `a7`; the others are on the stack, the ninth
//! at the stack pointer and each further one a word above the one before it.

use crate::frame::{self, FrameV};
use crate::ir::{self, FuncV, IrOperand, IrType, ProgV};
use crate::ir_to_riscv;
use crate::reading::{self, is_word, whole_lines};
use crate::riscv_code::{
    self, addi_sp_does, at_offset, does, does_both, has_place, lw_does, nothing_does, operand,
    operand_loads, sw_does, word, words_wrap,
};
use crate::riscv_machine::{
    self, executed, listing, run, straight, Exit, Line, Machine, Op, Outside, Reg,
};
use crate::riscv_meaning::offsets_differ;
use crate::riscv_reading::{self, names};
use crate::text;
use crate::words::{self, wrap};
use vstd::prelude::*;

verus! {

// ── Offsets ──────────────────────────────────────────────────────────────────

/// An offset from an offset is the sum of both.
pub proof fn offsets_add(x: int, y: int)
    ensures
        wrap(wrap(x) + y) == wrap(x + y),
{
    let m = words::modulus();
    let w = wrap(x);
    vstd::arithmetic::div_mod::lemma_fundamental_div_mod(x, m);
    let q = x / m;
    let k = if x % m > i32::MAX {
        q + 1
    } else {
        q
    };
    assert(x - w == k * m) by (nonlinear_arith)
        requires
            x == m * q + x % m,
            (k == q + 1 && w == x % m - m) || (k == q && w == x % m),
    ;
    vstd::arithmetic::div_mod::lemma_mod_multiples_vanish(k, w + y, m);
    assert(m * k == k * m) by (nonlinear_arith);
    assert((x + y) % m == (w + y) % m);
}

/// Offsets above and below the stack pointer are different addresses.
pub proof fn all_offsets_differ(m: Machine, a: int, b: int)
    requires
        -i32::MAX <= a <= i32::MAX,
        -i32::MAX <= b <= i32::MAX,
    ensures
        at_offset(m, a) == at_offset(m, b) <==> a == b,
{
    let sp = m.regs[Reg::Sp] as int;
    let k = words::modulus();
    if at_offset(m, a) == at_offset(m, b) {
        let x = sp + a;
        let y = sp + b;
        assert(x % k == y % k);
        vstd::arithmetic::div_mod::lemma_fundamental_div_mod(x, k);
        vstd::arithmetic::div_mod::lemma_fundamental_div_mod(y, k);
        let q = x / k;
        let r = y / k;
        assert(a - b == k * (q - r)) by (nonlinear_arith)
            requires
                x == k * q + x % k,
                y == k * r + y % k,
                x % k == y % k,
                x - y == a - b,
        ;
        assert(q == r) by (nonlinear_arith)
            requires
                a - b == k * (q - r),
                -0x1_0000_0000 < a - b < 0x1_0000_0000,
                k == 0x1_0000_0000,
        ;
    }
}

// ── Arguments ────────────────────────────────────────────────────────────────

/// Where an argument is kept before a call.
pub open spec fn kept_at(fr: FrameV, m: Machine, i: int) -> i32 {
    at_offset(m, fr.args + 4 * i)
}

/// Where the word that is pushed as the `i`th is, from the stack pointer before.
pub open spec fn pushed_at(m: Machine, i: int) -> i32 {
    at_offset(m, -4 * (i + 1))
}

/// A frame has room for a number of arguments: what else it holds lies below or above it.
pub open spec fn has_room(fr: FrameV, n: int) -> bool {
    &&& 0 <= fr.args && 0 <= n && fr.args + 4 * n <= fr.ra
    &&& forall|l: usize| #[trigger]
        fr.locals.contains_key(l) ==> 0 <= fr.locals[l] < fr.args
    &&& forall|g: usize| #[trigger]
        fr.spills.contains_key(g) ==> fr.args + 4 * n <= fr.spills[g]
    &&& forall|g: usize| #[trigger] fr.stack.contains_key(g) ==> fr.args + 4 * n <= fr.stack[g]
}

/// Whether an operand is in the frame: an SSA value has been given a place.
pub open spec fn in_frame(p: ProgV, fr: FrameV, op: IrOperand) -> bool {
    has_place(p, fr, op) && (op matches IrOperand::Local(l) ==> fr.locals.contains_key(l))
}

/// The first `n` arguments are kept, and nothing else in memory has changed.
pub open spec fn are_kept(
    p: ProgV,
    fr: FrameV,
    out: Outside,
    args: Seq<IrOperand>,
    n: int,
    m: Machine,
    r: Machine,
) -> bool {
    &&& forall|i: int|
        0 <= i < n ==> #[trigger] r.mem[kept_at(fr, m, i)] == operand(p, fr, out, m, args[i])
    &&& forall|a: i32|
        (forall|i: int| 0 <= i < n ==> a != #[trigger] kept_at(fr, m, i)) ==> #[trigger] r.mem[a]
            == m.mem[a]
    &&& forall|q: Reg| q != Reg::A(0) && q != Reg::T(0) ==> #[trigger] r.regs[q] == m.regs[q]
}

#[verifier::rlimit(80)]
#[verifier::spinoff_prover]
proof fn arguments_are_kept(
    p: ProgV,
    fr: FrameV,
    out: Outside,
    args: Seq<IrOperand>,
    n: int,
    m: Machine,
) -> (r: Machine)
    requires
        0 <= n <= args.len(),
        has_room(fr, args.len() as int),
        forall|i: int| 0 <= i < args.len() ==> in_frame(p, fr, #[trigger] args[i]),
    ensures
        does(out, ir_to_riscv::args_kept(p, fr, args, n), m, r),
        are_kept(p, fr, out, args, n, m, r),
    decreases n,
{
    if n <= 0 {
        nothing_does(out, m);
        m
    } else {
        riscv_reading::registers_are_read();
        let k = n - 1;
        let m1 = arguments_are_kept(p, fr, out, args, k, m);
        let op = args[k];
        assert(in_frame(p, fr, op));
        assert(m1.regs[Reg::Sp] == m.regs[Reg::Sp]);
        let v = operand(p, fr, out, m, op);
        assert(operand(p, fr, out, m1, op) == v) by {
            match op {
                IrOperand::Local(l) => {
                    let o = fr.locals[l] as int;
                    assert forall|i: int| 0 <= i < k implies at_offset(m, o)
                        != #[trigger] kept_at(fr, m, i) by {
                        offsets_differ(m, o, fr.args + 4 * i);
                    }
                    assert(m1.mem[at_offset(m, o)] == m.mem[at_offset(m, o)]);
                },
                IrOperand::Global(g) => {
                    if fr.spills.contains_key(g) {
                        let o = fr.spills[g] as int;
                        assert forall|i: int| 0 <= i < k implies at_offset(m, o)
                            != #[trigger] kept_at(fr, m, i) by {
                            offsets_differ(m, o, fr.args + 4 * i);
                        }
                        assert(m1.mem[at_offset(m, o)] == m.mem[at_offset(m, o)]);
                    } else if fr.stack.contains_key(g) {
                        let o = fr.stack[g] as int;
                        assert forall|i: int| 0 <= i < k implies at_offset(m, o)
                            != #[trigger] kept_at(fr, m, i) by {
                            offsets_differ(m, o, fr.args + 4 * i);
                        }
                        assert(m1.mem[at_offset(m, o)] == m.mem[at_offset(m, o)]);
                    }
                },
                _ => {},
            }
        }
        let m2 = operand_loads(p, fr, out, op, "a0"@, Reg::A(0), m1);
        let x = ir_to_riscv::op_in(p, fr, op, "a0"@).0;
        let y = ir_to_riscv::to_a0("a0"@);
        assert(y =~= Seq::empty());
        nothing_does(out, m2);
        does_both(out, x, y, m1, m2, m2);
        let offset = (fr.args + k * 4) as i32;
        let r = sw_does(out, "a0"@, Reg::A(0), offset, m2);
        does_both(out, x + y, ir_to_riscv::sw("a0"@, offset), m1, m2, r);
        does_both(
            out,
            ir_to_riscv::args_kept(p, fr, args, k),
            x + y + ir_to_riscv::sw("a0"@, offset),
            m,
            m1,
            r,
        );
        assert(at_offset(m2, offset as int) == kept_at(fr, m, k));
        assert forall|i: int| 0 <= i < n implies #[trigger] r.mem[kept_at(fr, m, i)] == operand(
            p,
            fr,
            out,
            m,
            args[i],
        ) by {
            offsets_differ(m, fr.args + 4 * i, fr.args + 4 * k);
            if i < k {
                assert(m1.mem[kept_at(fr, m, i)] == operand(p, fr, out, m, args[i]));
            }
        }
        assert forall|a: i32|
            (forall|i: int| 0 <= i < n ==> a != #[trigger] kept_at(fr, m, i)) implies #[trigger] r.mem[a]
            == m.mem[a] by {
            assert(a != kept_at(fr, m, k));
            assert(m1.mem[a] == m.mem[a]);
        }
        r
    }
}

/// The last `k` of `n` kept arguments are pushed, and nothing else in memory has changed.
pub open spec fn are_pushed(fr: FrameV, n: int, k: int, m: Machine, r: Machine) -> bool {
    &&& r.regs[Reg::Sp] == at_offset(m, -4 * k)
    &&& forall|i: int|
        0 <= i < k ==> #[trigger] r.mem[pushed_at(m, i)] == m.mem[kept_at(fr, m, n - 1 - i)]
    &&& forall|a: i32|
        (forall|i: int| 0 <= i < k ==> a != #[trigger] pushed_at(m, i)) ==> #[trigger] r.mem[a]
            == m.mem[a]
    &&& forall|q: Reg| q != Reg::Sp && q != Reg::T(0) ==> #[trigger] r.regs[q] == m.regs[q]
}

/// The lines that move the stack pointer by a word and store a word there.
pub proof fn push_lines_are_read()
    ensures
        whole_lines("  addi sp, sp, -4\n"@),
        listing("  addi sp, sp, -4\n"@) == seq![
            Line::ComputeImm { op: Op::Add, rd: Reg::Sp, a: Reg::Sp, imm: -4 },
        ],
        whole_lines("  sw t0, 0(sp)\n"@),
        listing("  sw t0, 0(sp)\n"@) == seq![
            Line::Sw { rs: Reg::T(0), offset: 0, base: Reg::Sp },
        ],
{
    riscv_reading::registers_are_read();
    riscv_reading::mnemonics_are_words();
    riscv_reading::zero_is_read();
    reveal_strlit("  ");
    reveal_strlit(" ");
    reveal_strlit(", ");
    reveal_strlit("\n");
    reveal_strlit("(");
    reveal_strlit(")\n");
    reveal_strlit("addi");
    reveal_strlit("sw");
    reveal_strlit("sp");
    reveal_strlit("t0");
    reveal_strlit("0");
    reveal_strlit("-4");
    reveal_strlit("  addi sp, sp, -4\n");
    reveal_strlit("  sw t0, 0(sp)\n");
    riscv_reading::compute_imm_is_read(
        "addi"@,
        Op::Add,
        "sp"@,
        Reg::Sp,
        "sp"@,
        Reg::Sp,
        "-4"@,
        -4,
    );
    riscv_reading::load_is_read("t0"@, Reg::T(0), "0"@, 0, "sp"@, Reg::Sp);
    assert("  addi sp, sp, -4\n"@ =~= riscv_reading::four("addi"@, "sp"@, "sp"@, "-4"@));
    assert("  sw t0, 0(sp)\n"@ =~= riscv_reading::memory("sw"@, "t0"@, "0"@, "sp"@));
}

proof fn one_line(out: Outside, code: Seq<char>, l: Line, m: Machine)
    requires
        whole_lines(code),
        listing(code) == seq![l],
        !riscv_machine::is_control(l),
    ensures
        does(out, code, m, executed(out, l, m)),
{
    assert(seq![l].drop_last() =~= Seq::empty());
    assert(straight(out, seq![l].drop_last(), m) == m);
}

#[verifier::rlimit(80)]
#[verifier::spinoff_prover]
proof fn arguments_are_pushed(fr: FrameV, out: Outside, n: int, k: int, m: Machine) -> (r: Machine)
    requires
        0 <= k <= n,
        has_room(fr, n),
    ensures
        does(out, ir_to_riscv::args_pushed(fr, n, k), m, r),
        are_pushed(fr, n, k, m, r),
    decreases k,
{
    if k <= 0 {
        nothing_does(out, m);
        words_wrap(m.regs[Reg::Sp]);
        m
    } else {
        riscv_reading::registers_are_read();
        push_lines_are_read();
        let j = k - 1;
        let sp = m.regs[Reg::Sp] as int;
        let m1 = arguments_are_pushed(fr, out, n, j, m);
        let down = Line::ComputeImm { op: Op::Add, rd: Reg::Sp, a: Reg::Sp, imm: -4 };
        one_line(out, "  addi sp, sp, -4\n"@, down, m1);
        let m2 = executed(out, down, m1);
        words::wrap_is_unique(-4, (-4) as i32);
        offsets_add(sp - 4 * j, -4);
        assert(m2.regs[Reg::Sp] == at_offset(m, -4 * k));
        let offset = (fr.args + n * 4) as i32;
        let m3 = lw_does(out, "t0"@, Reg::T(0), offset, m2);
        offsets_add(sp - 4 * k, offset as int);
        assert(at_offset(m2, offset as int) == kept_at(fr, m, n - 1 - j));
        let store = Line::Sw { rs: Reg::T(0), offset: 0, base: Reg::Sp };
        one_line(out, "  sw t0, 0(sp)\n"@, store, m3);
        let r = executed(out, store, m3);
        words_wrap(m3.regs[Reg::Sp]);
        let x = "  addi sp, sp, -4\n"@;
        let y = ir_to_riscv::lw("t0"@, offset);
        let z = "  sw t0, 0(sp)\n"@;
        does_both(out, x, y, m1, m2, m3);
        does_both(out, x + y, z, m1, m3, r);
        does_both(out, ir_to_riscv::args_pushed(fr, n, j), x + y + z, m, m1, r);
        assert(r.mem == m1.mem.insert(pushed_at(m, j), m1.mem[kept_at(fr, m, n - 1 - j)]));
        assert forall|i: int| 0 <= i < j implies kept_at(fr, m, n - 1 - j) != #[trigger] pushed_at(
            m,
            i,
        ) by {
            all_offsets_differ(m, fr.args + 4 * (n - 1 - j), -4 * (i + 1));
        }
        assert(m1.mem[kept_at(fr, m, n - 1 - j)] == m.mem[kept_at(fr, m, n - 1 - j)]);
        assert forall|i: int| 0 <= i < k implies #[trigger] r.mem[pushed_at(m, i)]
            == m.mem[kept_at(fr, m, n - 1 - i)] by {
            all_offsets_differ(m, -4 * (i + 1), -4 * (j + 1));
            if i < j {
                assert(m1.mem[pushed_at(m, i)] == m.mem[kept_at(fr, m, n - 1 - i)]);
            }
        }
        assert forall|a: i32|
            (forall|i: int| 0 <= i < k ==> a != #[trigger] pushed_at(m, i)) implies #[trigger] r.mem[a]
            == m.mem[a] by {
            assert(a != pushed_at(m, j));
            assert(m1.mem[a] == m.mem[a]);
        }
        r
    }
}

/// The lines that load a word at the stack pointer into an argument register, and move on.
pub proof fn pop_lines_are_read(k: nat)
    requires
        k < 8,
    ensures
        ({
            let code = "  lw "@ + ir_to_riscv::arg_reg(k) + ", 0(sp)\n  addi sp, sp, 4\n"@;
            &&& whole_lines(code)
            &&& listing(code) == seq![
                Line::Lw { rd: Reg::A(k as int), offset: 0, base: Reg::Sp },
                Line::ComputeImm { op: Op::Add, rd: Reg::Sp, a: Reg::Sp, imm: 4 },
            ]
        }),
{
    riscv_reading::registers_are_read();
    riscv_reading::mnemonics_are_words();
    riscv_reading::zero_is_read();
    riscv_reading::argument_registers_are_read(k);
    reveal_strlit("  ");
    reveal_strlit(" ");
    reveal_strlit(", ");
    reveal_strlit("\n");
    reveal_strlit("(");
    reveal_strlit(")\n");
    reveal_strlit("addi");
    reveal_strlit("lw");
    reveal_strlit("sp");
    reveal_strlit("0");
    reveal_strlit("4");
    reveal_strlit("  lw ");
    reveal_strlit(", 0(sp)\n  addi sp, sp, 4\n");
    let a = ir_to_riscv::arg_reg(k);
    riscv_reading::load_is_read(a, Reg::A(k as int), "0"@, 0, "sp"@, Reg::Sp);
    riscv_reading::compute_imm_is_read("addi"@, Op::Add, "sp"@, Reg::Sp, "sp"@, Reg::Sp, "4"@, 4);
    let x = riscv_reading::memory("lw"@, a, "0"@, "sp"@);
    let y = riscv_reading::four("addi"@, "sp"@, "sp"@, "4"@);
    let code = "  lw "@ + a + ", 0(sp)\n  addi sp, sp, 4\n"@;
    assert(code =~= x + y);
    riscv_machine::listing_of_two(x, y);
    assert(listing(code) =~= seq![
        Line::Lw { rd: Reg::A(k as int), offset: 0, base: Reg::Sp },
        Line::ComputeImm { op: Op::Add, rd: Reg::Sp, a: Reg::Sp, imm: 4 },
    ]);
}

proof fn arguments_are_popped(out: Outside, k: int, m: Machine) -> (r: Machine)
    requires
        0 <= k <= 8,
    ensures
        does(out, ir_to_riscv::args_popped(k), m, r),
        r.mem == m.mem,
        r.regs[Reg::Sp] == at_offset(m, 4 * k),
        forall|i: int| 0 <= i < k ==> #[trigger] r.regs[Reg::A(i)] == word(m, 4 * i),
        forall|q: Reg|
            q != Reg::Sp && !(q matches Reg::A(i) && 0 <= i < k) ==> #[trigger] r.regs[q]
                == m.regs[q],
    decreases k,
{
    if k <= 0 {
        nothing_does(out, m);
        words_wrap(m.regs[Reg::Sp]);
        m
    } else {
        let j = k - 1;
        let sp = m.regs[Reg::Sp] as int;
        let m1 = arguments_are_popped(out, j, m);
        pop_lines_are_read(j as nat);
        let load = Line::Lw { rd: Reg::A(j), offset: 0, base: Reg::Sp };
        let up = Line::ComputeImm { op: Op::Add, rd: Reg::Sp, a: Reg::Sp, imm: 4 };
        riscv_code::straight_two(out, load, up, m1);
        let r = executed(out, up, executed(out, load, m1));
        let code = "  lw "@ + ir_to_riscv::arg_reg(j as nat) + ", 0(sp)\n  addi sp, sp, 4\n"@;
        assert(does(out, code, m1, r));
        words_wrap(m1.regs[Reg::Sp]);
        words_wrap(4);
        offsets_add(sp + 4 * j, 4);
        does_both(out, ir_to_riscv::args_popped(j), code, m, m1, r);
        assert forall|i: int| 0 <= i < k implies #[trigger] r.regs[Reg::A(i)] == word(m, 4 * i) by {
            if i < j {
                assert(m1.regs[Reg::A(i)] == word(m, 4 * i));
            }
        }
        r
    }
}

/// How many arguments are left on the stack.
pub open spec fn left_over(n: int) -> int {
    if n > 8 {
        n - 8
    } else {
        0
    }
}

/// Whether a machine that is about to enter a function has the values of its arguments where the
/// function looks for them.
pub open spec fn passes(vals: Seq<i32>, m: Machine) -> bool {
    &&& forall|i: int|
        0 <= i < vals.len() && i < 8 ==> #[trigger] m.regs[Reg::A(i)] == vals[i]
    &&& forall|i: int| 8 <= i < vals.len() ==> word(m, 4 * (i - 8)) == #[trigger] vals[i]
}

/// The values of operands on the machine.
pub open spec fn operands(
    p: ProgV,
    fr: FrameV,
    out: Outside,
    m: Machine,
    ops: Seq<IrOperand>,
) -> Seq<i32> {
    ops.map_values(|op: IrOperand| operand(p, fr, out, m, op))
}

/// Whether an address is one where the arguments of a call are kept or pushed.
pub open spec fn is_spare(fr: FrameV, m: Machine, n: int, a: i32) -> bool {
    exists|i: int| 0 <= i < n && (a == #[trigger] kept_at(fr, m, i) || a == pushed_at(m, i))
}

/// The code before a call puts the values of the arguments where the function looks for them: the
/// first eight in registers, the others on the stack in order. Nothing else in memory changes.
#[verifier::rlimit(80)]
#[verifier::spinoff_prover]
pub proof fn arguments_are_passed(
    p: ProgV,
    fr: FrameV,
    out: Outside,
    args: Seq<IrOperand>,
    m: Machine,
) -> (r: Machine)
    requires
        has_room(fr, args.len() as int),
        forall|i: int| 0 <= i < args.len() ==> in_frame(p, fr, #[trigger] args[i]),
    ensures
        ({
            let n = args.len() as int;
            does(
                out,
                ir_to_riscv::args_kept(p, fr, args, n) + ir_to_riscv::args_pushed(fr, n, n)
                    + ir_to_riscv::args_popped(ir_to_riscv::in_regs(n)),
                m,
                r,
            )
        }),
        passes(operands(p, fr, out, m, args), r),
        r.regs[Reg::Sp] == at_offset(m, -4 * left_over(args.len() as int)),
        forall|a: i32| !is_spare(fr, m, args.len() as int, a) ==> #[trigger] r.mem[a] == m.mem[a],
{
    let n = args.len() as int;
    let k = ir_to_riscv::in_regs(n);
    let sp = m.regs[Reg::Sp] as int;
    let m1 = arguments_are_kept(p, fr, out, args, n, m);
    let m2 = arguments_are_pushed(fr, out, n, n, m1);
    let r = arguments_are_popped(out, k, m2);
    does_both(
        out,
        ir_to_riscv::args_kept(p, fr, args, n),
        ir_to_riscv::args_pushed(fr, n, n),
        m,
        m1,
        m2,
    );
    does_both(
        out,
        ir_to_riscv::args_kept(p, fr, args, n) + ir_to_riscv::args_pushed(fr, n, n),
        ir_to_riscv::args_popped(k),
        m,
        m2,
        r,
    );
    assert(m1.regs[Reg::Sp] == m.regs[Reg::Sp]);
    offsets_add(sp - 4 * n, 4 * k);
    let vals = operands(p, fr, out, m, args);
    assert forall|i: int| 0 <= i < n implies #[trigger] m2.mem[at_offset(m, 4 * i - 4 * n)]
        == vals[i] by {
        let j = n - 1 - i;
        assert(pushed_at(m1, j) == at_offset(m, 4 * i - 4 * n));
        assert(m2.mem[pushed_at(m1, j)] == m1.mem[kept_at(fr, m1, n - 1 - j)]);
        assert(kept_at(fr, m1, i) == kept_at(fr, m, i));
        assert(m1.mem[kept_at(fr, m, i)] == operand(p, fr, out, m, args[i]));
    }
    assert forall|i: int| 0 <= i < vals.len() && i < 8 implies #[trigger] r.regs[Reg::A(i)]
        == vals[i] by {
        offsets_add(sp - 4 * n, 4 * i);
        assert(r.regs[Reg::A(i)] == word(m2, 4 * i));
        assert(m2.mem[at_offset(m, 4 * i - 4 * n)] == vals[i]);
    }
    assert forall|i: int| 8 <= i < vals.len() implies word(r, 4 * (i - 8)) == #[trigger] vals[i] by {
        offsets_add(sp - 4 * n + 4 * k, 4 * (i - 8));
        assert(m2.mem[at_offset(m, 4 * i - 4 * n)] == vals[i]);
    }
    assert forall|a: i32| !is_spare(fr, m, n, a) implies #[trigger] r.mem[a] == m.mem[a] by {
        assert forall|i: int| 0 <= i < n implies a != #[trigger] kept_at(fr, m, i) by {}
        assert(m1.mem[a] == m.mem[a]);
        assert forall|i: int| 0 <= i < n implies a != #[trigger] pushed_at(m1, i) by {
            assert(pushed_at(m1, i) == pushed_at(m, i));
            let x = kept_at(fr, m, i);
        }
        assert(m2.mem[a] == m1.mem[a]);
    }
    r
}

/// The code of a call enters the function with its arguments in place, takes what they left on the
/// stack away again, and puts the result in its place.
#[verifier::rlimit(80)]
#[verifier::spinoff_prover]
pub proof fn call_does(
    p: ProgV,
    fr: FrameV,
    out: Outside,
    dest: Option<usize>,
    func: usize,
    args: Seq<IrOperand>,
    m: Machine,
) -> (r: (Machine, Machine))
    requires
        has_room(fr, args.len() as int),
        forall|i: int| 0 <= i < args.len() ==> in_frame(p, fr, #[trigger] args[i]),
        is_word(ir_to_riscv::bare(p.func_names[func as int])),
    ensures
        passes(operands(p, fr, out, m, args), r.0),
        r.0.regs[Reg::Sp] == at_offset(m, -4 * left_over(args.len() as int)),
        forall|a: i32|
            !is_spare(fr, m, args.len() as int, a) ==> #[trigger] r.0.mem[a] == m.mem[a],
        does(out, ir_to_riscv::call_code(p, fr, dest, func, args), m, r.1),
        ({
            let back = (out.call)(ir_to_riscv::bare(p.func_names[func as int]), r.0);
            &&& back.regs[Reg::Sp] == r.0.regs[Reg::Sp] ==> {
                &&& r.1.regs[Reg::Sp] == m.regs[Reg::Sp]
                &&& r.1.mem == match dest {
                    Some(d) => back.mem.insert(
                        at_offset(m, frame::slot(fr, d) as int),
                        back.regs[Reg::A(0)],
                    ),
                    None => back.mem,
                }
            }
        }),
{
    let n = args.len() as int;
    let sp = m.regs[Reg::Sp] as int;
    riscv_reading::registers_are_read();
    riscv_reading::mnemonics_are_words();
    let f = ir_to_riscv::bare(p.func_names[func as int]);
    let m1 = arguments_are_passed(p, fr, out, args, m);
    riscv_reading::call_is_read(f);
    let line = Line::Call { symbol: f };
    let call = "  call "@ + f + "\n"@;
    one_line(out, call, line, m1);
    let m2 = executed(out, line, m1);
    let drop = ir_to_riscv::args_dropped(n);
    let m3 = if n > frame::REG_ARGS {
        let by = (n - 8) * 4;
        reveal_strlit("  ");
        reveal_strlit(" ");
        reveal_strlit(", ");
        reveal_strlit("\n");
        reveal_strlit("addi");
        reveal_strlit("sp");
        reveal_strlit("  addi sp, sp, ");
        reading::numerals_denote(by);
        riscv_reading::compute_imm_is_read(
            "addi"@,
            Op::Add,
            "sp"@,
            Reg::Sp,
            "sp"@,
            Reg::Sp,
            text::dec_int(by),
            by,
        );
        assert(drop =~= riscv_reading::four("addi"@, "sp"@, "sp"@, text::dec_int(by)));
        let up = Line::ComputeImm { op: Op::Add, rd: Reg::Sp, a: Reg::Sp, imm: by };
        one_line(out, drop, up, m2);
        words::wrap_is_unique(by, by as i32);
        offsets_add(sp - by, by);
        executed(out, up, m2)
    } else {
        nothing_does(out, m2);
        m2
    };
    assert(does(out, drop, m2, m3));
    words_wrap(m.regs[Reg::Sp]);
    assert(m2.regs[Reg::Sp] == m1.regs[Reg::Sp] ==> m3.regs[Reg::Sp] == m.regs[Reg::Sp]);
    let r = match dest {
        Some(d) => sw_does(out, "a0"@, Reg::A(0), frame::slot(fr, d), m3),
        None => {
            nothing_does(out, m3);
            m3
        },
    };
    let before = ir_to_riscv::args_kept(p, fr, args, n) + ir_to_riscv::args_pushed(fr, n, n)
        + ir_to_riscv::args_popped(ir_to_riscv::in_regs(n));
    does_both(out, before, call, m, m1, m2);
    does_both(out, before + call, drop, m, m2, m3);
    does_both(out, before + call + drop, ir_to_riscv::result_kept(fr, dest), m, m3, r);
    (m1, r)
}

// ── Starting over ────────────────────────────────────────────────────────────

proof fn arguments_are_loaded(fr: FrameV, out: Outside, n: int, m: Machine) -> (r: Machine)
    requires
        0 <= n <= 8,
        has_room(fr, n),
    ensures
        does(out, ir_to_riscv::args_loaded(fr, n), m, r),
        r.mem == m.mem,
        forall|i: int| 0 <= i < n ==> #[trigger] r.regs[Reg::A(i)] == word(m, fr.args + 4 * i),
        forall|q: Reg| q != Reg::T(0) && !(q is A) ==> #[trigger] r.regs[q] == m.regs[q],
    decreases n,
{
    if n <= 0 {
        nothing_does(out, m);
        m
    } else {
        let k = n - 1;
        assert(has_room(fr, k)) by {
            assert forall|g: usize| #[trigger] fr.spills.contains_key(g) implies fr.args + 4 * k
                <= fr.spills[g] by {}
        }
        let m1 = arguments_are_loaded(fr, out, k, m);
        riscv_reading::argument_registers_are_read(k as nat);
        let name = ir_to_riscv::arg_reg(k as nat);
        let offset = (fr.args + k * 4) as i32;
        let r = lw_does(out, name, Reg::A(k), offset, m1);
        does_both(
            out,
            ir_to_riscv::args_loaded(fr, k),
            ir_to_riscv::lw(name, offset),
            m,
            m1,
            r,
        );
        assert forall|i: int| 0 <= i < n implies #[trigger] r.regs[Reg::A(i)] == word(
            m,
            fr.args + 4 * i,
        ) by {
            if i < k {
                assert(m1.regs[Reg::A(i)] == word(m, fr.args + 4 * i));
            }
        }
        r
    }
}

/// Starting a function over puts the values of the new arguments in the argument registers, takes
/// the frame away and goes to the beginning of the function with the return address it was entered
/// with.
#[verifier::rlimit(60)]
#[verifier::spinoff_prover]
pub proof fn restart_goes(
    p: ProgV,
    fr: FrameV,
    out: Outside,
    name: Seq<char>,
    args: Seq<IrOperand>,
    m: Machine,
) -> (r: Machine)
    requires
        args.len() <= 8,
        has_room(fr, args.len() as int),
        forall|i: int| 0 <= i < args.len() ==> in_frame(p, fr, #[trigger] args[i]),
        is_word(name),
    ensures
        run(out, ir_to_riscv::restart_code(p, fr, name, args), m) == Exit::To(name, r),
        passes(operands(p, fr, out, m, args), r),
        r.regs[Reg::Sp] == at_offset(m, fr.size as int),
        r.regs[Reg::Ra] == if fr.calls {
            word(m, fr.ra as int)
        } else {
            m.regs[Reg::Ra]
        },
        forall|a: i32| !is_spare(fr, m, args.len() as int, a) ==> #[trigger] r.mem[a] == m.mem[a],
{
    riscv_reading::registers_are_read();
    let n = args.len() as int;
    let m1 = arguments_are_kept(p, fr, out, args, n, m);
    let m2 = arguments_are_loaded(fr, out, n, m1);
    let m3 = if fr.calls {
        lw_does(out, "ra"@, Reg::Ra, fr.ra, m2)
    } else {
        nothing_does(out, m2);
        m2
    };
    let r = addi_sp_does(out, fr.size, m3);
    let a = ir_to_riscv::args_kept(p, fr, args, n);
    let b = ir_to_riscv::args_loaded(fr, n);
    let c = ir_to_riscv::ra_back(fr);
    let d = ir_to_riscv::addi_sp(fr.size);
    does_both(out, a, b, m, m1, m2);
    does_both(out, a + b, c, m, m2, m3);
    does_both(out, a + b + c, d, m, m3, r);
    riscv_code::jump_goes(out, name, r);
    riscv_code::runs_on(out, a + b + c + d, "  j "@ + name + "\n"@, m, r);
    let vals = operands(p, fr, out, m, args);
    assert forall|i: int| 0 <= i < vals.len() && i < 8 implies #[trigger] r.regs[Reg::A(i)]
        == vals[i] by {
        assert(m2.regs[Reg::A(i)] == word(m1, fr.args + 4 * i));
        assert(m1.mem[kept_at(fr, m, i)] == operand(p, fr, out, m, args[i]));
    }
    assert forall|x: i32| !is_spare(fr, m, n, x) implies #[trigger] r.mem[x] == m.mem[x] by {
        assert forall|i: int| 0 <= i < n implies x != #[trigger] kept_at(fr, m, i) by {}
        assert(m1.mem[x] == m.mem[x]);
    }
    if fr.calls {
        let x = at_offset(m, fr.ra as int);
        assert forall|i: int| 0 <= i < n implies x != #[trigger] kept_at(fr, m, i) by {
            offsets_differ(m, fr.ra as int, fr.args + 4 * i);
        }
        assert(m1.mem[x] == m.mem[x]);
    }
    r
}

// ── The beginning of a function ──────────────────────────────────────────────

/// Keeping the parameters that come in registers, where they have a place in the frame of their own.
proof fn parameters_are_saved(
    fr: FrameV,
    out: Outside,
    params: Seq<(usize, IrType)>,
    n: int,
    m: Machine,
) -> (r: Machine)
    requires
        0 <= n <= params.len(),
        n <= 8,
        forall|g: usize| #[trigger] fr.spills.contains_key(g) ==> 0 <= fr.spills[g],
        forall|g: usize, h: usize| #[trigger]
            fr.spills.contains_key(g) && #[trigger] fr.spills.contains_key(h) && g != h
                ==> fr.spills[g] != fr.spills[h],
        forall|i: int, j: int|
            0 <= i < j < params.len() ==> (#[trigger] params[i]).0 != (#[trigger] params[j]).0,
        forall|i: int|
            0 <= i < n ==> !fr.vars.contains_key((#[trigger] params[i]).0) && fr.spills.contains_key(
                params[i].0,
            ),
    ensures
        does(out, ir_to_riscv::params_saved(fr, params, n), m, r),
        r.regs[Reg::Sp] == m.regs[Reg::Sp],
        r.regs[Reg::Ra] == m.regs[Reg::Ra],
        forall|i: int| #![trigger r.regs[Reg::A(i)]] r.regs[Reg::A(i)] == m.regs[Reg::A(i)],
        forall|i: int|
            0 <= i < n ==> word(r, fr.spills[(#[trigger] params[i]).0] as int)
                == m.regs[Reg::A(i)],
        forall|a: i32|
            (forall|i: int|
                0 <= i < n ==> a != at_offset(m, fr.spills[(#[trigger] params[i]).0] as int))
                ==> #[trigger] r.mem[a] == m.mem[a],
    decreases n,
{
    if n <= 0 {
        nothing_does(out, m);
        m
    } else {
        let k = n - 1;
        let m1 = parameters_are_saved(fr, out, params, k, m);
        let g = params[k].0;
        riscv_reading::argument_registers_are_read(k as nat);
        let name = ir_to_riscv::arg_reg(k as nat);
        let r = sw_does(out, name, Reg::A(k), fr.spills[g], m1);
        does_both(
            out,
            ir_to_riscv::params_saved(fr, params, k),
            ir_to_riscv::sw(name, fr.spills[g]),
            m,
            m1,
            r,
        );
        assert(r.regs[Reg::Sp] == m.regs[Reg::Sp]);
        assert forall|i: int| 0 <= i < n implies word(
            r,
            fr.spills[(#[trigger] params[i]).0] as int,
        ) == m.regs[Reg::A(i)] by {
            if i < k {
                let h = params[i].0;
                assert(h != params[k].0);
                assert(fr.spills.contains_key(h) && fr.spills.contains_key(g));
                offsets_differ(m, fr.spills[h] as int, fr.spills[g] as int);
                assert(word(m1, fr.spills[params[i].0] as int) == m.regs[Reg::A(i)]);
            }
        }
        assert forall|a: i32|
            (forall|i: int|
                0 <= i < n ==> a != at_offset(
                    m,
                    fr.spills[(#[trigger] params[i]).0] as int,
                )) implies #[trigger] r.mem[a] == m.mem[a] by {
            assert(a != at_offset(m, fr.spills[params[k].0] as int));
            assert(m1.mem[a] == m.mem[a]);
        }
        r
    }
}

/// The parameters among the first `n` that have no variable have a slot, and nothing else has.
proof fn slots_of_parameters(
    vars: Map<usize, i32>,
    params: Seq<(usize, IrType)>,
    n: int,
    start: int,
)
    requires
        0 <= n <= params.len(),
    ensures
        forall|i: int|
            0 <= i < n && !vars.contains_key((#[trigger] params[i]).0) ==> frame::param_spills(
                vars,
                params,
                n,
                start,
            ).0.contains_key(params[i].0),
        forall|g: usize| #[trigger]
            frame::param_spills(vars, params, n, start).0.contains_key(g) ==> exists|i: int|
                0 <= i < n && (#[trigger] params[i]).0 == g,
    decreases n,
{
    if n > 0 {
        slots_of_parameters(vars, params, n - 1, start);
        let before = frame::param_spills(vars, params, n - 1, start).0;
        let all = frame::param_spills(vars, params, n, start).0;
        assert forall|g: usize| #[trigger] all.contains_key(g) implies exists|i: int|
            0 <= i < n && (#[trigger] params[i]).0 == g by {
            if before.contains_key(g) {
                let i = choose|i: int| 0 <= i < n - 1 && (#[trigger] params[i]).0 == g;
                assert(params[i].0 == g);
            } else {
                assert(params[n - 1].0 == g);
            }
        }
    }
}

/// The parameters from the ninth on are where the caller has left them.
proof fn stack_of_parameters(params: Seq<(usize, IrType)>, n: int, size: int)
    requires
        0 <= n <= params.len(),
        0 <= size,
        size + 4 * params.len() <= i32::MAX,
        forall|i: int, j: int|
            0 <= i < j < params.len() ==> (#[trigger] params[i]).0 != (#[trigger] params[j]).0,
    ensures
        forall|i: int|
            8 <= i < n ==> frame::stack_params(params, n, size).contains_key(
                (#[trigger] params[i]).0,
            ) && frame::stack_params(params, n, size)[params[i].0] == size + 4 * (i - 8),
        forall|g: usize| #[trigger]
            frame::stack_params(params, n, size).contains_key(g) ==> size
                <= frame::stack_params(params, n, size)[g] && exists|i: int|
                8 <= i < n && (#[trigger] params[i]).0 == g,
    decreases n,
{
    if n > frame::REG_ARGS {
        stack_of_parameters(params, n - 1, size);
        let before = frame::stack_params(params, n - 1, size);
        let all = frame::stack_params(params, n, size);
        let last = params[n - 1].0;
        let offset = size + (n - 1 - frame::REG_ARGS) * 4;
        assert(all == before.insert(last, offset as i32));
        assert forall|i: int| 8 <= i < n implies all.contains_key((#[trigger] params[i]).0)
            && all[params[i].0] == size + 4 * (i - 8) by {
            if i < n - 1 {
                assert(params[i].0 != params[n - 1].0);
            }
        }
        assert forall|g: usize| #[trigger] all.contains_key(g) implies size <= all[g] && exists|
            i: int,
        |
            8 <= i < n && (#[trigger] params[i]).0 == g by {
            if g == last {
                assert(params[n - 1].0 == g);
            } else {
                assert(before.contains_key(g));
                let i = choose|i: int| 8 <= i < n - 1 && (#[trigger] params[i]).0 == g;
                assert(params[i].0 == g);
            }
        }
    }
}

/// The frame of a function has room for the arguments of each of its calls.
pub proof fn frames_have_room(f: FuncV, b: int, i: int)
    requires
        frame::frame(f) is Some,
        0 <= b < f.blocks.len(),
        0 <= i < f.blocks[b].instrs.len(),
    ensures
        has_room(frame::frame(f)->0, frame::arg_count(f.blocks[b].instrs[i]) as int),
{
    frame::frame_is_laid_out(f);
    frame::max_args_is_most(f.blocks, b, i);
    let fr = frame::frame(f)->0;
    let n = frame::max_args(f.blocks) as int;
    assert(fr.args + 4 * n <= fr.ra);
    riscv_stack_is_above(f);
    assert forall|l: usize| #[trigger] fr.locals.contains_key(l) implies 0 <= fr.locals[l]
        < fr.args by {}
    assert forall|g: usize| #[trigger] fr.spills.contains_key(g) implies fr.args + 4 * n
        <= fr.spills[g] by {}
}

proof fn riscv_stack_is_above(f: FuncV)
    requires
        frame::frame(f) is Some,
    ensures
        forall|g: usize| #[trigger]
            (frame::frame(f)->0).stack.contains_key(g) ==> (frame::frame(f)->0).size
                <= (frame::frame(f)->0).stack[g],
{
    let fr = frame::frame(f)->0;
    frame::frame_is_laid_out(f);
    crate::riscv_meaning::stack_is_above(f.params, f.params.len() as int, fr.size as int);
}

/// What a function does before its first block.
pub open spec fn entry_code(f: FuncV, fr: FrameV) -> Seq<char> {
    ir_to_riscv::addi_sp((-fr.size) as i32) + ir_to_riscv::ra_kept(fr) + ir_to_riscv::params_saved(
        fr,
        f.params,
        frame::reg_params(f),
    )
}

/// A function starts with its name, as one that others may call, and with what it does before its
/// first block.
pub proof fn functions_start_with_their_name(p: ProgV, f: FuncV, fr: FrameV)
    requires
        is_word(ir_to_riscv::bare(p.func_names[f.name as int])),
    ensures
        ({
            let name = ir_to_riscv::bare(p.func_names[f.name as int]);
            let head = "  .globl "@ + name + "\n"@ + name + ":\n"@;
            &&& ir_to_riscv::prologue(p, f, fr) == head + entry_code(f, fr)
            &&& reading::lines(head).len() == 2
            &&& reading::words(reading::lines(head)[0]) == seq![".globl"@, name]
            &&& listing(head)[1] == Line::Label(name)
            &&& whole_lines(head)
        }),
{
    let name = ir_to_riscv::bare(p.func_names[f.name as int]);
    let head = "  .globl "@ + name + "\n"@ + name + ":\n"@;
    reveal_strlit("  .globl ");
    reveal_strlit(".globl");
    reveal_strlit("  ");
    reveal_strlit(" ");
    reveal_strlit("\n");
    reveal_strlit(":\n");
    let s = "  "@ + ".globl"@ + " "@ + name;
    reading::words_of_gap("  "@);
    reading::word_after("  "@, ".globl"@);
    reading::gap_after("  "@ + ".globl"@, " "@);
    reading::word_after("  "@ + ".globl"@ + " "@, name);
    assert(reading::words(s) =~= seq![".globl"@, name]);
    riscv_reading::words_are_in_line(name);
    assert(reading::in_line(s)) by {
        assert forall|i: int| 0 <= i < s.len() implies #[trigger] s[i] != '\n' by {
            if i >= 9 {
                assert(s[i] == name[i - 9]);
            }
        }
    }
    reading::lines_of_line(s);
    riscv_reading::label_is_read(name);
    let a = s + seq!['\n'];
    let b = name + ":\n"@;
    assert(head =~= a + b);
    reading::lines_of_two(a, b);
    riscv_machine::listing_of_two(a, b);
    riscv_machine::listing_of_line(s);
    assert(listing(b).len() == 1);
    assert(reading::lines(b).len() == 1);
    assert(ir_to_riscv::prologue(p, f, fr) =~= head + entry_code(f, fr));
}

/// What a function does before its first block: the stack pointer goes down by the size of the
/// frame, the return address is kept where the function calls others, and each parameter is found
/// at its place with the value that was passed for it.
#[verifier::rlimit(40)]
#[verifier::spinoff_prover]
pub proof fn parameters_are_found(
    p: ProgV,
    f: FuncV,
    out: Outside,
    vals: Seq<i32>,
    m: Machine,
) -> (r: Machine)
    requires
        frame::frame(f) is Some,
        vals.len() == f.params.len(),
        passes(vals, m),
        forall|i: int, j: int|
            0 <= i < j < f.params.len() ==> (#[trigger] f.params[i]).0 != (#[trigger] f.params[j]).0,
        forall|i: int|
            0 <= i < f.params.len() ==> !(frame::frame(f)->0).vars.contains_key(
                (#[trigger] f.params[i]).0,
            ),
    ensures
        does(out, entry_code(f, frame::frame(f)->0), m, r),
        r.regs[Reg::Sp] == at_offset(m, -(frame::frame(f)->0).size),
        (frame::frame(f)->0).calls ==> word(r, (frame::frame(f)->0).ra as int) == m.regs[Reg::Ra],
        forall|i: int|
            0 <= i < f.params.len() ==> operand(
                p,
                frame::frame(f)->0,
                out,
                r,
                IrOperand::Global((#[trigger] f.params[i]).0),
            ) == vals[i],
{
    let fr = frame::frame(f)->0;
    let n = frame::reg_params(f);
    let size = fr.size as int;
    let sp = m.regs[Reg::Sp] as int;
    frame::frame_is_laid_out(f);
    riscv_reading::registers_are_read();
    let base = frame::base_size(f.blocks, fr.args);
    slots_of_parameters(fr.vars, f.params, n, base);
    stack_of_parameters(f.params, f.params.len() as int, size);
    let m1 = addi_sp_does(out, (-fr.size) as i32, m);
    let m2 = if fr.calls {
        sw_does(out, "ra"@, Reg::Ra, fr.ra, m1)
    } else {
        nothing_does(out, m1);
        m1
    };
    assert(does(out, ir_to_riscv::ra_kept(fr), m1, m2));
    assert forall|g: usize, h: usize| #[trigger]
        fr.spills.contains_key(g) && #[trigger] fr.spills.contains_key(h) && g
            != h implies fr.spills[g] != fr.spills[h] by {
        assert(fr.spills[g] + 4 <= fr.spills[h] || fr.spills[h] + 4 <= fr.spills[g]);
    }
    let r = parameters_are_saved(fr, out, f.params, n, m2);
    let x = ir_to_riscv::addi_sp((-fr.size) as i32);
    let y = ir_to_riscv::ra_kept(fr);
    does_both(out, x, y, m, m1, m2);
    does_both(out, x + y, ir_to_riscv::params_saved(fr, f.params, n), m, m2, r);
    assert(r.regs[Reg::Sp] == m1.regs[Reg::Sp]);
    if fr.calls {
        let a = at_offset(m2, fr.ra as int);
        assert forall|i: int| 0 <= i < n implies a != at_offset(
            m2,
            fr.spills[(#[trigger] f.params[i]).0] as int,
        ) by {
            let g = f.params[i].0;
            assert(fr.spills.contains_key(g));
            offsets_differ(m2, fr.ra as int, fr.spills[g] as int);
        }
        assert(r.mem[a] == m2.mem[a]);
    }
    assert forall|i: int| 0 <= i < f.params.len() implies operand(
        p,
        fr,
        out,
        r,
        IrOperand::Global((#[trigger] f.params[i]).0),
    ) == vals[i] by {
        let g = f.params[i].0;
        if i < 8 {
            assert(fr.spills.contains_key(g));
            assert(word(r, fr.spills[f.params[i].0] as int) == m2.regs[Reg::A(i)]);
            assert(m.regs[Reg::A(i)] == vals[i]);
        } else {
            assert(!fr.spills.contains_key(g)) by {
                if fr.spills.contains_key(g) {
                    let j = choose|j: int| 0 <= j < n && (#[trigger] f.params[j]).0 == g;
                    assert(f.params[j].0 != f.params[i].0);
                }
            }
            let o = fr.stack[g] as int;
            let a = at_offset(r, o);
            offsets_add(sp - size, o);
            assert(a == at_offset(m, 4 * (i - 8)));
            assert forall|j: int| 0 <= j < n implies a != at_offset(
                m2,
                fr.spills[(#[trigger] f.params[j]).0] as int,
            ) by {
                let h = f.params[j].0;
                assert(fr.spills.contains_key(h));
                offsets_differ(m2, o, fr.spills[h] as int);
            }
            assert(r.mem[a] == m2.mem[a]);
            offsets_differ(m1, o, fr.ra as int);
            assert(m2.mem[a] == m.mem[a]);
            assert(word(m, 4 * (i - 8)) == vals[i]);
        }
    }
    r
}

} // verus!

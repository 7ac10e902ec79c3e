//! What the code that is generated straight from a syntax tree does.
//!
//! In assembly an expression leaves its value in `a0`, and what it needs on the way it keeps below
//! the stack pointer. In Koopa IR an operator is an instruction of its own.

use crate::ast::{BinaryOp, ExprV, StmtV, UnaryOp};
use crate::error::ErrorView;
use crate::eval;
use crate::ir::{IrArithOp, IrCmpOp};
use crate::ir_to_riscv;
use crate::koopa_reading;
use crate::koopa_text::{self, KoopaV};
use crate::reading::{self, is_word, whole_lines, words};
use crate::riscv_calls::offsets_add;
use crate::riscv_code::{
    at_offset, does, does_both, line_does, lines_compare, lw_does, nothing_does, runs_on,
    words_wrap,
};
use crate::riscv_machine::{
    self, executed, immediate_operation, left, listing, operation, run, Exit, Line, Machine, Op,
    Outside, Reg,
};
use crate::riscv_reading::{self, four, memory, names, three};
use crate::riscv_text::{self, RvSymV, RvV};
use crate::scopes::ScopesV;
use crate::text;
use crate::words as numbers;
use vstd::prelude::*;

verus! {

// ── Koopa IR ─────────────────────────────────────────────────────────────────

/// The instruction of an operator computes what the operator does of its operands, the left one
/// first.
pub proof fn koopa_operators_compute(
    op: BinaryOp,
    l: i32,
    r: i32,
    a: Seq<char>,
    b: Seq<char>,
)
    requires
        !(op is And) && !(op is Or),
        eval::binary_value(op, l, r) is Some,
        is_word(a) && is_word(b),
    ensures
        ({
            let ws = words(koopa_text::two(koopa_text::op_text(op), a, b));
            &&& ws.len() == 3 && ws[1] == a && ws[2] == b
            &&& koopa_reading::computed(ws[0], l as int, r as int) == Some(
                eval::binary_value(op, l, r)->0 as int,
            )
        }),
{
    koopa_reading::operators_differ();
    koopa_reading::literals();
    numbers::operators_compute(op, l, r);
    koopa_words(koopa_text::op_text(op), a, b);
}

/// The words of an instruction with two operands.
proof fn koopa_words(op: Seq<char>, a: Seq<char>, b: Seq<char>)
    requires
        is_word(op) && is_word(a) && is_word(b),
    ensures
        words(koopa_text::two(op, a, b)) == seq![op, a, b],
{
    koopa_reading::literals();
    reading::words_of_word(op);
    reading::gap_after(op, " "@);
    reading::word_after(op + " "@, a);
    reading::gap_after(op + " "@ + a, ", "@);
    reading::word_after(op + " "@ + a + ", "@, b);
    assert(words(koopa_text::two(op, a, b)) =~= seq![op, a, b]);
}

/// A branch goes to its first label where the condition is not zero, and else to its second; a jump
/// goes to its label.
pub proof fn koopa_branches_go(cond: Seq<char>, yes: Seq<char>, no: Seq<char>, v: int)
    requires
        is_word(cond) && is_word(yes) && is_word(no),
    ensures
        words(koopa_text::br(cond, yes, no)).len() == 4,
        words(koopa_text::br(cond, yes, no))[1] == cond,
        koopa_reading::destination(words(koopa_text::br(cond, yes, no)), v) == Some(
            if v != 0 {
                yes
            } else {
                no
            },
        ),
        koopa_reading::destination(words(koopa_text::jump(yes)), v) == Some(yes),
{
    koopa_reading::literals();
    let s = "br"@ + " "@;
    assert("br "@ =~= s) by {
        reveal_strlit("br ");
        reveal_strlit("br");
    }
    reading::words_of_word("br"@);
    reading::gap_after("br"@, " "@);
    reading::word_after(s, cond);
    reading::gap_after(s + cond, ", "@);
    reading::word_after(s + cond + ", "@, yes);
    reading::gap_after(s + cond + ", "@ + yes, ", "@);
    reading::word_after(s + cond + ", "@ + yes + ", "@, no);
    assert(words(koopa_text::br(cond, yes, no)) =~= seq!["br"@, cond, yes, no]);
    let t = "jump"@ + " "@;
    assert("jump "@ =~= t && "jump"@ != "br"@) by {
        reveal_strlit("jump ");
        reveal_strlit("jump");
        reveal_strlit("br");
    }
    reading::words_of_word("jump"@);
    reading::gap_after("jump"@, " "@);
    reading::word_after(t, yes);
    assert(words(koopa_text::jump(yes)) =~= seq!["jump"@, yes]);
}

// ── Lines of assembly ────────────────────────────────────────────────────────

proof fn short_names()
    ensures
        is_word("sgt"@) && is_word("seqz"@) && is_word("snez"@) && is_word("neg"@),
        operation("sgt"@) is None && immediate_operation("sgt"@) is None,
        "sgt"@ != "lw"@ && "sgt"@ != "sw"@,
        "seqz"@ != "bnez"@ && "seqz"@ != "beqz"@ && "seqz"@ != "li"@ && "seqz"@ != "la"@ && "seqz"@
            != "mv"@,
        "snez"@ != "bnez"@ && "snez"@ != "beqz"@ && "snez"@ != "li"@ && "snez"@ != "la"@ && "snez"@
            != "mv"@,
        "neg"@ != "bnez"@ && "neg"@ != "beqz"@ && "neg"@ != "li"@ && "neg"@ != "la"@ && "neg"@
            != "mv"@,
        "seqz"@ != "snez"@ && "seqz"@ != "neg"@ && "snez"@ != "neg"@,
{
    reveal_strlit("sgt");
    reveal_strlit("seqz");
    reveal_strlit("snez");
    reveal_strlit("neg");
    reveal_strlit("bnez");
    reveal_strlit("beqz");
    reveal_strlit("li");
    reveal_strlit("la");
    reveal_strlit("mv");
    reveal_strlit("lw");
    reveal_strlit("sw");
    reveal_strlit("add");
    reveal_strlit("sub");
    reveal_strlit("mul");
    reveal_strlit("div");
    reveal_strlit("rem");
    reveal_strlit("slt");
    reveal_strlit("sltu");
    reveal_strlit("xor");
    reveal_strlit("sll");
    reveal_strlit("slti");
    reveal_strlit("addi");
    reveal_strlit("xori");
    reveal_strlit("sltiu");
    reveal_strlit("slli");
    assert("sgt"@.len() == 3 && "sgt"@[0] == 's' && "sgt"@[1] == 'g');
    assert("sub"@[1] == 'u' && "slt"@[1] == 'l' && "sll"@[1] == 'l');
    assert("add"@[0] == 'a' && "mul"@[0] == 'm' && "div"@[0] == 'd' && "rem"@[0] == 'r' && "xor"@[0]
        == 'x');
    assert("seqz"@[0] == 's' && "snez"@[0] == 's' && "bnez"@[0] == 'b' && "beqz"@[0] == 'b');
    assert("seqz"@[1] == 'e' && "snez"@[1] == 'n');
    assert("neg"@.len() == 3 && "bnez"@.len() == 4 && "beqz"@.len() == 4 && "li"@.len() == 2
        && "la"@.len() == 2 && "mv"@.len() == 2);
}

/// A register set by whether another is zero, is not zero, or by its opposite.
proof fn short_is_read()
    ensures
        listing(three("seqz"@, "a0"@, "a0"@)) == seq![
            Line::ComputeImm { op: Op::Sltu, rd: Reg::A(0), a: Reg::A(0), imm: 1 },
        ],
        whole_lines(three("seqz"@, "a0"@, "a0"@)),
        listing(three("snez"@, "a0"@, "a0"@)) == seq![
            Line::Compute { op: Op::Sltu, rd: Reg::A(0), a: Reg::Zero, b: Reg::A(0) },
        ],
        whole_lines(three("snez"@, "a0"@, "a0"@)),
        listing(three("neg"@, "a0"@, "a0"@)) == seq![
            Line::Compute { op: Op::Sub, rd: Reg::A(0), a: Reg::Zero, b: Reg::A(0) },
        ],
        whole_lines(three("neg"@, "a0"@, "a0"@)),
        listing(four("sgt"@, "a0"@, "t0"@, "a0"@)) == seq![
            Line::Compute { op: Op::Slt, rd: Reg::A(0), a: Reg::A(0), b: Reg::T(0) },
        ],
        whole_lines(four("sgt"@, "a0"@, "t0"@, "a0"@)),
{
    short_names();
    riscv_reading::registers_are_read();
    riscv_reading::three_is_read("seqz"@, "a0"@, "a0"@);
    riscv_reading::three_is_read("snez"@, "a0"@, "a0"@);
    riscv_reading::three_is_read("neg"@, "a0"@, "a0"@);
    riscv_reading::four_is_read("sgt"@, "a0"@, "t0"@, "a0"@);
}

proof fn arithmetic_texts()
    ensures
        "  add a0, t0, a0\n"@ == four("add"@, "a0"@, "t0"@, "a0"@),
        "  sub a0, t0, a0\n"@ == four("sub"@, "a0"@, "t0"@, "a0"@),
        "  mul a0, t0, a0\n"@ == four("mul"@, "a0"@, "t0"@, "a0"@),
        "  div a0, t0, a0\n"@ == four("div"@, "a0"@, "t0"@, "a0"@),
        "  rem a0, t0, a0\n"@ == four("rem"@, "a0"@, "t0"@, "a0"@),
{
    reveal_strlit("  ");
    reveal_strlit(" ");
    reveal_strlit(", ");
    reveal_strlit("\n");
    reveal_strlit("a0");
    reveal_strlit("t0");
    reveal_strlit("add");
    reveal_strlit("sub");
    reveal_strlit("mul");
    reveal_strlit("div");
    reveal_strlit("rem");
    reveal_strlit("  add a0, t0, a0\n");
    reveal_strlit("  sub a0, t0, a0\n");
    reveal_strlit("  mul a0, t0, a0\n");
    reveal_strlit("  div a0, t0, a0\n");
    reveal_strlit("  rem a0, t0, a0\n");
    assert("  add a0, t0, a0\n"@ =~= four("add"@, "a0"@, "t0"@, "a0"@));
    assert("  sub a0, t0, a0\n"@ =~= four("sub"@, "a0"@, "t0"@, "a0"@));
    assert("  mul a0, t0, a0\n"@ =~= four("mul"@, "a0"@, "t0"@, "a0"@));
    assert("  div a0, t0, a0\n"@ =~= four("div"@, "a0"@, "t0"@, "a0"@));
    assert("  rem a0, t0, a0\n"@ =~= four("rem"@, "a0"@, "t0"@, "a0"@));
}

proof fn order_texts()
    ensures
        "  slt a0, t0, a0\n"@ == four("slt"@, "a0"@, "t0"@, "a0"@),
        "  sgt a0, t0, a0\n"@ == four("sgt"@, "a0"@, "t0"@, "a0"@),
        "  sgt a0, t0, a0\n  xori a0, a0, 1\n"@ == four("sgt"@, "a0"@, "t0"@, "a0"@) + four(
            "xori"@,
            "a0"@,
            "a0"@,
            "1"@,
        ),
        "  slt a0, t0, a0\n  xori a0, a0, 1\n"@ == four("slt"@, "a0"@, "t0"@, "a0"@) + four(
            "xori"@,
            "a0"@,
            "a0"@,
            "1"@,
        ),
{
    reveal_strlit("  ");
    reveal_strlit(" ");
    reveal_strlit(", ");
    reveal_strlit("\n");
    reveal_strlit("a0");
    reveal_strlit("t0");
    reveal_strlit("1");
    reveal_strlit("slt");
    reveal_strlit("sgt");
    reveal_strlit("xori");
    reveal_strlit("  slt a0, t0, a0\n");
    reveal_strlit("  sgt a0, t0, a0\n");
    reveal_strlit("  sgt a0, t0, a0\n  xori a0, a0, 1\n");
    reveal_strlit("  slt a0, t0, a0\n  xori a0, a0, 1\n");
    let flip = four("xori"@, "a0"@, "a0"@, "1"@);
    assert("  slt a0, t0, a0\n"@ =~= four("slt"@, "a0"@, "t0"@, "a0"@));
    assert("  sgt a0, t0, a0\n"@ =~= four("sgt"@, "a0"@, "t0"@, "a0"@));
    assert("  sgt a0, t0, a0\n  xori a0, a0, 1\n"@ =~= four("sgt"@, "a0"@, "t0"@, "a0"@) + flip);
    assert("  slt a0, t0, a0\n  xori a0, a0, 1\n"@ =~= four("slt"@, "a0"@, "t0"@, "a0"@) + flip);
}

proof fn equality_texts()
    ensures
        "  sub a0, t0, a0\n  seqz a0, a0\n"@ == four("sub"@, "a0"@, "t0"@, "a0"@) + three(
            "seqz"@,
            "a0"@,
            "a0"@,
        ),
        "  sub a0, t0, a0\n  snez a0, a0\n"@ == four("sub"@, "a0"@, "t0"@, "a0"@) + three(
            "snez"@,
            "a0"@,
            "a0"@,
        ),
        "  "@ + "neg a0, a0"@ + "\n"@ == three("neg"@, "a0"@, "a0"@),
        "  "@ + "seqz a0, a0"@ + "\n"@ == three("seqz"@, "a0"@, "a0"@),
{
    reveal_strlit("  ");
    reveal_strlit(" ");
    reveal_strlit(", ");
    reveal_strlit("\n");
    reveal_strlit("a0");
    reveal_strlit("t0");
    reveal_strlit("sub");
    reveal_strlit("seqz");
    reveal_strlit("snez");
    reveal_strlit("neg");
    reveal_strlit("neg a0, a0");
    reveal_strlit("seqz a0, a0");
    reveal_strlit("  sub a0, t0, a0\n  seqz a0, a0\n");
    reveal_strlit("  sub a0, t0, a0\n  snez a0, a0\n");
    let sub = four("sub"@, "a0"@, "t0"@, "a0"@);
    assert("  sub a0, t0, a0\n  seqz a0, a0\n"@ =~= sub + three("seqz"@, "a0"@, "a0"@));
    assert("  sub a0, t0, a0\n  snez a0, a0\n"@ =~= sub + three("snez"@, "a0"@, "a0"@));
    assert("  "@ + "neg a0, a0"@ + "\n"@ =~= three("neg"@, "a0"@, "a0"@));
    assert("  "@ + "seqz a0, a0"@ + "\n"@ =~= three("seqz"@, "a0"@, "a0"@));
}

// ── Operators ────────────────────────────────────────────────────────────────

/// The code of arithmetic does it on `t0` and `a0`.
proof fn arithmetic_does(out: Outside, op: BinaryOp, a: IrArithOp, m: Machine) -> (n: Machine)
    requires
        match op {
            BinaryOp::Add => a is Add,
            BinaryOp::Sub => a is Sub,
            BinaryOp::Mul => a is Mul,
            BinaryOp::Div => a is Div,
            BinaryOp::Rem => a is Mod,
            _ => false,
        },
        eval::binary_value(op, m.regs[Reg::T(0)], m.regs[Reg::A(0)]) is Some,
    ensures
        does(out, riscv_text::op_code(op), m, n),
        Some(n.regs[Reg::A(0)]) == eval::binary_value(op, m.regs[Reg::T(0)], m.regs[Reg::A(0)]),
        n.mem == m.mem,
        forall|r: Reg| r != Reg::A(0) ==> #[trigger] n.regs[r] == m.regs[r],
{
    arithmetic_texts();
    riscv_reading::registers_are_read();
    riscv_reading::mnemonics_are_words();
    let l = m.regs[Reg::T(0)];
    let r = m.regs[Reg::A(0)];
    numbers::operators_compute(op, l, r);
    let (w, o): (Seq<char>, Op) = match op {
        BinaryOp::Add => ("add"@, Op::Add),
        BinaryOp::Sub => ("sub"@, Op::Sub),
        BinaryOp::Mul => ("mul"@, Op::Mul),
        BinaryOp::Div => ("div"@, Op::Div),
        _ => ("rem"@, Op::Rem),
    };
    riscv_reading::compute_is_read(
        w,
        o,
        "a0"@,
        Reg::A(0),
        "t0"@,
        Reg::T(0),
        "a0"@,
        Reg::A(0),
    );
    let x = Line::Compute { op: o, rd: Reg::A(0), a: Reg::T(0), b: Reg::A(0) };
    line_does(out, riscv_text::op_code(op), x, m);
    words_wrap(eval::binary_value(op, l, r)->0);
    executed(out, x, m)
}

/// The code of a comparison makes it of `t0` and `a0`.
proof fn comparison_does(out: Outside, op: BinaryOp, c: IrCmpOp, m: Machine) -> (n: Machine)
    requires
        match op {
            BinaryOp::Lt => c is Lt,
            BinaryOp::Gt => c is Gt,
            BinaryOp::Le => c is Le,
            BinaryOp::Ge => c is Ge,
            BinaryOp::Eq => c is Eq,
            BinaryOp::Ne => c is Ne,
            _ => false,
        },
    ensures
        does(out, riscv_text::op_code(op), m, n),
        Some(n.regs[Reg::A(0)]) == eval::binary_value(op, m.regs[Reg::T(0)], m.regs[Reg::A(0)]),
        n.mem == m.mem,
        forall|r: Reg| r != Reg::A(0) ==> #[trigger] n.regs[r] == m.regs[r],
{
    arithmetic_texts();
    order_texts();
    equality_texts();
    short_is_read();
    riscv_reading::registers_are_read();
    riscv_reading::mnemonics_are_words();
    riscv_reading::zero_is_read();
    numbers::operators_compute(op, m.regs[Reg::T(0)], m.regs[Reg::A(0)]);
    let slt = four("slt"@, "a0"@, "t0"@, "a0"@);
    let sgt = four("sgt"@, "a0"@, "t0"@, "a0"@);
    let sub = four("sub"@, "a0"@, "t0"@, "a0"@);
    let flip = four("xori"@, "a0"@, "a0"@, "1"@);
    let is_zero = three("seqz"@, "a0"@, "a0"@);
    let is_other = three("snez"@, "a0"@, "a0"@);
    riscv_reading::compute_is_read(
        "slt"@,
        Op::Slt,
        "a0"@,
        Reg::A(0),
        "t0"@,
        Reg::T(0),
        "a0"@,
        Reg::A(0),
    );
    riscv_reading::compute_is_read(
        "sub"@,
        Op::Sub,
        "a0"@,
        Reg::A(0),
        "t0"@,
        Reg::T(0),
        "a0"@,
        Reg::A(0),
    );
    riscv_reading::compute_imm_is_read(
        "xori"@,
        Op::Xor,
        "a0"@,
        Reg::A(0),
        "a0"@,
        Reg::A(0),
        "1"@,
        1,
    );
    riscv_machine::listing_of_two(sgt, flip);
    riscv_machine::listing_of_two(slt, flip);
    riscv_machine::listing_of_two(sub, is_zero);
    riscv_machine::listing_of_two(sub, is_other);
    let code = riscv_text::op_code(op);
    let ls = riscv_reading::compare_lines(c, Reg::A(0), Reg::T(0), Reg::A(0));
    assert(listing(code) =~= ls);
    assert(whole_lines(code)) by {
        assert((sgt + flip).last() == flip.last());
        assert((slt + flip).last() == flip.last());
        assert((sub + is_zero).last() == is_zero.last());
        assert((sub + is_other).last() == is_other.last());
    }
    lines_compare(out, c, Reg::A(0), Reg::T(0), Reg::A(0), m)
}

/// The code of an operator leaves in `a0` what the operator makes of `t0` and `a0`, and changes
/// nothing else.
pub proof fn operators_do(out: Outside, op: BinaryOp, m: Machine) -> (n: Machine)
    requires
        !(op is And) && !(op is Or),
        eval::binary_value(op, m.regs[Reg::T(0)], m.regs[Reg::A(0)]) is Some,
    ensures
        does(out, riscv_text::op_code(op), m, n),
        Some(n.regs[Reg::A(0)]) == eval::binary_value(op, m.regs[Reg::T(0)], m.regs[Reg::A(0)]),
        n.mem == m.mem,
        forall|r: Reg| r != Reg::A(0) ==> #[trigger] n.regs[r] == m.regs[r],
{
    match op {
        BinaryOp::Add => arithmetic_does(out, op, IrArithOp::Add, m),
        BinaryOp::Sub => arithmetic_does(out, op, IrArithOp::Sub, m),
        BinaryOp::Mul => arithmetic_does(out, op, IrArithOp::Mul, m),
        BinaryOp::Div => arithmetic_does(out, op, IrArithOp::Div, m),
        BinaryOp::Rem => arithmetic_does(out, op, IrArithOp::Mod, m),
        BinaryOp::Lt => comparison_does(out, op, IrCmpOp::Lt, m),
        BinaryOp::Gt => comparison_does(out, op, IrCmpOp::Gt, m),
        BinaryOp::Le => comparison_does(out, op, IrCmpOp::Le, m),
        BinaryOp::Ge => comparison_does(out, op, IrCmpOp::Ge, m),
        BinaryOp::Eq => comparison_does(out, op, IrCmpOp::Eq, m),
        _ => comparison_does(out, op, IrCmpOp::Ne, m),
    }
}

// ── The stack ────────────────────────────────────────────────────────────────

/// Offsets that are less than the whole of memory apart are at different addresses.
proof fn near_offsets_differ(m: Machine, a: int, b: int)
    requires
        -numbers::modulus() < a - b < numbers::modulus(),
    ensures
        at_offset(m, a) == at_offset(m, b) <==> a == b,
{
    let k = numbers::modulus();
    if at_offset(m, a) == at_offset(m, b) {
        let x = m.regs[Reg::Sp] + a;
        let y = m.regs[Reg::Sp] + b;
        assert(x % k == y % k);
        vstd::arithmetic::div_mod::lemma_fundamental_div_mod(x, k);
        vstd::arithmetic::div_mod::lemma_fundamental_div_mod(y, k);
        let p = x / k;
        let q = y / k;
        assert(p == q) by (nonlinear_arith)
            requires
                k > 0,
                -k < x - y < k,
                x == k * p + x % k,
                y == k * q + y % k,
                x % k == y % k,
        ;
    }
}

/// The code that pushes a register.
pub open spec fn push_code(reg: Seq<char>) -> Seq<char> {
    ("  "@ + "addi sp, sp, -4"@ + "\n"@) + ("  "@ + ("sw "@ + reg + ", 0(sp)"@) + "\n"@)
}

/// The code that pops a register.
pub open spec fn pop_code(reg: Seq<char>) -> Seq<char> {
    ("  "@ + ("lw "@ + reg + ", 0(sp)"@) + "\n"@) + ("  "@ + "addi sp, sp, 4"@ + "\n"@)
}

proof fn stack_texts(reg: Seq<char>)
    ensures
        push_code(reg) == four("addi"@, "sp"@, "sp"@, "-4"@) + memory("sw"@, reg, "0"@, "sp"@),
        pop_code(reg) == memory("lw"@, reg, "0"@, "sp"@) + four("addi"@, "sp"@, "sp"@, "4"@),
{
    reveal_strlit("  ");
    reveal_strlit(" ");
    reveal_strlit(", ");
    reveal_strlit("\n");
    reveal_strlit("(");
    reveal_strlit(")\n");
    reveal_strlit("addi");
    reveal_strlit("sp");
    reveal_strlit("-4");
    reveal_strlit("4");
    reveal_strlit("0");
    reveal_strlit("lw");
    reveal_strlit("sw");
    reveal_strlit("lw ");
    reveal_strlit("sw ");
    reveal_strlit(", 0(sp)");
    reveal_strlit("addi sp, sp, -4");
    reveal_strlit("addi sp, sp, 4");
    assert("  "@ + "addi sp, sp, -4"@ + "\n"@ =~= four("addi"@, "sp"@, "sp"@, "-4"@));
    assert("  "@ + "addi sp, sp, 4"@ + "\n"@ =~= four("addi"@, "sp"@, "sp"@, "4"@));
    assert("  "@ + ("sw "@ + reg + ", 0(sp)"@) + "\n"@ =~= memory("sw"@, reg, "0"@, "sp"@));
    assert("  "@ + ("lw "@ + reg + ", 0(sp)"@) + "\n"@ =~= memory("lw"@, reg, "0"@, "sp"@));
}

/// Pushing a register puts it in the word below the stack pointer, which then points to it.
pub proof fn push_does(out: Outside, g: RvV, reg: Seq<char>, r: Reg, m: Machine) -> (n: Machine)
    requires
        names(reg, r),
        r != Reg::Sp && !(r is Zero),
    ensures
        g.push(reg) matches Ok(h) ==> h == (RvV {
            extra: (g.extra + 4) as i32,
            out: g.out + push_code(reg),
            ..g
        }) && g.extra + 4 <= i32::MAX,
        does(out, push_code(reg), m, n),
        n.regs[Reg::Sp] == at_offset(m, -4),
        n.mem == m.mem.insert(at_offset(m, -4), m.regs[r]),
        forall|q: Reg| q != Reg::Sp ==> #[trigger] n.regs[q] == m.regs[q],
{
    stack_texts(reg);
    riscv_reading::registers_are_read();
    riscv_reading::mnemonics_are_words();
    riscv_reading::zero_is_read();
    riscv_reading::compute_imm_is_read(
        "addi"@,
        Op::Add,
        "sp"@,
        Reg::Sp,
        "sp"@,
        Reg::Sp,
        "-4"@,
        -4,
    );
    riscv_reading::load_is_read(reg, r, "0"@, 0, "sp"@, Reg::Sp);
    let a = Line::ComputeImm { op: Op::Add, rd: Reg::Sp, a: Reg::Sp, imm: -4 };
    let b = Line::Sw { rs: r, offset: 0, base: Reg::Sp };
    let x = four("addi"@, "sp"@, "sp"@, "-4"@);
    let y = memory("sw"@, reg, "0"@, "sp"@);
    words_wrap((-4) as i32);
    words_wrap(at_offset(m, -4));
    let k = executed(out, a, m);
    line_does(out, x, a, m);
    line_does(out, y, b, k);
    let n = executed(out, b, k);
    does_both(out, x, y, m, k, n);
    if g.push(reg) is Ok {
        let h = g.push(reg)->Ok_0;
        assert(h.out =~= g.out + push_code(reg));
    }
    n
}

/// Popping a register gives it the word that the stack pointer points to, and leaves that word.
pub proof fn pop_does(out: Outside, g: RvV, reg: Seq<char>, r: Reg, m: Machine) -> (n: Machine)
    requires
        names(reg, r),
        r != Reg::Sp && !(r is Zero),
    ensures
        g.pop(reg) == (RvV { extra: (g.extra - 4) as i32, out: g.out + pop_code(reg), ..g }),
        does(out, pop_code(reg), m, n),
        n.regs[Reg::Sp] == at_offset(m, 4),
        n.regs[r] == m.mem[m.regs[Reg::Sp]],
        n.mem == m.mem,
        forall|q: Reg| q != Reg::Sp && q != r ==> #[trigger] n.regs[q] == m.regs[q],
{
    stack_texts(reg);
    riscv_reading::registers_are_read();
    riscv_reading::mnemonics_are_words();
    riscv_reading::zero_is_read();
    riscv_reading::compute_imm_is_read(
        "addi"@,
        Op::Add,
        "sp"@,
        Reg::Sp,
        "sp"@,
        Reg::Sp,
        "4"@,
        4,
    );
    riscv_reading::load_is_read(reg, r, "0"@, 0, "sp"@, Reg::Sp);
    let a = Line::Lw { rd: r, offset: 0, base: Reg::Sp };
    let b = Line::ComputeImm { op: Op::Add, rd: Reg::Sp, a: Reg::Sp, imm: 4 };
    let x = memory("lw"@, reg, "0"@, "sp"@);
    let y = four("addi"@, "sp"@, "sp"@, "4"@);
    words_wrap(4);
    words_wrap(m.regs[Reg::Sp]);
    let k = executed(out, a, m);
    line_does(out, x, a, m);
    line_does(out, y, b, k);
    let n = executed(out, b, k);
    does_both(out, x, y, m, k, n);
    assert(g.pop(reg).out =~= g.out + pop_code(reg));
    n
}

// ── Expressions ──────────────────────────────────────────────────────────────

/// The value of an expression over constants and the variables of a function, by what the variables
/// hold. An expression with a short-circuit operator, a call or an element is not among these.
pub open spec fn value(v: ScopesV<RvSymV>, vars: spec_fn(i32) -> i32, e: ExprV) -> Option<i32>
    decreases e,
{
    match e {
        ExprV::Int(n) => Some(n),
        ExprV::LVal(name) => match v.lookup(name) {
            Some(RvSymV::Const(n)) => Some(n),
            Some(RvSymV::Var(o)) => Some(vars(o)),
            _ => None,
        },
        ExprV::Unary { op, expr } => match value(v, vars, *expr) {
            Some(x) => Some(eval::unary_value(op, x)),
            None => None,
        },
        ExprV::Binary { op, lhs, rhs } => if op is And || op is Or {
            None
        } else {
            match (value(v, vars, *lhs), value(v, vars, *rhs)) {
                (Some(x), Some(y)) => eval::binary_value(op, x, y),
                _ => None,
            }
        },
        _ => None,
    }
}

/// Whether the variables of a function hold something on a machine.
pub open spec fn holds(g: RvV, m: Machine, vars: spec_fn(i32) -> i32) -> bool {
    forall|name: Seq<char>|
        match #[trigger] g.scopes.lookup(name) {
            Some(RvSymV::Var(o)) => o >= 0 && m.mem[at_offset(m, o + g.extra)] == vars(o),
            _ => true,
        }
}

/// What stays as it is: the stack pointer and the words at it and above.
pub open spec fn keeps(g: RvV, m: Machine, n: Machine) -> bool {
    &&& forall|r: Reg|
        r != Reg::A(0) && r != Reg::T(0) ==> #[trigger] n.regs[r] == m.regs[r]
    &&& forall|x: int|
        0 <= x <= i32::MAX + g.extra ==> n.mem[#[trigger] at_offset(m, x)] == m.mem[at_offset(m, x)]
}

/// The code of a number.
proof fn number_does(out: Outside, g: RvV, k: i32, m: Machine) -> (r: (Seq<char>, Machine))
    ensures
        g.emit("li a0, "@ + text::dec_int(k as int)) == g.code(r.0),
        does(out, r.0, m, r.1),
        r.1.regs[Reg::A(0)] == k,
        keeps(g, m, r.1),
{
    riscv_reading::registers_are_read();
    riscv_reading::li_is_read("a0"@, Reg::A(0), k as int);
    let code = ir_to_riscv::li("a0"@, k as int);
    reveal_strlit("  ");
    reveal_strlit(", ");
    reveal_strlit("a0");
    reveal_strlit("li a0, ");
    reveal_strlit("  li ");
    assert("  "@ + ("li a0, "@ + text::dec_int(k as int)) + "\n"@ =~= code);
    let l = Line::Li { rd: Reg::A(0), imm: k as int };
    line_does(out, code, l, m);
    words_wrap(k);
    (code, executed(out, l, m))
}

/// The code of a prefix operator makes of `a0` what the operator does.
proof fn prefix_does(out: Outside, op: UnaryOp, m: Machine) -> (n: Machine)
    requires
        !(op is Plus),
    ensures
        does(
            out,
            "  "@ + (if op is Minus {
                "neg a0, a0"@
            } else {
                "seqz a0, a0"@
            }) + "\n"@,
            m,
            n,
        ),
        n.regs[Reg::A(0)] == eval::unary_value(op, m.regs[Reg::A(0)]),
        n.mem == m.mem,
        forall|r: Reg| r != Reg::A(0) ==> #[trigger] n.regs[r] == m.regs[r],
{
    equality_texts();
    short_is_read();
    let v = m.regs[Reg::A(0)];
    numbers::prefix_operators_compute(v);
    words_wrap(1);
    let neg = Line::Compute { op: Op::Sub, rd: Reg::A(0), a: Reg::Zero, b: Reg::A(0) };
    let not = Line::ComputeImm { op: Op::Sltu, rd: Reg::A(0), a: Reg::A(0), imm: 1 };
    if op is Minus {
        line_does(out, three("neg"@, "a0"@, "a0"@), neg, m);
        executed(out, neg, m)
    } else {
        line_does(out, three("seqz"@, "a0"@, "a0"@), not, m);
        executed(out, not, m)
    }
}

/// The code of an expression leaves its value in `a0`. It keeps the stack pointer and all that is
/// at it or above.
pub proof fn expressions_do(
    out: Outside,
    g: RvV,
    e: ExprV,
    vars: spec_fn(i32) -> i32,
    m: Machine,
) -> (r: (Seq<char>, Machine))
    requires
        riscv_text::expr(g, e) is Ok,
        value(g.scopes, vars, e) is Some,
        holds(g, m, vars),
        g.extra >= 0,
    ensures
        riscv_text::expr(g, e)->Ok_0 == g.code(r.0),
        does(out, r.0, m, r.1),
        r.1.regs[Reg::A(0)] == value(g.scopes, vars, e)->0,
        keeps(g, m, r.1),
    decreases e, 1int,
{
    match e {
        ExprV::Int(k) => number_does(out, g, k, m),
        ExprV::LVal(name) => match g.scopes.lookup(name) {
            Some(RvSymV::Const(k)) => number_does(out, g, k, m),
            Some(RvSymV::Var(o)) => {
                riscv_reading::registers_are_read();
                let at = g.at(o)->Ok_0;
                let n = lw_does(out, "a0"@, Reg::A(0), at, m);
                (ir_to_riscv::lw("a0"@, at), n)
            },
            _ => (Seq::empty(), m),
        },
        ExprV::Unary { op, expr } => {
            let (c, k) = expressions_do(out, g, *expr, vars, m);
            let g1 = g.code(c);
            if op is Plus {
                (c, k)
            } else {
                let s = if op is Minus {
                    "neg a0, a0"@
                } else {
                    "seqz a0, a0"@
                };
                let n = prefix_does(out, op, k);
                let d = "  "@ + s + "\n"@;
                does_both(out, c, d, m, k, n);
                assert(g1.emit(s).out =~= g.out + (c + d));
                (c + d, n)
            }
        },
        ExprV::Binary { op, lhs, rhs } => {
            assert(e == binary(op, *lhs, *rhs));
            binary_does(out, g, op, *lhs, *rhs, vars, m)
        },
        _ => (Seq::empty(), m),
    }
}

/// A state with a word more on the stack.
spec fn lowered(g: RvV) -> RvV {
    RvV { extra: (g.extra + 4) as i32, ..g }
}

/// A binary operator with its operands.
spec fn binary(op: BinaryOp, lhs: ExprV, rhs: ExprV) -> ExprV {
    ExprV::Binary { op, lhs: Box::new(lhs), rhs: Box::new(rhs) }
}

/// After a push the variables hold what they held.
proof fn push_keeps(g: RvV, m: Machine, k: Machine, n: Machine, vars: spec_fn(i32) -> i32, v: i32)
    requires
        holds(g, m, vars),
        keeps(g, m, k),
        0 <= g.extra && g.extra + 4 <= i32::MAX,
        n.regs[Reg::Sp] == at_offset(k, -4),
        n.mem == k.mem.insert(at_offset(k, -4), v),
    ensures
        holds(lowered(g), n, vars),
        forall|x: int| #[trigger] at_offset(n, x) == at_offset(m, x - 4),
        forall|x: int|
            0 <= x <= i32::MAX + g.extra ==> n.mem[#[trigger] at_offset(m, x)] == m.mem[at_offset(
                m,
                x,
            )],
        n.mem[at_offset(m, -4)] == v,
{
    assert(k.regs[Reg::Sp] == m.regs[Reg::Sp]);
    assert forall|x: int| #[trigger] at_offset(n, x) == at_offset(m, x - 4) by {
        offsets_add(m.regs[Reg::Sp] - 4, x);
    }
    assert forall|x: int| 0 <= x <= i32::MAX + g.extra implies n.mem[#[trigger] at_offset(m, x)]
        == m.mem[at_offset(m, x)] by {
        near_offsets_differ(m, x, -4);
        assert(at_offset(k, -4) == at_offset(m, -4));
    }
    let h = lowered(g);
    assert forall|name: Seq<char>|
        match #[trigger] h.scopes.lookup(name) {
            Some(RvSymV::Var(o)) => o >= 0 && n.mem[at_offset(n, o + h.extra)] == vars(o),
            _ => true,
        } by {
        if let Some(RvSymV::Var(o)) = g.scopes.lookup(name) {
            assert(at_offset(n, o + h.extra) == at_offset(m, o + g.extra));
            assert(m.mem[at_offset(m, o + g.extra)] == vars(o));
        }
    }
}

/// The code of a binary operator: the left operand waits on the stack while the right one is
/// computed.
#[verifier::rlimit(60)]
#[verifier::spinoff_prover]
proof fn binary_does(
    out: Outside,
    g: RvV,
    op: BinaryOp,
    lhs: ExprV,
    rhs: ExprV,
    vars: spec_fn(i32) -> i32,
    m: Machine,
) -> (r: (Seq<char>, Machine))
    requires
        !(op is And) && !(op is Or),
        riscv_text::expr(g, binary(op, lhs, rhs)) is Ok,
        value(g.scopes, vars, binary(op, lhs, rhs)) is Some,
        holds(g, m, vars),
        g.extra >= 0,
    ensures
        riscv_text::expr(g, binary(op, lhs, rhs))->Ok_0 == g.code(r.0),
        does(out, r.0, m, r.1),
        Some(r.1.regs[Reg::A(0)]) == value(g.scopes, vars, binary(op, lhs, rhs)),
        keeps(g, m, r.1),
    decreases binary(op, lhs, rhs), 0int,
{
    riscv_reading::registers_are_read();
    let (c1, m1) = expressions_do(out, g, lhs, vars, m);
    let g1 = g.code(c1);
    let x = m1.regs[Reg::A(0)];
    let m2 = push_does(out, g1, "a0"@, Reg::A(0), m1);
    let p = push_code("a0"@);
    let g2 = g1.push("a0"@)->Ok_0;
    push_keeps(g, m, m1, m2, vars, x);
    let (c2, m3) = expressions_do(out, g2, rhs, vars, m2);
    let g3 = g2.code(c2);
    assert(m3.mem[m3.regs[Reg::Sp]] == x) by {
        assert(at_offset(m2, 0) == at_offset(m, -4));
        words_wrap(m2.regs[Reg::Sp]);
        assert(m3.regs[Reg::Sp] == m2.regs[Reg::Sp]);
    }
    let m4 = pop_does(out, g3, "t0"@, Reg::T(0), m3);
    let q = pop_code("t0"@);
    let m5 = operators_do(out, op, m4);
    let o = riscv_text::op_code(op);
    does_both(out, c1, p, m, m1, m2);
    does_both(out, c1 + p, c2, m, m2, m3);
    does_both(out, c1 + p + c2, q, m, m3, m4);
    does_both(out, c1 + p + c2 + q, o, m, m4, m5);
    let code = c1 + p + c2 + q + o;
    assert(g3.pop("t0"@).code(o).out =~= g.out + code);
    assert(m5.regs[Reg::Sp] == m.regs[Reg::Sp]) by {
        assert(at_offset(m3, 4) == at_offset(m2, 4));
        assert(at_offset(m2, 4) == at_offset(m, 0));
        words_wrap(m.regs[Reg::Sp]);
    }
    assert forall|y: int| 0 <= y <= i32::MAX + g.extra implies m5.mem[#[trigger] at_offset(m, y)]
        == m.mem[at_offset(m, y)] by {
        assert(at_offset(m2, y + 4) == at_offset(m, y));
        assert(m3.mem[at_offset(m2, y + 4)] == m2.mem[at_offset(m2, y + 4)]);
    }
    (code, m5)
}

// ── Statements ───────────────────────────────────────────────────────────────

proof fn move_texts(d: Seq<char>)
    ensures
        "  addi sp, sp, "@ + d + "\n"@ == four("addi"@, "sp"@, "sp"@, d),
        "  addi sp, sp, -"@ + d + "\n"@ == four("addi"@, "sp"@, "sp"@, seq!['-'] + d),
        "  li t0, "@ + d + "\n  add sp, sp, t0\n"@ == three("li"@, "t0"@, d) + four(
            "add"@,
            "sp"@,
            "sp"@,
            "t0"@,
        ),
        "  li t0, "@ + d + "\n  sub sp, sp, t0\n"@ == three("li"@, "t0"@, d) + four(
            "sub"@,
            "sp"@,
            "sp"@,
            "t0"@,
        ),
        "  li "@ + "t0"@ + ", "@ + d + "\n"@ == three("li"@, "t0"@, d),
{
    reveal_strlit("  ");
    reveal_strlit(" ");
    reveal_strlit(", ");
    reveal_strlit("\n");
    reveal_strlit("addi");
    reveal_strlit("add");
    reveal_strlit("sub");
    reveal_strlit("li");
    reveal_strlit("sp");
    reveal_strlit("t0");
    reveal_strlit("  li ");
    reveal_strlit("  li t0, ");
    reveal_strlit("  addi sp, sp, ");
    reveal_strlit("  addi sp, sp, -");
    reveal_strlit("\n  add sp, sp, t0\n");
    reveal_strlit("\n  sub sp, sp, t0\n");
    assert("  addi sp, sp, "@ + d + "\n"@ =~= four("addi"@, "sp"@, "sp"@, d));
    assert("  addi sp, sp, -"@ + d + "\n"@ =~= four("addi"@, "sp"@, "sp"@, seq!['-'] + d));
    let li = three("li"@, "t0"@, d);
    assert("  li t0, "@ + d + "\n  add sp, sp, t0\n"@ =~= li + four("add"@, "sp"@, "sp"@, "t0"@));
    assert("  li t0, "@ + d + "\n  sub sp, sp, t0\n"@ =~= li + four("sub"@, "sp"@, "sp"@, "t0"@));
    assert("  li "@ + "t0"@ + ", "@ + d + "\n"@ =~= li);
}

/// The stack pointer is moved by as many bytes as it is to move.
pub proof fn stack_moves(out: Outside, delta: int, m: Machine) -> (n: Machine)
    requires
        -i32::MAX <= delta <= i32::MAX,
    ensures
        does(out, riscv_text::sp_add(delta), m, n),
        n.regs[Reg::Sp] == at_offset(m, delta),
        n.mem == m.mem,
        forall|r: Reg| r != Reg::Sp && r != Reg::T(0) ==> #[trigger] n.regs[r] == m.regs[r],
{
    riscv_reading::registers_are_read();
    riscv_reading::mnemonics_are_words();
    let size = if delta < 0 {
        -delta
    } else {
        delta
    };
    let d = text::dec_int(size);
    move_texts(d);
    reading::numerals_denote(size);
    reading::numerals_denote(delta);
    words_wrap(delta as i32);
    words_wrap(size as i32);
    words_wrap(m.regs[Reg::Sp]);
    if delta == 0 {
        nothing_does(out, m);
        m
    } else if -2048 < delta < 2048 {
        let v = text::dec_int(delta);
        if delta < 0 {
            assert(v =~= seq!['-'] + d);
        }
        riscv_reading::compute_imm_is_read(
            "addi"@,
            Op::Add,
            "sp"@,
            Reg::Sp,
            "sp"@,
            Reg::Sp,
            v,
            delta,
        );
        let a = Line::ComputeImm { op: Op::Add, rd: Reg::Sp, a: Reg::Sp, imm: delta };
        line_does(out, riscv_text::sp_add(delta), a, m);
        executed(out, a, m)
    } else {
        riscv_reading::li_is_read("t0"@, Reg::T(0), size);
        let (w, o): (Seq<char>, Op) = if delta > 0 {
            ("add"@, Op::Add)
        } else {
            ("sub"@, Op::Sub)
        };
        riscv_reading::compute_is_read(
            w,
            o,
            "sp"@,
            Reg::Sp,
            "sp"@,
            Reg::Sp,
            "t0"@,
            Reg::T(0),
        );
        let a = Line::Li { rd: Reg::T(0), imm: size };
        let b = Line::Compute { op: o, rd: Reg::Sp, a: Reg::Sp, b: Reg::T(0) };
        let x = three("li"@, "t0"@, d);
        let y = four(w, "sp"@, "sp"@, "t0"@);
        let k = executed(out, a, m);
        line_does(out, x, a, m);
        line_does(out, y, b, k);
        let n = executed(out, b, k);
        does_both(out, x, y, m, k, n);
        n
    }
}

/// A return leaves the value of its expression in `a0`, gives the frame back, and goes back to the
/// address that is kept in the last word of the frame.
pub proof fn returns_do(
    out: Outside,
    g: RvV,
    e: ExprV,
    size: i32,
    vars: spec_fn(i32) -> i32,
    m: Machine,
) -> (r: (Seq<char>, Machine))
    requires
        riscv_text::expr(g, e) is Ok,
        value(g.scopes, vars, e) is Some,
        holds(g, m, vars),
        g.extra >= 0,
        size >= 4,
    ensures
        riscv_text::stmt(g, StmtV::Return(Some(e)), size) == Ok::<RvV, ErrorView>(g.code(r.0)),
        run(out, r.0, m) == Exit::Returns(r.1),
        Some(r.1.regs[Reg::A(0)]) == value(g.scopes, vars, e),
        r.1.regs[Reg::Sp] == at_offset(m, size as int),
        r.1.regs[Reg::Ra] == m.mem[at_offset(m, size - 4)],
{
    riscv_reading::registers_are_read();
    let (c, m1) = expressions_do(out, g, e, vars, m);
    let at = (size - 4) as i32;
    let m2 = lw_does(out, "ra"@, Reg::Ra, at, m1);
    let m3 = stack_moves(out, size as int, m2);
    let x = ir_to_riscv::lw("ra"@, at);
    let y = riscv_text::sp_add(size as int);
    does_both(out, c, x, m, m1, m2);
    does_both(out, c + x, y, m, m2, m3);
    riscv_reading::call_is_read("ra"@);
    runs_on(out, c + x + y, "  ret\n"@, m, m3);
    assert(left(out, listing("  ret\n"@), 0, m3) == Exit::Returns(m3));
    let code = c + x + y + "  ret\n"@;
    assert(g.code(c).code(riscv_text::leave(size)).out =~= g.out + code);
    assert(at_offset(m1, at as int) == at_offset(m, size - 4));
    (code, m3)
}

/// The code of a condition goes on where its value is not zero, and to a label where it is.
pub proof fn conditions_go(
    out: Outside,
    g: RvV,
    e: ExprV,
    target: Seq<char>,
    vars: spec_fn(i32) -> i32,
    m: Machine,
) -> (r: (Seq<char>, Machine))
    requires
        riscv_text::expr(g, e) is Ok,
        value(g.scopes, vars, e) is Some,
        holds(g, m, vars),
        g.extra >= 0,
        is_word(target),
    ensures
        (riscv_text::expr(g, e)->Ok_0).emit("beqz a0, "@ + target) == g.code(r.0),
        run(out, r.0, m) == if value(g.scopes, vars, e) == Some(0i32) {
            Exit::To(target, r.1)
        } else {
            Exit::End(r.1)
        },
        keeps(g, m, r.1),
{
    riscv_reading::registers_are_read();
    riscv_reading::mnemonics_are_words();
    let (c, n) = expressions_do(out, g, e, vars, m);
    reveal_strlit("beqz");
    reveal_strlit("beqz a0, ");
    reveal_strlit("a0");
    reveal_strlit(" ");
    reveal_strlit(", ");
    let b = three("beqz"@, "a0"@, target);
    assert("  "@ + ("beqz a0, "@ + target) + "\n"@ =~= b);
    riscv_reading::three_is_read("beqz"@, "a0"@, target);
    runs_on(out, c, b, m, n);
    let l = Line::Beqz { rs: Reg::A(0), label: target };
    assert(listing(b) =~= seq![l]);
    assert(listing(b)[0] == l);
    assert(left(out, listing(b), 1, n) == Exit::End(n));
    assert((riscv_text::expr(g, e)->Ok_0).emit("beqz a0, "@ + target).out =~= g.out + (c + b));
    (c + b, n)
}

/// A new label is a word.
proof fn labels_are_words(g: RvV)
    ensures
        g.new_label() matches Ok((_, s)) ==> is_word(s),
{
    if let Ok((_, s)) = g.new_label() {
        reveal_strlit(".L");
        reading::numerals_denote(g.label as int);
        let d = text::dec_int(g.label as int);
        assert forall|i: int| 0 <= i < s.len() implies !reading::gap(#[trigger] s[i]) by {
            if i >= 2 {
                assert(s[i] == d[i - 2]);
            }
        }
    }
}

/// An `if` runs the code of its condition first. Where the value is not zero, control goes on to
/// the code of the first branch; where it is zero, to a label that stands before the code of the
/// second branch, or at the end where there is none. The first branch ends in a jump to the end.
pub proof fn ifs_go(
    out: Outside,
    g: RvV,
    cond: ExprV,
    first: StmtV,
    second: Option<StmtV>,
    size: i32,
    vars: spec_fn(i32) -> i32,
    m: Machine,
) -> (r: (Seq<char>, Machine, Seq<char>, RvV, RvV))
    requires
        riscv_text::stmt(g, choice(cond, first, second), size) is Ok,
        value(g.scopes, vars, cond) is Some,
        holds(g, m, vars),
        g.extra >= 0,
    ensures
        ({
            let (code, n, target, before, after) = r;
            let h = riscv_text::stmt(g, choice(cond, first, second), size)->Ok_0;
            &&& run(out, code, m) == if value(g.scopes, vars, cond) == Some(0i32) {
                Exit::To(target, n)
            } else {
                Exit::End(n)
            }
            &&& keeps(g, m, n)
            &&& before.scopes == g.scopes && before.extra == g.extra
            &&& exists|yes: Seq<char>| #[trigger]
                is_word(yes) && before.out == g.out + code + (yes + ":\n"@)
            &&& riscv_text::stmt(before, first, size) == Ok::<RvV, ErrorView>(after)
            &&& match second {
                None => h == after.emit("j "@ + target).start(target),
                Some(s) => exists|end: Seq<char>, last: RvV|
                    is_word(end) && riscv_text::stmt(
                        after.emit("j "@ + end).start(target),
                        s,
                        size,
                    ) == Ok::<RvV, ErrorView>(last) && h == #[trigger] last.emit("j "@ + end).start(
                        end,
                    ),
            }
        }),
{
    let g1 = riscv_text::expr(g, cond)->Ok_0;
    labels_are_words(g1);
    let (g2, yes) = g1.new_label()->Ok_0;
    labels_are_words(g2);
    let (g3, no) = g2.new_label()->Ok_0;
    labels_are_words(g3);
    let (g4, end) = g3.new_label()->Ok_0;
    let target = if second is Some {
        no
    } else {
        end
    };
    let (code, n) = conditions_go(out, g, cond, target, vars, m);
    let before = g4.emit("beqz a0, "@ + target).start(yes);
    let after = riscv_text::stmt(before, first, size)->Ok_0;
    assert(before.out =~= g.out + code + (yes + ":\n"@));
    assert(is_word(yes));
    if let Some(s) = second {
        let last = riscv_text::stmt(after.emit("j "@ + end).start(no), s, size)->Ok_0;
        let h = last.emit("j "@ + end).start(end);
        assert(riscv_text::stmt(g, choice(cond, first, second), size) == Ok::<RvV, ErrorView>(h));
    }
    (code, n, target, before, after)
}

/// An `if` statement.
pub open spec fn choice(cond: ExprV, first: StmtV, second: Option<StmtV>) -> StmtV {
    StmtV::If {
        cond,
        then_branch: Box::new(first),
        else_branch: match second {
            Some(s) => Some(Box::new(s)),
            None => None,
        },
    }
}

/// A `while` jumps to the label before its condition. Where the value of the condition is not zero,
/// control goes on to the code of the body, which ends in a jump back to that label; where it is
/// zero, to a label at the end. In the body `continue` means the first label and `break` the last.
pub proof fn whiles_go(
    out: Outside,
    g: RvV,
    cond: ExprV,
    body: StmtV,
    size: i32,
    vars: spec_fn(i32) -> i32,
    m: Machine,
) -> (r: (Seq<char>, Machine, Seq<char>, Seq<char>, RvV, RvV))
    requires
        riscv_text::stmt(g, (StmtV::While { cond, body: Box::new(body) }), size) is Ok,
        value(g.scopes, vars, cond) is Some,
        holds(g, m, vars),
        g.extra >= 0,
    ensures
        ({
            let (code, n, entry, end, before, after) = r;
            let h = riscv_text::stmt(
                g,
                (StmtV::While { cond, body: Box::new(body) }),
                size,
            )->Ok_0;
            &&& run(out, code, m) == if value(g.scopes, vars, cond) == Some(0i32) {
                Exit::To(end, n)
            } else {
                Exit::End(n)
            }
            &&& keeps(g, m, n)
            &&& before.loops == g.loops.push((entry, end))
            &&& exists|inside: Seq<char>| #[trigger]
                is_word(inside) && before.out == g.out + ("  "@ + ("j "@ + entry) + "\n"@) + (entry
                    + ":\n"@) + code + (inside + ":\n"@)
            &&& riscv_text::stmt(before, body, size) == Ok::<RvV, ErrorView>(after)
            &&& h.out == after.out + ("  "@ + ("j "@ + entry) + "\n"@) + (end + ":\n"@)
        }),
{
    labels_are_words(g);
    let (g1, entry) = g.new_label()->Ok_0;
    labels_are_words(g1);
    let (g2, inside) = g1.new_label()->Ok_0;
    labels_are_words(g2);
    let (g3, end) = g2.new_label()->Ok_0;
    let g4 = g3.emit("j "@ + entry).start(entry);
    let (code, n) = conditions_go(out, g4, cond, end, vars, m);
    let g5 = g4.code(code);
    let before = RvV { loops: g5.loops.push((entry, end)), ..g5 }.start(inside);
    let after = riscv_text::stmt(before, body, size)->Ok_0;
    assert(before.out =~= g.out + ("  "@ + ("j "@ + entry) + "\n"@) + (entry + ":\n"@) + code + (
    inside + ":\n"@));
    assert(is_word(inside));
    (code, n, entry, end, before, after)
}

/// A new label of Koopa IR is a word.
proof fn koopa_labels_are_words(g: KoopaV)
    ensures
        g.new_label() matches Ok((_, s)) ==> is_word(s),
{
    if let Ok((_, s)) = g.new_label() {
        reveal_strlit("%label_");
        reading::numerals_denote(g.label as int);
        let d = text::dec_int(g.label as int);
        assert forall|i: int| 0 <= i < s.len() implies !reading::gap(#[trigger] s[i]) by {
            if i >= 7 {
                assert(s[i] == d[i - 7]);
            }
        }
    }
}

/// In Koopa IR an `if` ends the block of its condition with a branch. Where the value is not zero
/// it goes to the label before the code of the first branch, and else to the label before the code
/// of the second, or at the end where there is none.
pub proof fn koopa_ifs_go(g: KoopaV, cond: ExprV, first: StmtV, second: Option<StmtV>, v: int) -> (r: (
    Seq<char>,
    Seq<char>,
    Seq<char>,
    KoopaV,
    KoopaV,
))
    requires
        koopa_text::stmt(g, choice(cond, first, second)) is Ok,
        is_word((koopa_text::expr(g, cond)->Ok_0).1),
    ensures
        ({
            let (line, yes, no, before, after) = r;
            let (g1, c) = koopa_text::expr(g, cond)->Ok_0;
            let h = koopa_text::stmt(g, choice(cond, first, second))->Ok_0;
            &&& words(line).len() == 4 && words(line)[1] == c
            &&& koopa_reading::destination(words(line), v) == Some(
                if v != 0 {
                    yes
                } else {
                    no
                },
            )
            &&& before.body == g1.body + ("  "@ + line + "\n"@) + (yes + ":\n"@)
            &&& koopa_text::stmt(before, first) == Ok::<KoopaV, ErrorView>(after)
            &&& match second {
                None => h == koopa_text::jump_on(after, no).start(no),
                Some(s) => exists|end: Seq<char>| #[trigger]
                    is_word(end) && koopa_text::stmt(
                        koopa_text::jump_on(after, end).start(no),
                        s,
                    ) is Ok,
            }
        }),
{
    let (g1, c) = koopa_text::expr(g, cond)->Ok_0;
    koopa_labels_are_words(g1);
    let (g2, yes) = g1.new_label()->Ok_0;
    koopa_labels_are_words(g2);
    let (g3, other) = g2.new_label()->Ok_0;
    koopa_labels_are_words(g3);
    let (g4, end) = g3.new_label()->Ok_0;
    let no = if second is Some {
        other
    } else {
        end
    };
    koopa_branches_go(c, yes, no, v);
    let line = koopa_text::br(c, yes, no);
    let before = g4.end_with(line).start(yes);
    let after = koopa_text::stmt(before, first)->Ok_0;
    assert(before.body =~= g1.body + ("  "@ + line + "\n"@) + (yes + ":\n"@));
    assert(is_word(end));
    (line, yes, no, before, after)
}

} // verus!

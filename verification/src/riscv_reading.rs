//! What the lines of written assembly are when they are read.

use crate::frame;
use crate::ir::{IrArithOp, IrCmpOp};
use crate::ir_to_riscv;
use crate::leaf_code;
use crate::reading::{self, gap_after, in_line, is_word, numeral, whole_lines, word_after, words};
use crate::riscv_machine::{
    self, decoded, immediate_operation, line, listing, operation, register, Line, Op, Reg,
};
use crate::text;
use vstd::prelude::*;

verus! {

// ── Lines of words ───────────────────────────────────────────────────────────

/// A line of a mnemonic and an operand.
pub open spec fn two(op: Seq<char>, x: Seq<char>) -> Seq<char> {
    "  "@ + op + " "@ + x + "\n"@
}

/// A line of a mnemonic and two operands.
pub open spec fn three(op: Seq<char>, x: Seq<char>, y: Seq<char>) -> Seq<char> {
    "  "@ + op + " "@ + x + ", "@ + y + "\n"@
}

/// A line of a mnemonic and three operands.
pub open spec fn four(op: Seq<char>, x: Seq<char>, y: Seq<char>, z: Seq<char>) -> Seq<char> {
    "  "@ + op + " "@ + x + ", "@ + y + ", "@ + z + "\n"@
}

/// A line of a mnemonic, a register and an address.
pub open spec fn memory(
    op: Seq<char>,
    x: Seq<char>,
    offset: Seq<char>,
    base: Seq<char>,
) -> Seq<char> {
    "  "@ + op + " "@ + x + ", "@ + offset + "("@ + base + ")\n"@
}

proof fn gaps()
    ensures
        "  "@ =~= seq![' ', ' '] && " "@ =~= seq![' '] && ", "@ =~= seq![',', ' '],
        "\n"@ =~= seq!['\n'] && "("@ =~= seq!['('] && ")"@ =~= seq![')'],
        ")\n"@ =~= seq![')', '\n'],
{
    reveal_strlit("  ");
    reveal_strlit(" ");
    reveal_strlit(", ");
    reveal_strlit("\n");
    reveal_strlit("(");
    reveal_strlit(")");
    reveal_strlit(")\n");
}

proof fn in_line_two(x: Seq<char>, y: Seq<char>)
    requires
        in_line(x),
        in_line(y),
    ensures
        in_line(x + y),
{
    assert forall|i: int| 0 <= i < (x + y).len() implies #[trigger] (x + y)[i] != '\n' by {
        if i < x.len() {
            assert((x + y)[i] == x[i]);
        } else {
            assert((x + y)[i] == y[i - x.len()]);
        }
    }
}

/// A word is within a line.
pub proof fn words_are_in_line(w: Seq<char>)
    requires
        is_word(w),
    ensures
        in_line(w),
{
    assert forall|i: int| 0 <= i < w.len() implies #[trigger] w[i] != '\n' by {
        assert(!reading::gap(w[i]));
    }
}

/// One line of words that ends in a word.
proof fn one_line(s: Seq<char>, w: Seq<char>)
    requires
        is_word(w),
        in_line(s),
        s.len() >= w.len(),
        s.last() == w.last(),
    ensures
        listing(s + "\n"@) == seq![decoded(words(s))],
        whole_lines(s + "\n"@),
{
    gaps();
    assert("\n"@ =~= seq!['\n']);
    riscv_machine::listing_of_line(s);
    assert(!reading::gap(w[w.len() - 1]));
}

pub proof fn two_is_read(op: Seq<char>, x: Seq<char>)
    requires
        is_word(op),
        is_word(x),
    ensures
        listing(two(op, x)) == seq![decoded(seq![op, x])],
        whole_lines(two(op, x)),
{
    gaps();
    words_are_in_line(op);
    words_are_in_line(x);
    reading::words_of_gap("  "@);
    word_after("  "@, op);
    gap_after("  "@ + op, " "@);
    word_after("  "@ + op + " "@, x);
    let s = "  "@ + op + " "@ + x;
    in_line_two("  "@, op);
    in_line_two("  "@ + op, " "@);
    in_line_two("  "@ + op + " "@, x);
    assert(s.last() == x.last());
    one_line(s, x);
    assert(words(s) =~= seq![op, x]);
}

pub proof fn three_is_read(op: Seq<char>, x: Seq<char>, y: Seq<char>)
    requires
        is_word(op),
        is_word(x),
        is_word(y),
    ensures
        listing(three(op, x, y)) == seq![decoded(seq![op, x, y])],
        whole_lines(three(op, x, y)),
{
    gaps();
    words_are_in_line(op);
    words_are_in_line(x);
    words_are_in_line(y);
    reading::words_of_gap("  "@);
    word_after("  "@, op);
    gap_after("  "@ + op, " "@);
    word_after("  "@ + op + " "@, x);
    let a = "  "@ + op + " "@ + x;
    gap_after(a, ", "@);
    word_after(a + ", "@, y);
    let s = a + ", "@ + y;
    in_line_two("  "@, op);
    in_line_two("  "@ + op, " "@);
    in_line_two("  "@ + op + " "@, x);
    in_line_two(a, ", "@);
    in_line_two(a + ", "@, y);
    assert(s.last() == y.last());
    one_line(s, y);
    assert(words(s) =~= seq![op, x, y]);
}

pub proof fn four_is_read(op: Seq<char>, x: Seq<char>, y: Seq<char>, z: Seq<char>)
    requires
        is_word(op),
        is_word(x),
        is_word(y),
        is_word(z),
    ensures
        listing(four(op, x, y, z)) == seq![decoded(seq![op, x, y, z])],
        whole_lines(four(op, x, y, z)),
{
    gaps();
    words_are_in_line(op);
    words_are_in_line(x);
    words_are_in_line(y);
    words_are_in_line(z);
    reading::words_of_gap("  "@);
    word_after("  "@, op);
    gap_after("  "@ + op, " "@);
    word_after("  "@ + op + " "@, x);
    let a = "  "@ + op + " "@ + x;
    gap_after(a, ", "@);
    word_after(a + ", "@, y);
    let b = a + ", "@ + y;
    gap_after(b, ", "@);
    word_after(b + ", "@, z);
    let s = b + ", "@ + z;
    in_line_two("  "@, op);
    in_line_two("  "@ + op, " "@);
    in_line_two("  "@ + op + " "@, x);
    in_line_two(a, ", "@);
    in_line_two(a + ", "@, y);
    in_line_two(b, ", "@);
    in_line_two(b + ", "@, z);
    assert(s.last() == z.last());
    one_line(s, z);
    assert(words(s) =~= seq![op, x, y, z]);
}

pub proof fn memory_is_read(op: Seq<char>, x: Seq<char>, offset: Seq<char>, base: Seq<char>)
    requires
        is_word(op),
        is_word(x),
        is_word(offset),
        is_word(base),
    ensures
        listing(memory(op, x, offset, base)) == seq![decoded(seq![op, x, offset, base])],
        whole_lines(memory(op, x, offset, base)),
{
    gaps();
    words_are_in_line(op);
    words_are_in_line(x);
    words_are_in_line(offset);
    words_are_in_line(base);
    reading::words_of_gap("  "@);
    word_after("  "@, op);
    gap_after("  "@ + op, " "@);
    word_after("  "@ + op + " "@, x);
    let a = "  "@ + op + " "@ + x;
    gap_after(a, ", "@);
    word_after(a + ", "@, offset);
    let b = a + ", "@ + offset;
    gap_after(b, "("@);
    word_after(b + "("@, base);
    let c = b + "("@ + base;
    gap_after(c, ")"@);
    let s = c + ")"@;
    in_line_two("  "@, op);
    in_line_two("  "@ + op, " "@);
    in_line_two("  "@ + op + " "@, x);
    in_line_two(a, ", "@);
    in_line_two(a + ", "@, offset);
    in_line_two(b, "("@);
    in_line_two(b + "("@, base);
    in_line_two(c, ")"@);
    riscv_machine::listing_of_line(s);
    assert(s + seq!['\n'] =~= memory(op, x, offset, base));
    assert(words(s) =~= seq![op, x, offset, base]);
    assert(s.last() == ')');
}

/// A label alone on its line.
pub proof fn label_is_read(name: Seq<char>)
    requires
        is_word(name),
    ensures
        listing(name + ":\n"@) == seq![Line::Label(name)],
        whole_lines(name + ":\n"@),
{
    reveal_strlit(":\n");
    words_are_in_line(name);
    let colon = seq![':'];
    reading::words_of_word(name);
    gap_after(name, colon);
    in_line_two(name, colon);
    let s = name + colon;
    riscv_machine::listing_of_line(s);
    assert(s + seq!['\n'] =~= name + ":\n"@);
    assert(s.last() == ':');
}

// ── Registers and mnemonics ──────────────────────────────────────────────────

/// The registers that are written by name.
pub proof fn registers_are_read()
    ensures
        register("zero"@) == Some(Reg::Zero) && is_word("zero"@),
        register("ra"@) == Some(Reg::Ra) && is_word("ra"@),
        register("sp"@) == Some(Reg::Sp) && is_word("sp"@),
        register("t0"@) == Some(Reg::T(0)) && is_word("t0"@),
        register("t1"@) == Some(Reg::T(1)) && is_word("t1"@),
        register("t2"@) == Some(Reg::T(2)) && is_word("t2"@),
        register("t3"@) == Some(Reg::T(3)) && is_word("t3"@),
        register("t4"@) == Some(Reg::T(4)) && is_word("t4"@),
        register("t5"@) == Some(Reg::T(5)) && is_word("t5"@),
        register("t6"@) == Some(Reg::T(6)) && is_word("t6"@),
        register("a0"@) == Some(Reg::A(0)) && is_word("a0"@),
{
    reveal_strlit("zero");
    reveal_strlit("ra");
    reveal_strlit("sp");
    reveal_strlit("t0");
    reveal_strlit("t1");
    reveal_strlit("t2");
    reveal_strlit("t3");
    reveal_strlit("t4");
    reveal_strlit("t5");
    reveal_strlit("t6");
    reveal_strlit("a0");
    assert("zero"@.len() == 4);
    assert("ra"@[0] == 'r' && "sp"@[0] == 's' && "t0"@[0] == 't' && "t1"@[0] == 't' && "t2"@[0]
        == 't' && "t3"@[0] == 't' && "t4"@[0] == 't' && "t5"@[0] == 't' && "t6"@[0] == 't'
        && "a0"@[0] == 'a');
    assert("t0"@[1] == '0' && "t1"@[1] == '1' && "t2"@[1] == '2' && "t3"@[1] == '3' && "t4"@[1]
        == '4' && "t5"@[1] == '5' && "t6"@[1] == '6' && "a0"@[1] == '0' && "sp"@[1] == 'p');
}

/// An argument register is read by its number.
pub proof fn argument_registers_are_read(k: nat)
    requires
        k < 8,
    ensures
        register(ir_to_riscv::arg_reg(k)) == Some(Reg::A(k as int)),
        is_word(ir_to_riscv::arg_reg(k)),
        ir_to_riscv::arg_reg(k) == "a0"@ <==> k == 0,
{
    reveal_strlit("a");
    reveal_strlit("a0");
    reveal_strlit("zero");
    reveal_strlit("ra");
    reveal_strlit("sp");
    let s = ir_to_riscv::arg_reg(k);
    assert(s =~= seq!['a', text::digit_char(k)]);
    assert("ra"@[0] == 'r' && "sp"@[0] == 's' && "zero"@.len() == 4);
    assert("a0"@[1] == '0');
    if k == 0 {
        assert(s =~= "a0"@);
    } else {
        assert(s[1] != "a0"@[1]);
    }
}

/// The mnemonics are words, and no two of them are the same.
pub proof fn mnemonics_are_words()
    ensures
        is_word("lw"@) && is_word("sw"@) && is_word("li"@) && is_word("la"@) && is_word("mv"@),
        is_word("add"@) && is_word("sub"@) && is_word("mul"@) && is_word("div"@) && is_word(
            "rem"@,
        ),
        is_word("slt"@) && is_word("sltu"@) && is_word("addi"@) && is_word("xori"@) && is_word(
            "sltiu"@,
        ) && is_word("slli"@),
        is_word("bnez"@) && is_word("j"@) && is_word("call"@) && is_word("ret"@),
        operation("lw"@) is None && operation("sw"@) is None,
        immediate_operation("lw"@) is None && immediate_operation("sw"@) is None,
        "lw"@ != "sw"@,
        operation("add"@) == Some(Op::Add) && operation("sub"@) == Some(Op::Sub),
        operation("mul"@) == Some(Op::Mul) && operation("div"@) == Some(Op::Div),
        operation("rem"@) == Some(Op::Rem) && operation("slt"@) == Some(Op::Slt),
        operation("sltu"@) == Some(Op::Sltu),
        immediate_operation("addi"@) == Some(Op::Add),
        immediate_operation("xori"@) == Some(Op::Xor),
        immediate_operation("sltiu"@) == Some(Op::Sltu),
        immediate_operation("slli"@) == Some(Op::Sll),
        operation("addi"@) is None && operation("xori"@) is None && operation("sltiu"@) is None
            && operation("slli"@) is None,
        "add"@ != "lw"@ && "add"@ != "sw"@ && "sub"@ != "lw"@ && "sub"@ != "sw"@ && "mul"@ != "lw"@
            && "mul"@ != "sw"@ && "div"@ != "lw"@ && "div"@ != "sw"@ && "rem"@ != "lw"@ && "rem"@
            != "sw"@ && "slt"@ != "lw"@ && "slt"@ != "sw"@ && "sltu"@ != "lw"@ && "sltu"@ != "sw"@,
        "addi"@ != "lw"@ && "addi"@ != "sw"@ && "xori"@ != "lw"@ && "xori"@ != "sw"@ && "sltiu"@
            != "lw"@ && "sltiu"@ != "sw"@ && "slli"@ != "lw"@ && "slli"@ != "sw"@,
        "bnez"@ != "beqz"@ && "li"@ != "bnez"@ && "li"@ != "beqz"@ && "la"@ != "bnez"@ && "la"@
            != "beqz"@ && "mv"@ != "bnez"@ && "mv"@ != "beqz"@,
        "li"@ != "la"@ && "li"@ != "mv"@ && "la"@ != "mv"@,
        "j"@ != "call"@,
{
    reveal_strlit("lw");
    reveal_strlit("sw");
    reveal_strlit("li");
    reveal_strlit("la");
    reveal_strlit("mv");
    reveal_strlit("add");
    reveal_strlit("sub");
    reveal_strlit("mul");
    reveal_strlit("div");
    reveal_strlit("rem");
    reveal_strlit("slt");
    reveal_strlit("sltu");
    reveal_strlit("xor");
    reveal_strlit("sll");
    reveal_strlit("slti");
    reveal_strlit("addi");
    reveal_strlit("xori");
    reveal_strlit("sltiu");
    reveal_strlit("slli");
    reveal_strlit("bnez");
    reveal_strlit("beqz");
    reveal_strlit("j");
    reveal_strlit("call");
    reveal_strlit("ret");
    assert("lw"@.len() == 2 && "sw"@.len() == 2 && "li"@.len() == 2 && "la"@.len() == 2
        && "mv"@.len() == 2);
    assert("lw"@[0] == 'l' && "sw"@[0] == 's' && "li"@[0] == 'l' && "la"@[0] == 'l' && "mv"@[0]
        == 'm' && "li"@[1] == 'i' && "la"@[1] == 'a' && "lw"@[1] == 'w');
    assert("add"@.len() == 3 && "sub"@.len() == 3 && "mul"@.len() == 3 && "div"@.len() == 3
        && "rem"@.len() == 3 && "slt"@.len() == 3 && "xor"@.len() == 3 && "sll"@.len() == 3);
    assert("add"@[0] == 'a' && "sub"@[0] == 's' && "mul"@[0] == 'm' && "div"@[0] == 'd' && "rem"@[0]
        == 'r' && "slt"@[0] == 's' && "xor"@[0] == 'x' && "sll"@[0] == 's');
    assert("sub"@[1] == 'u' && "slt"@[1] == 'l' && "sll"@[1] == 'l' && "slt"@[2] == 't' && "sll"@[2]
        == 'l');
    assert("sltu"@.len() == 4 && "addi"@.len() == 4 && "xori"@.len() == 4 && "slli"@.len() == 4
        && "slti"@.len() == 4 && "sltiu"@.len() == 5);
    assert("sltu"@[0] == 's' && "addi"@[0] == 'a' && "xori"@[0] == 'x' && "slli"@[0] == 's'
        && "slti"@[0] == 's' && "slli"@[2] == 'l' && "slti"@[2] == 't');
    assert("bnez"@[1] == 'n' && "beqz"@[1] == 'e' && "bnez"@.len() == 4 && "beqz"@.len() == 4);
    assert("j"@.len() == 1 && "call"@.len() == 4 && "ret"@.len() == 3);
}

// ── Instructions ─────────────────────────────────────────────────────────────

/// Whether a text is the name of a register.
pub open spec fn names(w: Seq<char>, r: Reg) -> bool {
    is_word(w) && register(w) == Some(r)
}

pub proof fn compute_is_read(
    m: Seq<char>,
    op: Op,
    d: Seq<char>,
    rd: Reg,
    x: Seq<char>,
    a: Reg,
    y: Seq<char>,
    b: Reg,
)
    requires
        operation(m) == Some(op),
        m != "lw"@ && m != "sw"@,
        is_word(m),
        names(d, rd),
        names(x, a),
        names(y, b),
    ensures
        listing(four(m, d, x, y)) == seq![Line::Compute { op, rd, a, b }],
        whole_lines(four(m, d, x, y)),
{
    four_is_read(m, d, x, y);
}

pub proof fn compute_imm_is_read(
    m: Seq<char>,
    op: Op,
    d: Seq<char>,
    rd: Reg,
    x: Seq<char>,
    a: Reg,
    y: Seq<char>,
    imm: int,
)
    requires
        immediate_operation(m) == Some(op),
        operation(m) is None,
        m != "lw"@ && m != "sw"@,
        is_word(m),
        names(d, rd),
        names(x, a),
        is_word(y),
        numeral(y) == Some(imm),
    ensures
        listing(four(m, d, x, y)) == seq![Line::ComputeImm { op, rd, a, imm }],
        whole_lines(four(m, d, x, y)),
{
    four_is_read(m, d, x, y);
}

pub proof fn li_is_read(d: Seq<char>, rd: Reg, n: int)
    requires
        names(d, rd),
    ensures
        listing(ir_to_riscv::li(d, n)) == seq![Line::Li { rd, imm: n }],
        whole_lines(ir_to_riscv::li(d, n)),
{
    mnemonics_are_words();
    gaps();
    reveal_strlit("li");
    reveal_strlit("  li ");
    reading::numerals_denote(n);
    three_is_read("li"@, d, text::dec_int(n));
    assert(ir_to_riscv::li(d, n) =~= three("li"@, d, text::dec_int(n)));
}

/// Loads and stores relative to a register.
pub proof fn load_is_read(d: Seq<char>, rd: Reg, offset: Seq<char>, n: int, x: Seq<char>, base: Reg)
    requires
        names(d, rd),
        is_word(offset),
        numeral(offset) == Some(n),
        names(x, base),
    ensures
        listing(memory("lw"@, d, offset, x)) == seq![Line::Lw { rd, offset: n, base }],
        whole_lines(memory("lw"@, d, offset, x)),
        listing(memory("sw"@, d, offset, x)) == seq![Line::Sw { rs: rd, offset: n, base }],
        whole_lines(memory("sw"@, d, offset, x)),
{
    mnemonics_are_words();
    memory_is_read("lw"@, d, offset, x);
    memory_is_read("sw"@, d, offset, x);
}

/// The numeral of zero.
pub proof fn zero_is_read()
    ensures
        is_word("0"@) && numeral("0"@) == Some(0int),
        is_word("1"@) && numeral("1"@) == Some(1int),
        is_word("2"@) && numeral("2"@) == Some(2int),
        is_word("4"@) && numeral("4"@) == Some(4int),
        is_word("-4"@) && numeral("-4"@) == Some(-4int),
{
    reveal_strlit("0");
    reveal_strlit("1");
    reveal_strlit("2");
    reveal_strlit("4");
    reveal_strlit("-4");
    reading::numerals_denote(0);
    reading::numerals_denote(1);
    reading::numerals_denote(2);
    reading::numerals_denote(4);
    reading::numerals_denote(-4);
    assert(text::dec_int(0) =~= "0"@);
    assert(text::dec_int(1) =~= "1"@);
    assert(text::dec_int(2) =~= "2"@);
    assert(text::dec_int(4) =~= "4"@);
    assert(text::dec_int(-4) =~= "-4"@);
}

/// The lines that load a word at an offset from the stack pointer.
pub open spec fn lw_lines(rd: Reg, offset: int) -> Seq<Line> {
    if ir_to_riscv::is_short(offset) {
        seq![Line::Lw { rd, offset, base: Reg::Sp }]
    } else {
        seq![
            Line::Li { rd: Reg::T(0), imm: offset },
            Line::Compute { op: Op::Add, rd: Reg::T(0), a: Reg::Sp, b: Reg::T(0) },
            Line::Lw { rd, offset: 0, base: Reg::T(0) },
        ]
    }
}

pub proof fn lw_is_read(d: Seq<char>, rd: Reg, offset: i32)
    requires
        names(d, rd),
    ensures
        listing(ir_to_riscv::lw(d, offset)) == lw_lines(rd, offset as int),
        whole_lines(ir_to_riscv::lw(d, offset)),
{
    registers_are_read();
    mnemonics_are_words();
    gaps();
    zero_is_read();
    reading::numerals_denote(offset as int);
    let off = text::dec_int(offset as int);
    reveal_strlit("lw");
    reveal_strlit("  lw ");
    reveal_strlit("sp");
    reveal_strlit("(sp)\n");
    if ir_to_riscv::is_short(offset as int) {
        load_is_read(d, rd, off, offset as int, "sp"@, Reg::Sp);
        assert(ir_to_riscv::lw(d, offset) =~= memory("lw"@, d, off, "sp"@));
    } else {
        reveal_strlit("  li t0, ");
        reveal_strlit("\n  add t0, sp, t0\n");
        reveal_strlit(", 0(t0)\n");
        reveal_strlit("li");
        reveal_strlit("add");
        reveal_strlit("t0");
        reveal_strlit("0");
        three_is_read("li"@, "t0"@, off);
        compute_is_read("add"@, Op::Add, "t0"@, Reg::T(0), "sp"@, Reg::Sp, "t0"@, Reg::T(0));
        load_is_read(d, rd, "0"@, 0, "t0"@, Reg::T(0));
        let x = three("li"@, "t0"@, off);
        let y = four("add"@, "t0"@, "sp"@, "t0"@);
        let z = memory("lw"@, d, "0"@, "t0"@);
        assert(("  li t0, "@ + off + "\n  add t0, sp, t0\n"@) =~= x + y);
        assert(("  lw "@ + d + ", 0(t0)\n"@) =~= z);
        riscv_machine::listing_of_two(x, y);
        riscv_machine::listing_of_two(x + y, z);
        assert(listing(ir_to_riscv::lw(d, offset)) =~= lw_lines(rd, offset as int));
    }
}

/// The lines that store a register at an offset from the stack pointer.
pub open spec fn sw_lines(rs: Reg, scratch: Reg, offset: int) -> Seq<Line> {
    if ir_to_riscv::is_short(offset) {
        seq![Line::Sw { rs, offset, base: Reg::Sp }]
    } else {
        seq![
            Line::Li { rd: scratch, imm: offset },
            Line::Compute { op: Op::Add, rd: scratch, a: Reg::Sp, b: scratch },
            Line::Sw { rs, offset: 0, base: scratch },
        ]
    }
}

/// The register that a long offset is put in.
pub open spec fn spare(rs: Reg) -> Reg {
    if rs == Reg::T(0) {
        Reg::T(1)
    } else {
        Reg::T(0)
    }
}

pub proof fn sw_is_read(d: Seq<char>, rs: Reg, offset: i32)
    requires
        names(d, rs),
    ensures
        listing(ir_to_riscv::sw(d, offset)) == sw_lines(rs, spare(rs), offset as int),
        whole_lines(ir_to_riscv::sw(d, offset)),
{
    registers_are_read();
    mnemonics_are_words();
    gaps();
    zero_is_read();
    reading::numerals_denote(offset as int);
    let off = text::dec_int(offset as int);
    let s = ir_to_riscv::scratch(d);
    assert(names(s, spare(rs))) by {
        if rs == Reg::T(0) {
            reveal_strlit("t0");
            reveal_strlit("zero");
            reveal_strlit("ra");
            reveal_strlit("sp");
            assert(d =~= "t0"@);
        }
    }
    reveal_strlit("sw");
    reveal_strlit("  sw ");
    reveal_strlit("sp");
    reveal_strlit("(sp)\n");
    if ir_to_riscv::is_short(offset as int) {
        load_is_read(d, rs, off, offset as int, "sp"@, Reg::Sp);
        assert(ir_to_riscv::sw(d, offset) =~= memory("sw"@, d, off, "sp"@));
    } else {
        reveal_strlit("  li ");
        reveal_strlit("  add ");
        reveal_strlit(", sp, ");
        reveal_strlit(", 0(");
        reveal_strlit("li");
        reveal_strlit("add");
        reveal_strlit("0");
        three_is_read("li"@, s, off);
        compute_is_read("add"@, Op::Add, s, spare(rs), "sp"@, Reg::Sp, s, spare(rs));
        load_is_read(d, rs, "0"@, 0, s, spare(rs));
        let x = three("li"@, s, off);
        let y = four("add"@, s, "sp"@, s);
        let z = memory("sw"@, d, "0"@, s);
        assert(("  li "@ + s + ", "@ + off + "\n"@) =~= x);
        assert(("  add "@ + s + ", sp, "@ + s + "\n"@) =~= y);
        assert(("  sw "@ + d + ", 0("@ + s + ")\n"@) =~= z);
        riscv_machine::listing_of_two(x, y);
        riscv_machine::listing_of_two(x + y, z);
        assert(listing(ir_to_riscv::sw(d, offset)) =~= sw_lines(rs, spare(rs), offset as int));
    }
}

/// The lines that compute an address at an offset from the stack pointer.
pub open spec fn addr_lines(rd: Reg, offset: int) -> Seq<Line> {
    if ir_to_riscv::is_short(offset) {
        seq![Line::ComputeImm { op: Op::Add, rd, a: Reg::Sp, imm: offset }]
    } else {
        seq![
            Line::Li { rd, imm: offset },
            Line::Compute { op: Op::Add, rd, a: Reg::Sp, b: rd },
        ]
    }
}

pub proof fn addr_is_read(d: Seq<char>, rd: Reg, offset: i32)
    requires
        names(d, rd),
    ensures
        listing(ir_to_riscv::addr(d, offset)) == addr_lines(rd, offset as int),
        whole_lines(ir_to_riscv::addr(d, offset)),
{
    registers_are_read();
    mnemonics_are_words();
    gaps();
    reading::numerals_denote(offset as int);
    let off = text::dec_int(offset as int);
    reveal_strlit("sp");
    reveal_strlit(", sp, ");
    if ir_to_riscv::is_short(offset as int) {
        reveal_strlit("addi");
        reveal_strlit("  addi ");
        compute_imm_is_read("addi"@, Op::Add, d, rd, "sp"@, Reg::Sp, off, offset as int);
        assert(ir_to_riscv::addr(d, offset) =~= four("addi"@, d, "sp"@, off));
    } else {
        reveal_strlit("  li ");
        reveal_strlit("  add ");
        reveal_strlit("li");
        reveal_strlit("add");
        three_is_read("li"@, d, off);
        compute_is_read("add"@, Op::Add, d, rd, "sp"@, Reg::Sp, d, rd);
        let x = three("li"@, d, off);
        let y = four("add"@, d, "sp"@, d);
        assert(("  li "@ + d + ", "@ + off + "\n"@) =~= x);
        assert(("  add "@ + d + ", sp, "@ + d + "\n"@) =~= y);
        riscv_machine::listing_of_two(x, y);
        assert(listing(ir_to_riscv::addr(d, offset)) =~= addr_lines(rd, offset as int));
    }
}

/// The lines that move the stack pointer.
pub open spec fn addi_sp_lines(delta: int) -> Seq<Line> {
    if ir_to_riscv::is_short(delta) {
        seq![Line::ComputeImm { op: Op::Add, rd: Reg::Sp, a: Reg::Sp, imm: delta }]
    } else {
        seq![
            Line::Li { rd: Reg::T(0), imm: delta },
            Line::Compute { op: Op::Add, rd: Reg::Sp, a: Reg::Sp, b: Reg::T(0) },
        ]
    }
}

pub proof fn addi_sp_is_read(delta: i32)
    ensures
        listing(ir_to_riscv::addi_sp(delta)) == addi_sp_lines(delta as int),
        whole_lines(ir_to_riscv::addi_sp(delta)),
{
    registers_are_read();
    mnemonics_are_words();
    gaps();
    reading::numerals_denote(delta as int);
    let d = text::dec_int(delta as int);
    reveal_strlit("sp");
    if ir_to_riscv::is_short(delta as int) {
        reveal_strlit("addi");
        reveal_strlit("  addi sp, sp, ");
        compute_imm_is_read("addi"@, Op::Add, "sp"@, Reg::Sp, "sp"@, Reg::Sp, d, delta as int);
        assert(ir_to_riscv::addi_sp(delta) =~= four("addi"@, "sp"@, "sp"@, d));
    } else {
        reveal_strlit("  li t0, ");
        reveal_strlit("\n  add sp, sp, t0\n");
        reveal_strlit("t0");
        reveal_strlit("li");
        reveal_strlit("add");
        three_is_read("li"@, "t0"@, d);
        compute_is_read("add"@, Op::Add, "sp"@, Reg::Sp, "sp"@, Reg::Sp, "t0"@, Reg::T(0));
        let x = three("li"@, "t0"@, d);
        let y = four("add"@, "sp"@, "sp"@, "t0"@);
        assert(ir_to_riscv::addi_sp(delta) =~= x + y);
        riscv_machine::listing_of_two(x, y);
        assert(listing(ir_to_riscv::addi_sp(delta)) =~= addi_sp_lines(delta as int));
    }
}

/// The lines that multiply an index by the size of an element.
pub open spec fn scale_lines(size: int, rd: Reg, index: Reg) -> Seq<Line> {
    if size == 0 || size == 1 {
        Seq::empty()
    } else if size == 4 {
        seq![Line::ComputeImm { op: Op::Sll, rd, a: index, imm: 2 }]
    } else {
        seq![
            Line::Li { rd: Reg::T(3), imm: size },
            Line::Compute { op: Op::Mul, rd, a: index, b: Reg::T(3) },
        ]
    }
}

pub proof fn scale_is_read(size: i32, d: Seq<char>, rd: Reg, x: Seq<char>, index: Reg)
    requires
        names(d, rd),
        names(x, index),
    ensures
        listing(ir_to_riscv::offset_mul(size, d, x)) == scale_lines(size as int, rd, index),
        whole_lines(ir_to_riscv::offset_mul(size, d, x)),
{
    registers_are_read();
    mnemonics_are_words();
    gaps();
    zero_is_read();
    let n = text::dec_int(size as int);
    reading::numerals_denote(size as int);
    if size == 0 || size == 1 {
        assert(listing(Seq::empty()) =~= Seq::empty());
    } else if size == 4 {
        reveal_strlit("slli");
        reveal_strlit("  slli ");
        reveal_strlit(", 2\n");
        reveal_strlit("2");
        compute_imm_is_read("slli"@, Op::Sll, d, rd, x, index, "2"@, 2);
        assert(ir_to_riscv::offset_mul(size, d, x) =~= four("slli"@, d, x, "2"@));
    } else {
        reveal_strlit("  li t3, ");
        reveal_strlit("  mul ");
        reveal_strlit(", t3\n");
        reveal_strlit("t3");
        reveal_strlit("li");
        reveal_strlit("mul");
        three_is_read("li"@, "t3"@, n);
        compute_is_read("mul"@, Op::Mul, d, rd, x, index, "t3"@, Reg::T(3));
        let a = three("li"@, "t3"@, n);
        let b = four("mul"@, d, x, "t3"@);
        assert(("  li t3, "@ + n + "\n"@) =~= a);
        assert(("  mul "@ + d + ", "@ + x + ", t3\n"@) =~= b);
        riscv_machine::listing_of_two(a, b);
        assert(listing(ir_to_riscv::offset_mul(size, d, x)) =~= scale_lines(
            size as int,
            rd,
            index,
        ));
    }
}

/// The operation of an arithmetic instruction.
pub open spec fn arith_op(op: IrArithOp) -> Op {
    match op {
        IrArithOp::Add => Op::Add,
        IrArithOp::Sub => Op::Sub,
        IrArithOp::Mul => Op::Mul,
        IrArithOp::Div => Op::Div,
        IrArithOp::Mod => Op::Rem,
    }
}

pub proof fn to_a0_from_is_read(
    m: Seq<char>,
    op: Op,
    x: Seq<char>,
    a: Reg,
    y: Seq<char>,
    b: Reg,
)
    requires
        operation(m) == Some(op),
        m != "lw"@ && m != "sw"@,
        is_word(m),
        names(x, a),
        names(y, b),
    ensures
        listing(ir_to_riscv::to_a0_from(m, x, y)) == seq![
            Line::Compute { op, rd: Reg::A(0), a, b },
        ],
        whole_lines(ir_to_riscv::to_a0_from(m, x, y)),
{
    registers_are_read();
    gaps();
    reveal_strlit("a0");
    reveal_strlit(" a0, ");
    compute_is_read(m, op, "a0"@, Reg::A(0), x, a, y, b);
    assert(ir_to_riscv::to_a0_from(m, x, y) =~= four(m, "a0"@, x, y));
}

/// The lines that compare two registers.
pub open spec fn compare_lines(op: IrCmpOp, rd: Reg, l: Reg, r: Reg) -> Seq<Line> {
    match op {
        IrCmpOp::Lt => seq![Line::Compute { op: Op::Slt, rd, a: l, b: r }],
        IrCmpOp::Gt => seq![Line::Compute { op: Op::Slt, rd, a: r, b: l }],
        IrCmpOp::Le => seq![
            Line::Compute { op: Op::Slt, rd, a: r, b: l },
            Line::ComputeImm { op: Op::Xor, rd, a: rd, imm: 1 },
        ],
        IrCmpOp::Ge => seq![
            Line::Compute { op: Op::Slt, rd, a: l, b: r },
            Line::ComputeImm { op: Op::Xor, rd, a: rd, imm: 1 },
        ],
        IrCmpOp::Eq => seq![
            Line::Compute { op: Op::Sub, rd, a: l, b: r },
            Line::ComputeImm { op: Op::Sltu, rd, a: rd, imm: 1 },
        ],
        IrCmpOp::Ne => seq![
            Line::Compute { op: Op::Sub, rd, a: l, b: r },
            Line::Compute { op: Op::Sltu, rd, a: Reg::Zero, b: rd },
        ],
    }
}

pub proof fn compare_is_read(op: IrCmpOp, x: Seq<char>, l: Reg, y: Seq<char>, r: Reg)
    requires
        names(x, l),
        names(y, r),
    ensures
        listing(ir_to_riscv::compare(op, x, y)) == compare_lines(op, Reg::A(0), l, r),
        whole_lines(ir_to_riscv::compare(op, x, y)),
{
    registers_are_read();
    mnemonics_are_words();
    gaps();
    zero_is_read();
    reveal_strlit("a0");
    reveal_strlit("1");
    reveal_strlit("zero");
    reveal_strlit("xori");
    reveal_strlit("sltiu");
    reveal_strlit("sltu");
    reveal_strlit("  xori a0, a0, 1\n");
    reveal_strlit("  sltiu a0, a0, 1\n");
    reveal_strlit("  sltu a0, zero, a0\n");
    to_a0_from_is_read("slt"@, Op::Slt, x, l, y, r);
    to_a0_from_is_read("slt"@, Op::Slt, y, r, x, l);
    to_a0_from_is_read("sub"@, Op::Sub, x, l, y, r);
    compute_imm_is_read("xori"@, Op::Xor, "a0"@, Reg::A(0), "a0"@, Reg::A(0), "1"@, 1);
    compute_imm_is_read("sltiu"@, Op::Sltu, "a0"@, Reg::A(0), "a0"@, Reg::A(0), "1"@, 1);
    compute_is_read("sltu"@, Op::Sltu, "a0"@, Reg::A(0), "zero"@, Reg::Zero, "a0"@, Reg::A(0));
    assert("  xori a0, a0, 1\n"@ =~= four("xori"@, "a0"@, "a0"@, "1"@));
    assert("  sltiu a0, a0, 1\n"@ =~= four("sltiu"@, "a0"@, "a0"@, "1"@));
    assert("  sltu a0, zero, a0\n"@ =~= four("sltu"@, "a0"@, "zero"@, "a0"@));
    riscv_machine::listing_of_two(
        ir_to_riscv::to_a0_from("slt"@, x, y),
        "  xori a0, a0, 1\n"@,
    );
    riscv_machine::listing_of_two(
        ir_to_riscv::to_a0_from("slt"@, y, x),
        "  xori a0, a0, 1\n"@,
    );
    riscv_machine::listing_of_two(
        ir_to_riscv::to_a0_from("sub"@, x, y),
        "  sltiu a0, a0, 1\n"@,
    );
    riscv_machine::listing_of_two(
        ir_to_riscv::to_a0_from("sub"@, x, y),
        "  sltu a0, zero, a0\n"@,
    );
    assert(listing(ir_to_riscv::compare(op, x, y)) =~= compare_lines(op, Reg::A(0), l, r));
}

/// Copies a register to `a0`.
pub proof fn to_a0_is_read(x: Seq<char>, r: Reg)
    requires
        names(x, r),
    ensures
        listing(ir_to_riscv::to_a0(x)) == if r == Reg::A(0) {
            Seq::<Line>::empty()
        } else {
            seq![Line::Mv { rd: Reg::A(0), rs: r }]
        },
        whole_lines(ir_to_riscv::to_a0(x)),
{
    registers_are_read();
    mnemonics_are_words();
    gaps();
    if r == Reg::A(0) {
        reveal_strlit("a0");
        reveal_strlit("zero");
        reveal_strlit("ra");
        reveal_strlit("sp");
        assert(x =~= "a0"@);
        assert(listing(Seq::empty()) =~= Seq::empty());
    } else {
        reveal_strlit("a0");
        reveal_strlit("mv");
        reveal_strlit("  mv a0, ");
        three_is_read("mv"@, "a0"@, x);
        assert(ir_to_riscv::to_a0(x) =~= three("mv"@, "a0"@, x));
    }
}

/// The address of a symbol.
pub proof fn la_is_read(d: Seq<char>, rd: Reg, symbol: Seq<char>)
    requires
        names(d, rd),
        is_word(symbol),
    ensures
        listing("  la "@ + d + ", "@ + symbol + "\n"@) == seq![Line::La { rd, symbol }],
        whole_lines("  la "@ + d + ", "@ + symbol + "\n"@),
{
    mnemonics_are_words();
    gaps();
    reveal_strlit("la");
    reveal_strlit("  la ");
    three_is_read("la"@, d, symbol);
    assert("  la "@ + d + ", "@ + symbol + "\n"@ =~= three("la"@, d, symbol));
}

/// Branches and jumps.
pub proof fn branch_is_read(x: Seq<char>, rs: Reg, yes: Seq<char>, no: Seq<char>)
    requires
        names(x, rs),
        is_word(yes),
        is_word(no),
    ensures
        listing(("  bnez "@ + x + ", "@ + yes + "\n"@) + ("  j "@ + no + "\n"@)) == seq![
            Line::Bnez { rs, label: yes },
            Line::J { label: no },
        ],
        whole_lines("  bnez "@ + x + ", "@ + yes + "\n"@),
        whole_lines("  j "@ + no + "\n"@),
        listing("  j "@ + no + "\n"@) == seq![Line::J { label: no }],
{
    mnemonics_are_words();
    gaps();
    reveal_strlit("bnez");
    reveal_strlit("  bnez ");
    reveal_strlit("j");
    reveal_strlit("  j ");
    three_is_read("bnez"@, x, yes);
    two_is_read("j"@, no);
    let a = three("bnez"@, x, yes);
    let b = two("j"@, no);
    assert("  bnez "@ + x + ", "@ + yes + "\n"@ =~= a);
    assert("  j "@ + no + "\n"@ =~= b);
    riscv_machine::listing_of_two(a, b);
    assert(listing(a + b) =~= seq![Line::Bnez { rs, label: yes }, Line::J { label: no }]);
}

/// Calls and returns.
pub proof fn call_is_read(f: Seq<char>)
    requires
        is_word(f),
    ensures
        listing("  call "@ + f + "\n"@) == seq![Line::Call { symbol: f }],
        whole_lines("  call "@ + f + "\n"@),
        listing("  ret\n"@) == seq![Line::Ret],
        whole_lines("  ret\n"@),
{
    mnemonics_are_words();
    gaps();
    reveal_strlit("call");
    reveal_strlit("  call ");
    two_is_read("call"@, f);
    assert("  call "@ + f + "\n"@ =~= two("call"@, f));
    reveal_strlit("ret");
    reveal_strlit("  ret\n");
    let s = "  "@ + "ret"@;
    assert("  ret\n"@ =~= s + "\n"@);
    words_are_in_line("ret"@);
    in_line_two("  "@, "ret"@);
    reading::words_of_gap("  "@);
    word_after("  "@, "ret"@);
    assert(s.last() == "ret"@.last());
    one_line(s, "ret"@);
    assert(words(s) =~= seq!["ret"@]);
}

/// A word loaded from, or stored to, the address in a register.
pub proof fn indirect_is_read(d: Seq<char>, rd: Reg, x: Seq<char>, base: Reg)
    requires
        names(d, rd),
        names(x, base),
    ensures
        listing("  lw t0, 0("@ + x + ")\n"@) == seq![
            Line::Lw { rd: Reg::T(0), offset: 0, base },
        ],
        whole_lines("  lw t0, 0("@ + x + ")\n"@),
        listing("  sw "@ + d + ", 0("@ + x + ")\n"@) == seq![
            Line::Sw { rs: rd, offset: 0, base },
        ],
        whole_lines("  sw "@ + d + ", 0("@ + x + ")\n"@),
        listing("  lw "@ + d + ", 0("@ + x + ")\n"@) == seq![Line::Lw { rd, offset: 0, base }],
        whole_lines("  lw "@ + d + ", 0("@ + x + ")\n"@),
{
    registers_are_read();
    mnemonics_are_words();
    gaps();
    zero_is_read();
    reveal_strlit("lw");
    reveal_strlit("sw");
    reveal_strlit("t0");
    reveal_strlit("0");
    reveal_strlit("  lw ");
    reveal_strlit("  lw t0, 0(");
    reveal_strlit("  sw ");
    reveal_strlit(", 0(");
    load_is_read("t0"@, Reg::T(0), "0"@, 0, x, base);
    load_is_read(d, rd, "0"@, 0, x, base);
    assert("  lw t0, 0("@ + x + ")\n"@ =~= memory("lw"@, "t0"@, "0"@, x));
    assert("  sw "@ + d + ", 0("@ + x + ")\n"@ =~= memory("sw"@, d, "0"@, x));
    assert("  lw "@ + d + ", 0("@ + x + ")\n"@ =~= memory("lw"@, d, "0"@, x));
}

/// The sum of a register and `t1`.
pub proof fn sum_is_read(x: Seq<char>, a: Reg)
    requires
        names(x, a),
    ensures
        listing("  add t0, "@ + x + ", t1\n"@) == seq![
            Line::Compute { op: Op::Add, rd: Reg::T(0), a, b: Reg::T(1) },
        ],
        whole_lines("  add t0, "@ + x + ", t1\n"@),
{
    registers_are_read();
    mnemonics_are_words();
    gaps();
    reveal_strlit("add");
    reveal_strlit("t0");
    reveal_strlit("t1");
    reveal_strlit("  add t0, ");
    reveal_strlit(", t1\n");
    compute_is_read("add"@, Op::Add, "t0"@, Reg::T(0), x, a, "t1"@, Reg::T(1));
    assert("  add t0, "@ + x + ", t1\n"@ =~= four("add"@, "t0"@, x, "t1"@));
}

/// The label of a block is a word.
pub proof fn labels_are_words(n: nat)
    ensures
        is_word(".L"@ + text::dec_nat(n)),
{
    reveal_strlit(".L");
    reading::numerals_denote(n as int);
    let s = ".L"@ + text::dec_nat(n);
    assert forall|i: int| 0 <= i < s.len() implies !reading::gap(#[trigger] s[i]) by {
        if i >= 2 {
            assert(s[i] == text::dec_nat(n)[i - 2]);
        }
    }
}

} // verus!

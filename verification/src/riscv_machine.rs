//! What RISC-V assembly does: registers, words of memory, and labels.
//!
//! Assembly is read line by line. A line is decoded from its words by the mnemonics of RV32IM, and
//! an instruction turns a state of the machine into a state, or sends control to a label. Memory is
//! read and written a word at a time, at the address of the word.

use crate::reading::{self, is_word, lines, numeral, words};
use crate::words::{bits, quotient, remainder, wrap};
use vstd::arithmetic::power2::pow2;
use vstd::prelude::*;

verus! {

// ── Instructions ─────────────────────────────────────────────────────────────

/// A register.
pub enum Reg {
    Zero,
    Ra,
    Sp,
    T(int),
    A(int),
}

/// What an instruction computes from two words.
pub enum Op {
    Add,
    Sub,
    Mul,
    Div,
    Rem,
    Slt,
    Sltu,
    Xor,
    Sll,
}

/// A line of assembly.
pub enum Line {
    /// A name for the place where it stands.
    Label(Seq<char>),
    /// `li rd, imm`
    Li { rd: Reg, imm: int },
    /// `la rd, symbol`
    La { rd: Reg, symbol: Seq<char> },
    /// `mv rd, rs`
    Mv { rd: Reg, rs: Reg },
    /// `op rd, a, b`
    Compute { op: Op, rd: Reg, a: Reg, b: Reg },
    /// `opi rd, a, imm`
    ComputeImm { op: Op, rd: Reg, a: Reg, imm: int },
    /// `lw rd, offset(base)`
    Lw { rd: Reg, offset: int, base: Reg },
    /// `sw rs, offset(base)`
    Sw { rs: Reg, offset: int, base: Reg },
    /// `bnez rs, label`
    Bnez { rs: Reg, label: Seq<char> },
    /// `beqz rs, label`
    Beqz { rs: Reg, label: Seq<char> },
    /// `j label`
    J { label: Seq<char> },
    /// `call symbol`
    Call { symbol: Seq<char> },
    /// `ret`
    Ret,
    /// Anything else.
    Other,
}

/// The register with a name.
pub open spec fn register(w: Seq<char>) -> Option<Reg> {
    if w == "zero"@ {
        Some(Reg::Zero)
    } else if w == "ra"@ {
        Some(Reg::Ra)
    } else if w == "sp"@ {
        Some(Reg::Sp)
    } else if w.len() == 2 && w[0] == 't' && '0' <= w[1] <= '6' {
        Some(Reg::T(w[1] as int - '0' as int))
    } else if w.len() == 2 && w[0] == 'a' && '0' <= w[1] <= '7' {
        Some(Reg::A(w[1] as int - '0' as int))
    } else {
        None
    }
}

/// The operation of two registers with a mnemonic.
pub open spec fn operation(w: Seq<char>) -> Option<Op> {
    if w == "add"@ {
        Some(Op::Add)
    } else if w == "sub"@ {
        Some(Op::Sub)
    } else if w == "mul"@ {
        Some(Op::Mul)
    } else if w == "div"@ {
        Some(Op::Div)
    } else if w == "rem"@ {
        Some(Op::Rem)
    } else if w == "slt"@ {
        Some(Op::Slt)
    } else if w == "sltu"@ {
        Some(Op::Sltu)
    } else if w == "xor"@ {
        Some(Op::Xor)
    } else if w == "sll"@ {
        Some(Op::Sll)
    } else {
        None
    }
}

/// The operation of a register and a constant with a mnemonic.
pub open spec fn immediate_operation(w: Seq<char>) -> Option<Op> {
    if w == "addi"@ {
        Some(Op::Add)
    } else if w == "xori"@ {
        Some(Op::Xor)
    } else if w == "slti"@ {
        Some(Op::Slt)
    } else if w == "sltiu"@ {
        Some(Op::Sltu)
    } else if w == "slli"@ {
        Some(Op::Sll)
    } else {
        None
    }
}

/// The instruction that words are.
pub open spec fn decoded(ws: Seq<Seq<char>>) -> Line {
    if ws.len() == 1 && ws[0] == "ret"@ {
        Line::Ret
    } else if ws.len() == 2 && ws[0] == "j"@ {
        Line::J { label: ws[1] }
    } else if ws.len() == 2 && ws[0] == "call"@ {
        Line::Call { symbol: ws[1] }
    } else if ws.len() == 3 && ws[0] == "bnez"@ && register(ws[1]) is Some {
        Line::Bnez { rs: register(ws[1])->0, label: ws[2] }
    } else if ws.len() == 3 && ws[0] == "beqz"@ && register(ws[1]) is Some {
        Line::Beqz { rs: register(ws[1])->0, label: ws[2] }
    } else if ws.len() == 3 && ws[0] == "li"@ && register(ws[1]) is Some && numeral(
        ws[2],
    ) is Some {
        Line::Li { rd: register(ws[1])->0, imm: numeral(ws[2])->0 }
    } else if ws.len() == 3 && ws[0] == "la"@ && register(ws[1]) is Some {
        Line::La { rd: register(ws[1])->0, symbol: ws[2] }
    } else if ws.len() == 3 && ws[0] == "mv"@ && register(ws[1]) is Some && register(
        ws[2],
    ) is Some {
        Line::Mv { rd: register(ws[1])->0, rs: register(ws[2])->0 }
    } else if ws.len() == 3 && register(ws[1]) is Some && register(ws[2]) is Some {
        decoded_short(ws)
    } else if ws.len() == 4 && register(ws[1]) is Some {
        decoded_four(ws)
    } else {
        Line::Other
    }
}

/// The instruction that a short name for it, with a register and an operand, stands for.
pub open spec fn decoded_short(ws: Seq<Seq<char>>) -> Line {
    let rd = register(ws[1])->0;
    let rs = register(ws[2])->0;
    if ws[0] == "seqz"@ {
        Line::ComputeImm { op: Op::Sltu, rd, a: rs, imm: 1 }
    } else if ws[0] == "snez"@ {
        Line::Compute { op: Op::Sltu, rd, a: Reg::Zero, b: rs }
    } else if ws[0] == "neg"@ {
        Line::Compute { op: Op::Sub, rd, a: Reg::Zero, b: rs }
    } else {
        Line::Other
    }
}

/// The instruction that four words are.
pub open spec fn decoded_four(ws: Seq<Seq<char>>) -> Line {
    let first = register(ws[1])->0;
    if ws[0] == "lw"@ && numeral(ws[2]) is Some && register(ws[3]) is Some {
        Line::Lw { rd: first, offset: numeral(ws[2])->0, base: register(ws[3])->0 }
    } else if ws[0] == "sw"@ && numeral(ws[2]) is Some && register(ws[3]) is Some {
        Line::Sw { rs: first, offset: numeral(ws[2])->0, base: register(ws[3])->0 }
    } else if operation(ws[0]) is Some && register(ws[2]) is Some && register(ws[3]) is Some {
        Line::Compute {
            op: operation(ws[0])->0,
            rd: first,
            a: register(ws[2])->0,
            b: register(ws[3])->0,
        }
    } else if immediate_operation(ws[0]) is Some && register(ws[2]) is Some && numeral(
        ws[3],
    ) is Some {
        Line::ComputeImm {
            op: immediate_operation(ws[0])->0,
            rd: first,
            a: register(ws[2])->0,
            imm: numeral(ws[3])->0,
        }
    } else if ws[0] == "sgt"@ && register(ws[2]) is Some && register(ws[3]) is Some {
        Line::Compute { op: Op::Slt, rd: first, a: register(ws[3])->0, b: register(ws[2])->0 }
    } else {
        Line::Other
    }
}

/// What a line is: a label ends with a colon.
pub open spec fn line(s: Seq<char>) -> Line {
    if s.len() > 0 && s.last() == ':' && words(s).len() == 1 {
        Line::Label(words(s)[0])
    } else {
        decoded(words(s))
    }
}

/// The lines of assembly.
pub open spec fn listing(s: Seq<char>) -> Seq<Line> {
    lines(s).map_values(|l: Seq<char>| line(l))
}

// ── Execution ────────────────────────────────────────────────────────────────

/// The state of the machine: its registers, and the words of memory by their addresses.
#[verifier::ext_equal]
pub struct Machine {
    pub regs: Map<Reg, i32>,
    pub mem: Map<i32, i32>,
}

/// What assembly refers to but does not hold.
pub struct Outside {
    /// Where symbols are.
    pub address: spec_fn(Seq<char>) -> i32,
    /// The machine after a function has been called and has come back.
    pub call: spec_fn(Seq<char>, Machine) -> Machine,
}

/// One for what holds, zero for what does not.
pub open spec fn flag(b: bool) -> i32 {
    if b {
        1
    } else {
        0
    }
}

/// What an operation computes.
pub open spec fn computed(op: Op, a: i32, b: i32) -> i32 {
    match op {
        Op::Add => wrap(a + b),
        Op::Sub => wrap(a - b),
        Op::Mul => wrap(a * b),
        Op::Div => if b == 0 {
            wrap(-1)
        } else {
            wrap(quotient(a as int, b as int))
        },
        Op::Rem => if b == 0 {
            a
        } else {
            wrap(remainder(a as int, b as int))
        },
        Op::Slt => flag(a < b),
        Op::Sltu => flag(bits(a) < bits(b)),
        Op::Xor => a ^ b,
        Op::Sll => wrap(a * pow2((bits(b) % 32) as nat)),
    }
}

/// What a register holds.
pub open spec fn get(m: Machine, r: Reg) -> i32 {
    if r is Zero {
        0
    } else {
        m.regs[r]
    }
}

/// The machine after a register has been set.
pub open spec fn with(m: Machine, r: Reg, v: i32) -> Machine {
    if r is Zero {
        m
    } else {
        Machine { regs: m.regs.insert(r, v), ..m }
    }
}

/// An address at an offset from what a register holds.
pub open spec fn address(m: Machine, base: Reg, offset: int) -> i32 {
    wrap(get(m, base) + offset)
}

/// The machine after a line that does not send control elsewhere.
pub open spec fn executed(out: Outside, l: Line, m: Machine) -> Machine {
    match l {
        Line::Li { rd, imm } => with(m, rd, wrap(imm)),
        Line::La { rd, symbol } => with(m, rd, (out.address)(symbol)),
        Line::Mv { rd, rs } => with(m, rd, get(m, rs)),
        Line::Compute { op, rd, a, b } => with(m, rd, computed(op, get(m, a), get(m, b))),
        Line::ComputeImm { op, rd, a, imm } => with(m, rd, computed(op, get(m, a), wrap(imm))),
        Line::Lw { rd, offset, base } => with(m, rd, m.mem[address(m, base, offset)]),
        Line::Sw { rs, offset, base } => Machine {
            mem: m.mem.insert(address(m, base, offset), get(m, rs)),
            ..m
        },
        Line::Call { symbol } => (out.call)(symbol, m),
        _ => m,
    }
}

/// Whether a line may send control elsewhere, or control may come to it from elsewhere.
pub open spec fn is_control(l: Line) -> bool {
    l is Bnez || l is Beqz || l is J || l is Ret || l is Other || l is Label
}

/// How control leaves some lines.
pub enum Exit {
    /// It comes to their end.
    End(Machine),
    /// It goes to a label.
    To(Seq<char>, Machine),
    /// It goes back to where the return address says.
    Returns(Machine),
    /// It comes to a line that is no instruction.
    Stuck,
}

/// How control leaves some lines that it enters before the line with an index.
pub open spec fn left(out: Outside, ls: Seq<Line>, k: int, m: Machine) -> Exit
    decreases ls.len() - k,
{
    if k < 0 || k >= ls.len() {
        Exit::End(m)
    } else {
        match ls[k] {
            Line::Bnez { rs, label } => if get(m, rs) != 0 {
                Exit::To(label, m)
            } else {
                left(out, ls, k + 1, m)
            },
            Line::Beqz { rs, label } => if get(m, rs) == 0 {
                Exit::To(label, m)
            } else {
                left(out, ls, k + 1, m)
            },
            Line::J { label } => Exit::To(label, m),
            Line::Ret => Exit::Returns(m),
            Line::Other => Exit::Stuck,
            l => left(out, ls, k + 1, executed(out, l, m)),
        }
    }
}

/// How control leaves assembly that it enters at the beginning.
pub open spec fn run(out: Outside, code: Seq<char>, m: Machine) -> Exit {
    left(out, listing(code), 0, m)
}

// ── Putting code together ────────────────────────────────────────────────────

/// The machine after lines that do not send control elsewhere.
pub open spec fn straight(out: Outside, ls: Seq<Line>, m: Machine) -> Machine
    decreases ls.len(),
{
    if ls.len() == 0 {
        m
    } else {
        executed(out, ls.last(), straight(out, ls.drop_last(), m))
    }
}

/// Whether lines never send control elsewhere.
pub open spec fn is_straight(ls: Seq<Line>) -> bool {
    forall|k: int| 0 <= k < ls.len() ==> !is_control(#[trigger] ls[k])
}

/// Control that runs through some lines comes to the lines after them.
pub proof fn left_after(
    out: Outside,
    x: Seq<Line>,
    y: Seq<Line>,
    m: Machine,
)
    requires
        is_straight(x),
    ensures
        left(out, x + y, 0, m) == left(out, x + y, x.len() as int, straight(out, x, m)),
    decreases x.len(),
{
    if x.len() > 0 {
        let front = x.drop_last();
        assert(is_straight(front)) by {
            assert forall|k: int| 0 <= k < front.len() implies !is_control(#[trigger] front[k]) by {
                assert(front[k] == x[k]);
            }
        }
        let rest = seq![x.last()] + y;
        assert(front + rest =~= x + y);
        left_after(out, front, rest, m);
        assert((x + y)[front.len() as int] == x[front.len() as int]);
        assert(!is_control(x[front.len() as int]));
        assert(x.last() == x[front.len() as int]);
        let s = straight(out, front, m);
        let k = front.len() as int;
        assert(left(out, x + y, k, s) == left(out, x + y, k + 1, executed(out, x.last(), s)));
    }
}

/// Where control is in a list of lines does not matter for how it leaves what follows.
pub proof fn left_shifts(
    out: Outside,
    x: Seq<Line>,
    y: Seq<Line>,
    k: int,
    m: Machine,
)
    requires
        0 <= k,
    ensures
        left(out, x + y, x.len() + k, m) == left(out, y, k, m),
    decreases y.len() - k,
{
    if k < y.len() {
        assert((x + y)[x.len() + k] == y[k]);
        left_shifts(out, x, y, k + 1, m);
        left_shifts(out, x, y, k + 1, executed(out, y[k], m));
    }
}

/// What lines do one after another.
pub proof fn straight_of_two(out: Outside, x: Seq<Line>, y: Seq<Line>, m: Machine)
    ensures
        straight(out, x + y, m) == straight(out, y, straight(out, x, m)),
        is_straight(x) && is_straight(y) ==> is_straight(x + y),
    decreases y.len(),
{
    if y.len() == 0 {
        assert(x + y =~= x);
    } else {
        straight_of_two(out, x, y.drop_last(), m);
        assert((x + y).drop_last() =~= x + y.drop_last());
        assert((x + y).last() == y.last());
        if is_straight(x) && is_straight(y) {
            assert forall|k: int| 0 <= k < (x + y).len() implies !is_control(
                #[trigger] (x + y)[k],
            ) by {
                if k < x.len() {
                    assert((x + y)[k] == x[k]);
                } else {
                    assert((x + y)[k] == y[k - x.len()]);
                }
            }
        }
    }
}

/// The lines of two pieces of assembly.
pub proof fn listing_of_two(x: Seq<char>, y: Seq<char>)
    requires
        reading::whole_lines(x),
    ensures
        listing(x + y) == listing(x) + listing(y),
{
    reading::lines_of_two(x, y);
    assert(listing(x + y) =~= listing(x) + listing(y));
}

/// A piece of assembly that is one line.
pub proof fn listing_of_line(s: Seq<char>)
    requires
        reading::in_line(s),
    ensures
        listing(s + seq!['\n']) == seq![line(s)],
        reading::whole_lines(s + seq!['\n']),
{
    reading::lines_of_line(s);
    assert(listing(s + seq!['\n']) =~= seq![line(s)]);
}

} // verus!

//! Running the assembly of a function without a frame does what the function means.

use crate::ir::{self, FuncV, InstV, IrCmpOp, IrOperand, IrType, ProgV};
use crate::ir_to_riscv;
use crate::leaf_code::{self, advanced, after, param_at, target};
use crate::meaning::{self, MachineV, StateV};
use crate::opt::const_fold;
use crate::reading::{is_word, whole_lines};
use crate::reg_alloc::{self, TrackerV};
use crate::riscv_code::{
    self, does, does_both, element_address, nothing_does, runs_on, words_wrap,
};
use crate::riscv_machine::{
    self, executed, is_straight, left, listing, register, run, straight, Exit, Line, Machine, Op,
    Outside, Reg,
};
use crate::riscv_meaning::has_words;
use crate::riscv_reading::{self, names};
use crate::words::{self, divides, wrap};
use vstd::prelude::*;

verus! {

// ── Registers ────────────────────────────────────────────────────────────────

/// Whether a register may hold an SSA value: one of the pool, or that of a parameter.
pub open spec fn may_hold(r: Reg) -> bool {
    r == Reg::T(0) || r == Reg::T(1) || r == Reg::T(2) || r is A
}

/// The register of an SSA value.
pub open spec fn register_of(t: TrackerV, l: usize) -> Reg {
    register(t.locals[l].0)->0
}

/// What an operand is on the machine: SSA values and parameters are in registers, a variable is the
/// address of its symbol.
pub open spec fn operand(
    p: ProgV,
    params: Seq<(usize, IrType)>,
    out: Outside,
    t: TrackerV,
    m: Machine,
    op: IrOperand,
) -> i32 {
    match op {
        IrOperand::Int(n) => n,
        IrOperand::Local(l) => m.regs[register_of(t, l)],
        IrOperand::Global(g) => match param_at(params, g) {
            Some(k) => m.regs[Reg::A(k as int)],
            None => (out.address)(ir_to_riscv::bare(p.global_names[g as int])),
        },
        IrOperand::Undef => 0,
    }
}

/// Whether an operand is at hand: an SSA value is in a register, a parameter comes in one, and a
/// symbol is a word.
pub open spec fn at_hand(
    p: ProgV,
    params: Seq<(usize, IrType)>,
    t: TrackerV,
    op: IrOperand,
) -> bool {
    match op {
        IrOperand::Local(l) => t.locals.contains_key(l),
        IrOperand::Global(g) => match param_at(params, g) {
            Some(k) => k < 8,
            None => g < p.global_names.len() && is_word(
                ir_to_riscv::bare(p.global_names[g as int]),
            ),
        },
        _ => true,
    }
}

/// The registers are in order: each value that is held has a register of its own, unless it is the
/// copy of a parameter.
pub open spec fn in_order(t: TrackerV) -> bool {
    &&& t.pool == reg_alloc::pool_regs()
    &&& forall|l: usize| #[trigger]
        t.locals.contains_key(l) ==> names(t.locals[l].0, register_of(t, l)) && may_hold(
            register_of(t, l),
        )
    &&& forall|l: usize| #[trigger]
        t.locals.contains_key(l) && register_of(t, l) is T ==> t.regs.contains_key(t.locals[l].0)
            && t.regs[t.locals[l].0] == l
}

/// A state of the machine that stands for a state of the function: registers hold the SSA values
/// that they are said to hold, and memory is the world.
pub open spec fn stands_for<W>(
    p: ProgV,
    params: Seq<(usize, IrType)>,
    out: Outside,
    mm: MachineV<W>,
    s: StateV<W>,
    t: TrackerV,
    m: Machine,
) -> bool {
    &&& forall|l: usize| #[trigger]
        t.locals.contains_key(l) ==> s.locals.contains_key(l) && s.locals[l] == m.regs[register_of(
            t,
            l,
        )]
    &&& forall|g: usize|
        at_hand(p, params, t, IrOperand::Global(g)) ==> #[trigger] (mm.address)(g) == operand(
            p,
            params,
            out,
            t,
            m,
            IrOperand::Global(g),
        )
    &&& forall|a: i32| #[trigger] (mm.load)(s.world, a) == m.mem[a]
}

/// A machine on which only registers that hold no SSA value have changed.
pub open spec fn keeps_held(m: Machine, n: Machine) -> bool {
    n.mem == m.mem && forall|r: Reg| may_hold(r) ==> #[trigger] n.regs[r] == m.regs[r]
}

// ── Operands ─────────────────────────────────────────────────────────────────

proof fn one_line(out: Outside, code: Seq<char>, l: Line, m: Machine)
    requires
        whole_lines(code),
        listing(code) == seq![l],
        !riscv_machine::is_control(l),
    ensures
        does(out, code, m, executed(out, l, m)),
{
    assert(seq![l].drop_last() =~= Seq::empty());
    assert(straight(out, seq![l].drop_last(), m) == m);
}

/// Putting an operand in a register: the register it is in, and the machine then.
proof fn operand_comes(
    p: ProgV,
    params: Seq<(usize, IrType)>,
    out: Outside,
    t: TrackerV,
    op: IrOperand,
    d: Seq<char>,
    rd: Reg,
    m: Machine,
) -> (r: (Reg, Machine))
    requires
        in_order(t),
        at_hand(p, params, t, op),
        names(d, rd),
        !(rd is Zero),
    ensures
        ({
            let c = leaf_code::op_in(p, params, t, op, d);
            &&& does(out, c.0, m, r.1)
            &&& names(c.1, r.0)
            &&& r.0 == rd || may_hold(r.0)
            &&& r.1.regs[r.0] == operand(p, params, out, t, m, op)
            &&& r.1.mem == m.mem
            &&& forall|q: Reg| q != rd ==> #[trigger] r.1.regs[q] == m.regs[q]
            &&& r.0 != rd ==> r.1 == m
        }),
{
    match op {
        IrOperand::Int(v) => {
            riscv_reading::li_is_read(d, rd, v as int);
            words_wrap(v);
            let l = Line::Li { rd, imm: v as int };
            one_line(out, ir_to_riscv::li(d, v as int), l, m);
            (rd, executed(out, l, m))
        },
        IrOperand::Local(l) => {
            nothing_does(out, m);
            (register_of(t, l), m)
        },
        IrOperand::Global(g) => match param_at(params, g) {
            Some(k) => {
                nothing_does(out, m);
                riscv_reading::argument_registers_are_read(k as nat);
                (Reg::A(k as int), m)
            },
            None => {
                let symbol = ir_to_riscv::bare(p.global_names[g as int]);
                riscv_reading::la_is_read(d, rd, symbol);
                let l = Line::La { rd, symbol };
                one_line(out, "  la "@ + d + ", "@ + symbol + "\n"@, l, m);
                (rd, executed(out, l, m))
            },
        },
        IrOperand::Undef => {
            riscv_reading::li_is_read(d, rd, 0);
            words_wrap(0);
            let l = Line::Li { rd, imm: 0 };
            one_line(out, ir_to_riscv::li(d, 0), l, m);
            (rd, executed(out, l, m))
        },
    }
}

/// Two operands in registers.
proof fn two_come(
    p: ProgV,
    params: Seq<(usize, IrType)>,
    out: Outside,
    t: TrackerV,
    x: IrOperand,
    y: IrOperand,
    d: Seq<char>,
    rd: Reg,
    e: Seq<char>,
    re: Reg,
    m: Machine,
) -> (r: (Reg, Reg, Machine))
    requires
        in_order(t),
        at_hand(p, params, t, x),
        at_hand(p, params, t, y),
        names(d, rd),
        names(e, re),
        !(rd is Zero) && !(re is Zero),
        rd != re,
        !may_hold(rd) && !may_hold(re),
    ensures
        ({
            let a = leaf_code::op_in(p, params, t, x, d);
            let b = leaf_code::op_in(p, params, t, y, e);
            &&& does(out, a.0 + b.0, m, r.2)
            &&& names(a.1, r.0) && names(b.1, r.1)
            &&& !(r.0 is Zero) && !(r.1 is Zero)
            &&& r.0 == rd || may_hold(r.0)
            &&& r.1 == re || may_hold(r.1)
            &&& r.2.regs[r.0] == operand(p, params, out, t, m, x)
            &&& r.2.regs[r.1] == operand(p, params, out, t, m, y)
            &&& keeps_held(m, r.2)
            &&& forall|q: Reg| q != rd && q != re ==> #[trigger] r.2.regs[q] == m.regs[q]
        }),
{
    let (ra, m1) = operand_comes(p, params, out, t, x, d, rd, m);
    let (rb, m2) = operand_comes(p, params, out, t, y, e, re, m1);
    assert(operand(p, params, out, t, m1, y) == operand(p, params, out, t, m, y)) by {
        match y {
            IrOperand::Local(l) => {
                assert(may_hold(register_of(t, l)));
            },
            _ => {},
        }
    }
    does_both(
        out,
        leaf_code::op_in(p, params, t, x, d).0,
        leaf_code::op_in(p, params, t, y, e).0,
        m,
        m1,
        m2,
    );
    (ra, rb, m2)
}

// ── The register of a result ─────────────────────────────────────────────────

/// The register for a new value is one of the pool that holds nothing.
proof fn target_is_free(t: TrackerV) -> (r: Reg)
    requires
        in_order(t),
        reg_alloc::free_reg(t, 0) is Some,
    ensures
        names(target(t), r),
        r == Reg::T(0) || r == Reg::T(1) || r == Reg::T(2),
        !t.regs.contains_key(target(t)),
        forall|l: usize| #[trigger] t.locals.contains_key(l) ==> register_of(t, l) != r,
{
    riscv_reading::registers_are_read();
    reveal_with_fuel(reg_alloc::free_reg, 5);
    let name = target(t);
    let r = register(name)->0;
    assert(name == "t2"@ || name == "t1"@ || name == "t0"@);
    assert(!t.regs.contains_key(name));
    assert forall|l: usize| #[trigger] t.locals.contains_key(l) implies register_of(t, l) != r by {
        if register_of(t, l) == r {
            same_name(t.locals[l].0, name, r);
        }
    }
    r
}

/// A register of the pool has one name.
proof fn same_name(x: Seq<char>, y: Seq<char>, r: Reg)
    requires
        names(x, r),
        names(y, r),
        r is T,
    ensures
        x == y,
{
    reveal_strlit("zero");
    reveal_strlit("ra");
    reveal_strlit("sp");
    assert(x =~= y);
}

/// A value in the register of a result is that of the SSA value.
proof fn result_stands<W>(
    p: ProgV,
    params: Seq<(usize, IrType)>,
    out: Outside,
    mm: MachineV<W>,
    s: StateV<W>,
    t: TrackerV,
    dest: usize,
    rd: Reg,
    v: i32,
    m: Machine,
    n: Machine,
)
    requires
        in_order(t),
        stands_for(p, params, out, mm, s, t, m),
        names(target(t), rd),
        rd == Reg::T(0) || rd == Reg::T(1) || rd == Reg::T(2),
        !t.regs.contains_key(target(t)),
        forall|l: usize| #[trigger] t.locals.contains_key(l) ==> register_of(t, l) != rd,
        n.mem == m.mem,
        n.regs[rd] == v,
        forall|r: Reg| may_hold(r) && r != rd ==> #[trigger] n.regs[r] == m.regs[r],
    ensures
        in_order(reg_alloc::put(t, dest, target(t))),
        stands_for(
            p,
            params,
            out,
            mm,
            meaning::with_local(s, dest, v),
            reg_alloc::put(t, dest, target(t)),
            n,
        ),
{
    let u = reg_alloc::put(t, dest, target(t));
    let w = meaning::with_local(s, dest, v);
    assert(u.locals == t.locals.insert(dest, (target(t), true)));
    assert(u.regs == t.regs.insert(target(t), dest));
    assert forall|l: usize| #[trigger] u.locals.contains_key(l) implies names(
        u.locals[l].0,
        register_of(u, l),
    ) && may_hold(register_of(u, l)) && w.locals.contains_key(l) && w.locals[l]
        == n.regs[register_of(u, l)] by {
        if l != dest {
            assert(t.locals.contains_key(l));
            assert(register_of(u, l) == register_of(t, l));
        }
    }
    assert forall|l: usize| #[trigger]
        u.locals.contains_key(l) && register_of(u, l) is T implies u.regs.contains_key(
        u.locals[l].0,
    ) && u.regs[u.locals[l].0] == l by {
        if l != dest {
            assert(t.locals.contains_key(l));
            assert(register_of(t, l) is T);
        }
    }
    assert forall|g: usize|
        at_hand(p, params, u, IrOperand::Global(g)) implies #[trigger] (mm.address)(g) == operand(
        p,
        params,
        out,
        u,
        n,
        IrOperand::Global(g),
    ) by {
        assert(at_hand(p, params, t, IrOperand::Global(g)));
        assert((mm.address)(g) == operand(p, params, out, t, m, IrOperand::Global(g)));
    }
    assert forall|a: i32| #[trigger] (mm.load)(w.world, a) == n.mem[a] by {
        assert((mm.load)(s.world, a) == m.mem[a]);
    }
}

/// The copy of a parameter stays in the register of the parameter.
proof fn copy_stands<W>(
    p: ProgV,
    params: Seq<(usize, IrType)>,
    out: Outside,
    mm: MachineV<W>,
    s: StateV<W>,
    t: TrackerV,
    dest: usize,
    k: usize,
    m: Machine,
)
    requires
        in_order(t),
        stands_for(p, params, out, mm, s, t, m),
        k < 8,
    ensures
        in_order(reg_alloc::noted(t, dest, leaf_code::reg_of(k))),
        stands_for(
            p,
            params,
            out,
            mm,
            meaning::with_local(s, dest, m.regs[Reg::A(k as int)]),
            reg_alloc::noted(t, dest, leaf_code::reg_of(k)),
            m,
        ),
{
    riscv_reading::argument_registers_are_read(k as nat);
    let u = reg_alloc::noted(t, dest, leaf_code::reg_of(k));
    let w = meaning::with_local(s, dest, m.regs[Reg::A(k as int)]);
    assert forall|l: usize| #[trigger] u.locals.contains_key(l) implies names(
        u.locals[l].0,
        register_of(u, l),
    ) && may_hold(register_of(u, l)) && w.locals.contains_key(l) && w.locals[l]
        == m.regs[register_of(u, l)] by {
        if l != dest {
            assert(t.locals.contains_key(l));
            assert(register_of(u, l) == register_of(t, l));
        }
    }
    assert forall|l: usize| #[trigger]
        u.locals.contains_key(l) && register_of(u, l) is T implies u.regs.contains_key(
        u.locals[l].0,
    ) && u.regs[u.locals[l].0] == l by {
        if l != dest {
            assert(t.locals.contains_key(l));
            assert(register_of(t, l) is T);
        }
    }
    assert forall|g: usize|
        at_hand(p, params, u, IrOperand::Global(g)) implies #[trigger] (mm.address)(g) == operand(
        p,
        params,
        out,
        u,
        m,
        IrOperand::Global(g),
    ) by {
        assert(at_hand(p, params, t, IrOperand::Global(g)));
    }
}

// ── Instructions ─────────────────────────────────────────────────────────────

/// The line of three registers.
proof fn three_is_read(
    mn: Seq<char>,
    op: Op,
    d: Seq<char>,
    rd: Reg,
    x: Seq<char>,
    a: Reg,
    y: Seq<char>,
    b: Reg,
)
    requires
        riscv_machine::operation(mn) == Some(op),
        mn != "lw"@ && mn != "sw"@,
        is_word(mn),
        names(d, rd),
        names(x, a),
        names(y, b),
    ensures
        listing(leaf_code::three(mn, d, x, y)) == seq![Line::Compute { op, rd, a, b }],
        whole_lines(leaf_code::three(mn, d, x, y)),
{
    riscv_reading::compute_is_read(mn, op, d, rd, x, a, y, b);
    assert(leaf_code::three(mn, d, x, y) =~= riscv_reading::four(mn, d, x, y));
}

proof fn three_imm_is_read(
    mn: Seq<char>,
    op: Op,
    d: Seq<char>,
    rd: Reg,
    x: Seq<char>,
    a: Reg,
    y: Seq<char>,
    imm: int,
)
    requires
        riscv_machine::immediate_operation(mn) == Some(op),
        riscv_machine::operation(mn) is None,
        mn != "lw"@ && mn != "sw"@,
        is_word(mn),
        names(d, rd),
        names(x, a),
        is_word(y),
        crate::reading::numeral(y) == Some(imm),
    ensures
        listing(leaf_code::three(mn, d, x, y)) == seq![Line::ComputeImm { op, rd, a, imm }],
        whole_lines(leaf_code::three(mn, d, x, y)),
{
    riscv_reading::compute_imm_is_read(mn, op, d, rd, x, a, y, imm);
    assert(leaf_code::three(mn, d, x, y) =~= riscv_reading::four(mn, d, x, y));
}

/// The lines that compare two registers.
proof fn compare_is_read(
    op: IrCmpOp,
    d: Seq<char>,
    rd: Reg,
    x: Seq<char>,
    l: Reg,
    y: Seq<char>,
    r: Reg,
)
    requires
        names(d, rd),
        names(x, l),
        names(y, r),
    ensures
        listing(leaf_code::compare(op, d, x, y)) == riscv_reading::compare_lines(op, rd, l, r),
        whole_lines(leaf_code::compare(op, d, x, y)),
{
    riscv_reading::registers_are_read();
    riscv_reading::mnemonics_are_words();
    riscv_reading::zero_is_read();
    three_is_read("slt"@, Op::Slt, d, rd, x, l, y, r);
    three_is_read("slt"@, Op::Slt, d, rd, y, r, x, l);
    three_is_read("sub"@, Op::Sub, d, rd, x, l, y, r);
    three_imm_is_read("xori"@, Op::Xor, d, rd, d, rd, "1"@, 1);
    three_imm_is_read("sltiu"@, Op::Sltu, d, rd, d, rd, "1"@, 1);
    three_is_read("sltu"@, Op::Sltu, d, rd, "zero"@, Reg::Zero, d, rd);
    let xy = leaf_code::three("slt"@, d, x, y);
    let yx = leaf_code::three("slt"@, d, y, x);
    let sub = leaf_code::three("sub"@, d, x, y);
    riscv_machine::listing_of_two(xy, leaf_code::three("xori"@, d, d, "1"@));
    riscv_machine::listing_of_two(yx, leaf_code::three("xori"@, d, d, "1"@));
    riscv_machine::listing_of_two(sub, leaf_code::three("sltiu"@, d, d, "1"@));
    riscv_machine::listing_of_two(sub, leaf_code::three("sltu"@, d, "zero"@, d));
    assert(listing(leaf_code::compare(op, d, x, y)) =~= riscv_reading::compare_lines(
        op,
        rd,
        l,
        r,
    ));
}

/// Whether a step can be followed on the machine: its operands are at hand, there is a register for
/// its result, and a quotient exists.
pub open spec fn is_smooth<W>(
    p: ProgV,
    params: Seq<(usize, IrType)>,
    t: TrackerV,
    mm: MachineV<W>,
    s: StateV<W>,
    i: InstV,
) -> bool {
    &&& forall|k: int|
        0 <= k < ir::inst_operands(i).len() ==> at_hand(
            p,
            params,
            t,
            #[trigger] ir::inst_operands(i)[k],
        )
    &&& reg_alloc::needs_register(i) ==> reg_alloc::free_reg(t, 0) is Some
    &&& match i {
        InstV::Load { .. } => true,
        InstV::Store { .. } => true,
        InstV::Arith { op, lhs, rhs, .. } => {
            &&& reg_alloc::copies_param(i) ==> param_at(params, lhs->Global_0) is Some
            &&& (op is Div || op is Mod) ==> divides(
                meaning::value(mm, s, lhs),
                meaning::value(mm, s, rhs),
            )
        },
        InstV::Icmp { .. } => true,
        InstV::GetPtr { elem_size, .. } => elem_size != 0,
        InstV::GetElemPtr { elem_size, .. } => elem_size != 0,
        _ => false,
    }
}

proof fn operands_agree<W>(
    p: ProgV,
    params: Seq<(usize, IrType)>,
    out: Outside,
    mm: MachineV<W>,
    s: StateV<W>,
    t: TrackerV,
    m: Machine,
    op: IrOperand,
)
    requires
        has_words(mm),
        stands_for(p, params, out, mm, s, t, m),
        at_hand(p, params, t, op),
    ensures
        meaning::value(mm, s, op) == operand(p, params, out, t, m, op),
{
}

proof fn element_follows<W>(
    p: ProgV,
    params: Seq<(usize, IrType)>,
    out: Outside,
    mm: MachineV<W>,
    s: StateV<W>,
    t: TrackerV,
    dest: usize,
    ptr: IrOperand,
    index: IrOperand,
    size: i32,
    m: Machine,
) -> (n: Machine)
    requires
        has_words(mm),
        in_order(t),
        stands_for(p, params, out, mm, s, t, m),
        at_hand(p, params, t, ptr),
        at_hand(p, params, t, index),
        reg_alloc::free_reg(t, 0) is Some,
        size != 0,
    ensures
        does(out, leaf_code::elem_code(p, params, t, ptr, index, size), m, n),
        in_order(reg_alloc::put(t, dest, target(t))),
        stands_for(
            p,
            params,
            out,
            mm,
            meaning::with_local(
                s,
                dest,
                (mm.element)(meaning::value(mm, s, ptr), meaning::value(mm, s, index), size),
            ),
            reg_alloc::put(t, dest, target(t)),
            n,
        ),
{
    riscv_reading::registers_are_read();
    riscv_reading::mnemonics_are_words();
    let rd = target_is_free(t);
    operands_agree(p, params, out, mm, s, t, m, ptr);
    operands_agree(p, params, out, mm, s, t, m, index);
    let (rb, ri, m2) = two_come(
        p,
        params,
        out,
        t,
        ptr,
        index,
        "t4"@,
        Reg::T(4),
        "t5"@,
        Reg::T(5),
        m,
    );
    let b = leaf_code::op_in(p, params, t, ptr, "t4"@);
    let i = leaf_code::op_in(p, params, t, index, "t5"@);
    let bv = operand(p, params, out, t, m, ptr);
    let iv = operand(p, params, out, t, m, index);
    riscv_code::scaled(bv, iv, size);
    words_wrap(size);
    riscv_reading::scale_is_read(size, "t5"@, Reg::T(5), i.1, ri);
    let scale = ir_to_riscv::offset_mul(size, "t5"@, i.1);
    let m3 = straight(out, listing(scale), m2);
    if size == 1 {
        nothing_does(out, m2);
    } else if size == 4 {
        let l = Line::ComputeImm { op: Op::Sll, rd: Reg::T(5), a: ri, imm: 2 };
        one_line(out, scale, l, m2);
    } else {
        let x = Line::Li { rd: Reg::T(3), imm: size as int };
        let y = Line::Compute { op: Op::Mul, rd: Reg::T(5), a: ri, b: Reg::T(3) };
        riscv_code::straight_two(out, x, y, m2);
    }
    assert(does(out, scale, m2, m3));
    let (last, lr) = if size == 1 {
        (i.1, ri)
    } else {
        ("t5"@, Reg::T(5))
    };
    assert(m3.regs[lr] == wrap(iv * size));
    assert(m3.regs[rb] == bv);
    three_is_read("add"@, Op::Add, target(t), rd, b.1, rb, last, lr);
    let sum = leaf_code::three("add"@, target(t), b.1, last);
    let line = Line::Compute { op: Op::Add, rd, a: rb, b: lr };
    one_line(out, sum, line, m3);
    let n = executed(out, line, m3);
    does_both(out, b.0 + i.0, scale, m, m2, m3);
    does_both(out, b.0 + i.0 + scale, sum, m, m3, n);
    result_stands(p, params, out, mm, s, t, dest, rd, element_address(bv, iv, size), m, n);
    n
}

/// Running the code of an instruction on a machine that stands for a state leads to a machine that
/// stands for the state after the instruction.
#[verifier::rlimit(60)]
#[verifier::spinoff_prover]
pub proof fn instruction_follows<W>(
    p: ProgV,
    params: Seq<(usize, IrType)>,
    out: Outside,
    mm: MachineV<W>,
    s: StateV<W>,
    t: TrackerV,
    i: InstV,
    m: Machine,
) -> (n: Machine)
    requires
        has_words(mm),
        in_order(t),
        stands_for(p, params, out, mm, s, t, m),
        is_smooth(p, params, t, mm, s, i),
    ensures
        does(out, leaf_code::inst_code(p, params, t, i), m, n),
        in_order(after(params, t, i)),
        stands_for(
            p,
            params,
            out,
            mm,
            meaning::step(mm, Set::empty(), s, i),
            after(params, t, i),
            n,
        ),
{
    riscv_reading::registers_are_read();
    riscv_reading::mnemonics_are_words();
    match i {
        InstV::Load { dest, src } => {
            assert(ir::inst_operands(i)[0] == src);
            operands_agree(p, params, out, mm, s, t, m, src);
            let rd = target_is_free(t);
            let (ra, m1) = operand_comes(p, params, out, t, src, "t3"@, Reg::T(3), m);
            let a = leaf_code::op_in(p, params, t, src, "t3"@);
            riscv_reading::indirect_is_read(target(t), rd, a.1, ra);
            let line = Line::Lw { rd, offset: 0, base: ra };
            let code = "  lw "@ + target(t) + ", 0("@ + a.1 + ")\n"@;
            one_line(out, code, line, m1);
            let n = executed(out, line, m1);
            let v = operand(p, params, out, t, m, src);
            words_wrap(v);
            does_both(out, a.0, code, m, m1, n);
            result_stands(p, params, out, mm, s, t, dest, rd, m.mem[v], m, n);
            n
        },
        InstV::Store { value, ptr } => {
            assert(ir::inst_operands(i)[0] == value && ir::inst_operands(i)[1] == ptr);
            operands_agree(p, params, out, mm, s, t, m, value);
            operands_agree(p, params, out, mm, s, t, m, ptr);
            let (rv, ra, m2) = two_come(
                p,
                params,
                out,
                t,
                value,
                ptr,
                "t3"@,
                Reg::T(3),
                "t4"@,
                Reg::T(4),
                m,
            );
            let v = leaf_code::op_in(p, params, t, value, "t3"@);
            let a = leaf_code::op_in(p, params, t, ptr, "t4"@);
            riscv_reading::indirect_is_read(v.1, rv, a.1, ra);
            let line = Line::Sw { rs: rv, offset: 0, base: ra };
            let code = "  sw "@ + v.1 + ", 0("@ + a.1 + ")\n"@;
            one_line(out, code, line, m2);
            let n = executed(out, line, m2);
            words_wrap(operand(p, params, out, t, m, ptr));
            does_both(out, v.0 + a.0, code, m, m2, n);
            let w = meaning::step(mm, Set::empty(), s, i);
            assert forall|b: i32| #[trigger] (mm.load)(w.world, b) == n.mem[b] by {
                let at = meaning::value(mm, s, ptr);
                let x = meaning::value(mm, s, value);
                assert((mm.load)((mm.store)(s.world, at, x), b) == if at == b {
                    x
                } else {
                    (mm.load)(s.world, b)
                });
            }
            n
        },
        InstV::Arith { dest, op, lhs, rhs } => {
            assert(ir::inst_operands(i)[0] == lhs && ir::inst_operands(i)[1] == rhs);
            operands_agree(p, params, out, mm, s, t, m, lhs);
            operands_agree(p, params, out, mm, s, t, m, rhs);
            if reg_alloc::copies_param(i) {
                nothing_does(out, m);
                let k = param_at(params, lhs->Global_0)->0;
                let v = m.regs[Reg::A(k as int)];
                words::wrapping_is_wrap(v, 0);
                words_wrap(v);
                copy_stands(p, params, out, mm, s, t, dest, k, m);
                m
            } else {
                let rd = target_is_free(t);
                let (rl, rr, m2) = two_come(
                    p,
                    params,
                    out,
                    t,
                    lhs,
                    rhs,
                    "t3"@,
                    Reg::T(3),
                    "t4"@,
                    Reg::T(4),
                    m,
                );
                let l = leaf_code::op_in(p, params, t, lhs, "t3"@);
                let r = leaf_code::op_in(p, params, t, rhs, "t4"@);
                let o = riscv_reading::arith_op(op);
                let mn = ir_to_riscv::arith_name(op);
                three_is_read(mn, o, target(t), rd, l.1, rl, r.1, rr);
                let line = Line::Compute { op: o, rd, a: rl, b: rr };
                let code = leaf_code::three(mn, target(t), l.1, r.1);
                one_line(out, code, line, m2);
                let n = executed(out, line, m2);
                let v = operand(p, params, out, t, m, lhs);
                let w = operand(p, params, out, t, m, rhs);
                riscv_code::arithmetic_agrees(op, v, w);
                does_both(out, l.0 + r.0, code, m, m2, n);
                result_stands(
                    p,
                    params,
                    out,
                    mm,
                    s,
                    t,
                    dest,
                    rd,
                    const_fold::arith_value(op, v, w),
                    m,
                    n,
                );
                n
            }
        },
        InstV::GetPtr { dest, ptr, index, elem_size } => {
            assert(ir::inst_operands(i)[0] == ptr && ir::inst_operands(i)[1] == index);
            element_follows(p, params, out, mm, s, t, dest, ptr, index, elem_size, m)
        },
        InstV::GetElemPtr { dest, ptr, index, elem_size } => {
            assert(ir::inst_operands(i)[0] == ptr && ir::inst_operands(i)[1] == index);
            element_follows(p, params, out, mm, s, t, dest, ptr, index, elem_size, m)
        },
        _ => comparison_follows(p, params, out, mm, s, t, i, m),
    }
}

proof fn comparison_follows<W>(
    p: ProgV,
    params: Seq<(usize, IrType)>,
    out: Outside,
    mm: MachineV<W>,
    s: StateV<W>,
    t: TrackerV,
    i: InstV,
    m: Machine,
) -> (n: Machine)
    requires
        has_words(mm),
        in_order(t),
        stands_for(p, params, out, mm, s, t, m),
        is_smooth(p, params, t, mm, s, i),
        i is Icmp,
    ensures
        does(out, leaf_code::inst_code(p, params, t, i), m, n),
        in_order(after(params, t, i)),
        stands_for(
            p,
            params,
            out,
            mm,
            meaning::step(mm, Set::empty(), s, i),
            after(params, t, i),
            n,
        ),
{
    riscv_reading::registers_are_read();
    let dest = i->Icmp_dest;
    let op = i->Icmp_op;
    let lhs = i->Icmp_lhs;
    let rhs = i->Icmp_rhs;
    assert(ir::inst_operands(i)[0] == lhs && ir::inst_operands(i)[1] == rhs);
    operands_agree(p, params, out, mm, s, t, m, lhs);
    operands_agree(p, params, out, mm, s, t, m, rhs);
    let rd = target_is_free(t);
    let (rl, rr, m2) = two_come(
        p,
        params,
        out,
        t,
        lhs,
        rhs,
        "t3"@,
        Reg::T(3),
        "t4"@,
        Reg::T(4),
        m,
    );
    let l = leaf_code::op_in(p, params, t, lhs, "t3"@);
    let r = leaf_code::op_in(p, params, t, rhs, "t4"@);
    compare_is_read(op, target(t), rd, l.1, rl, r.1, rr);
    let n = riscv_code::lines_compare(out, op, rd, rl, rr, m2);
    let code = leaf_code::compare(op, target(t), l.1, r.1);
    assert(does(out, code, m2, n));
    does_both(out, l.0 + r.0, code, m, m2, n);
    let v = const_fold::compare_value(
        op,
        operand(p, params, out, t, m, lhs),
        operand(p, params, out, t, m, rhs),
    );
    result_stands(p, params, out, mm, s, t, dest, rd, v, m, n);
    n
}

/// Forgetting values whose last use has passed keeps the registers in order.
pub proof fn forgetting_stands<W>(
    p: ProgV,
    params: Seq<(usize, IrType)>,
    out: Outside,
    mm: MachineV<W>,
    s: StateV<W>,
    t: TrackerV,
    k: usize,
    m: Machine,
)
    requires
        in_order(t),
        stands_for(p, params, out, mm, s, t, m),
    ensures
        in_order(advanced(t, k)),
        stands_for(p, params, out, mm, s, advanced(t, k), m),
{
    let u = advanced(t, k);
    assert forall|l: usize| #[trigger] u.locals.contains_key(l) implies t.locals.contains_key(l)
        && u.locals[l] == t.locals[l] by {}
    assert forall|l: usize| #[trigger]
        u.locals.contains_key(l) && register_of(u, l) is T implies u.regs.contains_key(
        u.locals[l].0,
    ) && u.regs[u.locals[l].0] == l by {
        assert(t.locals.contains_key(l) && register_of(t, l) is T);
        let r = t.locals[l].0;
        assert forall|j: usize| #[trigger]
            t.locals.contains_key(j) && reg_alloc::is_dead(t, k, j) implies t.locals[j].0 != r by {
            if t.locals[j].0 == r {
                assert(register_of(t, j) is T);
                assert(t.regs[r] == j);
            }
        }
    }
    assert forall|g: usize|
        at_hand(p, params, u, IrOperand::Global(g)) implies #[trigger] (mm.address)(g) == operand(
        p,
        params,
        out,
        u,
        m,
        IrOperand::Global(g),
    ) by {
        assert(at_hand(p, params, t, IrOperand::Global(g)));
    }
}

/// Whether the first `n` steps of a function can be followed on the machine.
pub open spec fn are_smooth<W>(
    p: ProgV,
    params: Seq<(usize, IrType)>,
    mm: MachineV<W>,
    s: StateV<W>,
    instrs: Seq<InstV>,
    n: int,
) -> bool {
    forall|k: int|
        0 <= k < n ==> is_smooth(
            p,
            params,
            advanced(leaf_code::regs_after(params, instrs, k), k as usize),
            mm,
            meaning::run(mm, Set::empty(), s, instrs.take(k)),
            #[trigger] instrs[k],
        )
}

/// Running the code of the first instructions of a function leads to a machine that stands for the
/// state after them.
pub proof fn instructions_follow<W>(
    p: ProgV,
    params: Seq<(usize, IrType)>,
    out: Outside,
    mm: MachineV<W>,
    s: StateV<W>,
    instrs: Seq<InstV>,
    n: int,
    m: Machine,
) -> (r: Machine)
    requires
        0 <= n <= instrs.len(),
        has_words(mm),
        stands_for(p, params, out, mm, s, leaf_code::at_start(instrs), m),
        are_smooth(p, params, mm, s, instrs, n),
    ensures
        does(out, leaf_code::insts_code(p, params, instrs, n), m, r),
        in_order(leaf_code::regs_after(params, instrs, n)),
        stands_for(
            p,
            params,
            out,
            mm,
            meaning::run(mm, Set::empty(), s, instrs.take(n)),
            leaf_code::regs_after(params, instrs, n),
            r,
        ),
    decreases n,
{
    if n == 0 {
        nothing_does(out, m);
        assert(instrs.take(0) =~= Seq::empty());
        m
    } else {
        let m1 = instructions_follow(p, params, out, mm, s, instrs, n - 1, m);
        let t = leaf_code::regs_after(params, instrs, n - 1);
        let u = advanced(t, (n - 1) as usize);
        let s1 = meaning::run(mm, Set::empty(), s, instrs.take(n - 1));
        forgetting_stands(p, params, out, mm, s1, t, (n - 1) as usize, m1);
        assert(is_smooth(p, params, u, mm, s1, instrs[n - 1]));
        let r = instruction_follows(p, params, out, mm, s1, u, instrs[n - 1], m1);
        assert(instrs.take(n).drop_last() =~= instrs.take(n - 1));
        does_both(
            out,
            leaf_code::insts_code(p, params, instrs, n - 1),
            leaf_code::inst_code(p, params, u, instrs[n - 1]),
            m,
            m1,
            r,
        );
        r
    }
}

/// A return leaves its value in `a0`.
proof fn return_goes(
    p: ProgV,
    params: Seq<(usize, IrType)>,
    out: Outside,
    t: TrackerV,
    value: Option<IrOperand>,
    m: Machine,
) -> (r: Machine)
    requires
        in_order(t),
        value matches Some(v) ==> at_hand(p, params, t, v),
    ensures
        run(out, leaf_code::ret_code(p, params, t, value), m) == Exit::Returns(r),
        value matches Some(v) ==> r.regs[Reg::A(0)] == operand(p, params, out, t, m, v),
        r.mem == m.mem,
{
    riscv_reading::registers_are_read();
    riscv_reading::call_is_read("ra"@);
    match value {
        Some(v) => {
            let (rv, m2) = operand_comes(p, params, out, t, v, "a0"@, Reg::A(0), m);
            let c = leaf_code::op_in(p, params, t, v, "a0"@);
            riscv_reading::to_a0_is_read(c.1, rv);
            let copy = ir_to_riscv::to_a0(c.1);
            let r = if rv == Reg::A(0) {
                nothing_does(out, m2);
                m2
            } else {
                let line = Line::Mv { rd: Reg::A(0), rs: rv };
                one_line(out, copy, line, m2);
                executed(out, line, m2)
            };
            assert(does(out, copy, m2, r));
            does_both(out, c.0, copy, m, m2, r);
            runs_on(out, c.0 + copy, "  ret\n"@, m, r);
            assert(left(out, listing("  ret\n"@), 0, r) == Exit::Returns(r));
            r
        },
        None => {
            assert(left(out, listing("  ret\n"@), 0, m) == Exit::Returns(m));
            m
        },
    }
}

/// Running the code of a function without a frame that ends with a return comes back to the caller
/// with the value that the function returns in `a0`, and with memory as the function leaves it.
#[verifier::rlimit(40)]
pub proof fn leaf_returns<W>(
    p: ProgV,
    params: Seq<(usize, IrType)>,
    out: Outside,
    mm: MachineV<W>,
    s: StateV<W>,
    instrs: Seq<InstV>,
    m: Machine,
) -> (r: Machine)
    requires
        instrs.len() > 0,
        has_words(mm),
        stands_for(p, params, out, mm, s, leaf_code::at_start(instrs), m),
        are_smooth(p, params, mm, s, instrs, instrs.len() - 1),
        instrs.last() is Ret,
        instrs.last()->Ret_value matches Some(v) ==> at_hand(
            p,
            params,
            advanced(
                leaf_code::regs_after(params, instrs, instrs.len() - 1),
                (instrs.len() - 1) as usize,
            ),
            v,
        ),
    ensures
        run(out, leaf_code::insts_code(p, params, instrs, instrs.len() as int), m)
            == Exit::Returns(r),
        ({
            let t = meaning::run(mm, Set::empty(), s, instrs.drop_last());
            &&& instrs.last()->Ret_value matches Some(v) ==> r.regs[Reg::A(0)] == meaning::value(
                mm,
                t,
                v,
            )
            &&& forall|a: i32| #[trigger] (mm.load)(t.world, a) == r.mem[a]
        }),
{
    let k = instrs.len() - 1;
    assert(instrs.take(k) =~= instrs.drop_last());
    let m1 = instructions_follow(p, params, out, mm, s, instrs, k, m);
    let t = leaf_code::regs_after(params, instrs, k);
    let u = advanced(t, k as usize);
    let s1 = meaning::run(mm, Set::empty(), s, instrs.drop_last());
    forgetting_stands(p, params, out, mm, s1, t, k as usize, m1);
    let x = leaf_code::insts_code(p, params, instrs, k);
    let value = instrs.last()->Ret_value;
    if let Some(v) = value {
        operands_agree(p, params, out, mm, s1, u, m1, v);
    }
    let r = return_goes(p, params, out, u, value, m1);
    runs_on(out, x, leaf_code::ret_code(p, params, u, value), m, m1);
    assert forall|a: i32| #[trigger] (mm.load)(s1.world, a) == r.mem[a] by {
        assert((mm.load)(s1.world, a) == m1.mem[a]);
    }
    r
}

} // verus!

//! Running the assembly of a function does what the function means.

use crate::cfg;
use crate::frame::{self, FrameV};
use crate::ir::{self, BlockV, FuncV, InstV, IrArithOp, IrOperand, IrType, ProgV};
use crate::ir_to_riscv;
use crate::meaning::{self, MachineV, OutcomeV, StateV};
use crate::opt::const_fold;
use crate::reading::{is_word, whole_lines};
use crate::riscv_code::{
    self, arithmetic_does, at_offset, branch_goes, compare_does, does, does_both, element_address,
    element_does, has_place, is_far, jump_goes, keeps_registers, load_does, nothing_does, operand,
    placed, return_goes, runs_on, store_does, word,
};
use crate::riscv_calls::{
    self, all_offsets_differ, has_room, in_frame, is_spare, kept_at, left_over, operands, passes,
    pushed_at,
};
use crate::riscv_machine::{self, left, listing, run, Exit, Line, Machine, Outside, Reg};
use crate::riscv_reading;
use crate::text;
use crate::words::{self, divides, wrap};
use vstd::prelude::*;

verus! {

// ── Frames ───────────────────────────────────────────────────────────────────

/// The places of SSA values and parameters in a frame are all different.
pub open spec fn separate(fr: FrameV) -> bool {
    &&& 0 <= fr.args <= fr.ra < fr.size
    &&& forall|l: usize| #[trigger] fr.locals.contains_key(l) ==> 0 <= fr.locals[l] < fr.args
    &&& forall|g: usize| #[trigger]
        fr.spills.contains_key(g) ==> fr.args <= fr.spills[g] < fr.ra
    &&& forall|g: usize| #[trigger] fr.stack.contains_key(g) ==> fr.size <= fr.stack[g]
    &&& forall|l: usize, k: usize| #[trigger]
        fr.locals.contains_key(l) && #[trigger] fr.locals.contains_key(k) && l != k
            ==> fr.locals[l] != fr.locals[k]
}

/// The parameters that the caller has left on the stack are above the frame.
pub proof fn stack_is_above(params: Seq<(usize, IrType)>, n: int, size: int)
    requires
        0 <= size,
        n <= params.len(),
        size + 4 * params.len() <= i32::MAX,
    ensures
        forall|g: usize| #[trigger]
            frame::stack_params(params, n, size).contains_key(g) ==> size
                <= frame::stack_params(params, n, size)[g],
    decreases n,
{
    if n > frame::REG_ARGS {
        stack_is_above(params, n - 1, size);
        let before = frame::stack_params(params, n - 1, size);
        let last = params[n - 1].0;
        let offset = size + (n - 1 - frame::REG_ARGS) * 4;
        assert(size <= offset <= i32::MAX);
        let all = frame::stack_params(params, n, size);
        assert(all == before.insert(last, offset as i32));
        assert forall|g: usize| #[trigger] all.contains_key(g) implies size <= all[g] by {
            if g != last {
                assert(before.contains_key(g));
            }
        }
    }
}

/// The places of SSA values and parameters in the frame of a function are all different.
pub proof fn frames_separate(f: FuncV)
    requires
        frame::frame(f) is Some,
    ensures
        separate(frame::frame(f)->0),
{
    frame::frame_is_laid_out(f);
    let fr = frame::frame(f)->0;
    assert(fr.args <= fr.size && fr.ra < fr.size && 0 <= fr.args);
    stack_is_above(f.params, f.params.len() as int, fr.size as int);
    let sizes = frame::size_among(frame::var_sizes(f.blocks));
    assert forall|l: usize| #[trigger] fr.locals.contains_key(l) implies 0 <= fr.locals[l]
        && fr.locals[l] + 4 <= fr.args by {}
    assert forall|l: usize, k: usize| #[trigger]
        fr.locals.contains_key(l) && #[trigger] fr.locals.contains_key(k) && l
            != k implies fr.locals[l] != fr.locals[k] by {
        assert(fr.locals[l] + 4 <= fr.locals[k] || fr.locals[k] + 4 <= fr.locals[l]);
    }
}

/// Different offsets from the stack pointer are different addresses.
pub proof fn offsets_differ(m: Machine, a: int, b: int)
    requires
        0 <= a <= i32::MAX,
        0 <= b <= i32::MAX,
    ensures
        at_offset(m, a) == at_offset(m, b) <==> a == b,
{
    let sp = m.regs[Reg::Sp] as int;
    let k = words::modulus();
    if at_offset(m, a) == at_offset(m, b) {
        let x = sp + a;
        let y = sp + b;
        assert(x % k == y % k);
        vstd::arithmetic::div_mod::lemma_fundamental_div_mod(x, k);
        vstd::arithmetic::div_mod::lemma_fundamental_div_mod(y, k);
        let q = x / k;
        let r = y / k;
        assert(a - b == k * (q - r)) by (nonlinear_arith)
            requires
                x == k * q + x % k,
                y == k * r + y % k,
                x % k == y % k,
                x - y == a - b,
        ;
        assert(q == r) by (nonlinear_arith)
            requires
                a - b == k * (q - r),
                -0x8000_0000 < a - b < 0x8000_0000,
                k == 0x1_0000_0000,
        ;
    }
}

// ── States ───────────────────────────────────────────────────────────────────

/// Whether an address is one of a word of the frame where the code keeps an SSA value, a parameter,
/// the arguments of a call or the return address, or where the caller has left a parameter.
pub open spec fn is_own(fr: FrameV, m: Machine, a: i32) -> bool {
    ||| exists|l: usize| #[trigger]
        fr.locals.contains_key(l) && a == at_offset(m, fr.locals[l] as int)
    ||| exists|o: int| fr.args <= o < fr.size && a == #[trigger] at_offset(m, o)
    ||| exists|g: usize| #[trigger]
        fr.stack.contains_key(g) && a == at_offset(m, fr.stack[g] as int)
}

/// Whether an address is one of a word below the stack pointer, where arguments are pushed.
pub open spec fn is_below(fr: FrameV, m: Machine, a: i32) -> bool {
    exists|o: int| -fr.size <= o < 0 && a == #[trigger] at_offset(m, o)
}

/// Whether the code keeps something of its own at an address.
pub open spec fn reserved(fr: FrameV, m: Machine, a: i32) -> bool {
    is_own(fr, m, a) || is_below(fr, m, a)
}

/// A world where memory is words: reading an address gives what was last written there, and
/// elements follow one another.
pub open spec fn has_words<W>(mm: MachineV<W>) -> bool {
    &&& mm.undef == 0
    &&& forall|b: i32, i: i32, size: i32| #[trigger]
        (mm.element)(b, i, size) == element_address(b, i, size)
    &&& forall|w: W, a: i32, v: i32, b: i32| #[trigger]
        (mm.load)((mm.store)(w, a, v), b) == if a == b {
            v
        } else {
            (mm.load)(w, b)
        }
}

/// A state of the machine that stands for a state of the function: the places of SSA values hold
/// them, names are where they are said to be, and the rest of memory is the world.
pub open spec fn stands_for<W>(
    p: ProgV,
    fr: FrameV,
    out: Outside,
    mm: MachineV<W>,
    s: StateV<W>,
    m: Machine,
) -> bool {
    &&& forall|l: usize| #[trigger]
        s.locals.contains_key(l) && fr.locals.contains_key(l) ==> s.locals[l] == word(
            m,
            fr.locals[l] as int,
        )
    &&& forall|g: usize|
        has_place(p, fr, IrOperand::Global(g)) ==> #[trigger] (mm.address)(g) == operand(
            p,
            fr,
            out,
            m,
            IrOperand::Global(g),
        )
    &&& forall|a: i32| !reserved(fr, m, a) ==> #[trigger] (mm.load)(s.world, a) == m.mem[a]
}

/// An operand that is known: it has a place, and an SSA value has been defined.
pub open spec fn is_known<W>(p: ProgV, fr: FrameV, s: StateV<W>, op: IrOperand) -> bool {
    has_place(p, fr, op) && (op matches IrOperand::Local(l) ==> fr.locals.contains_key(l)
        && s.locals.contains_key(l))
}

proof fn operands_agree<W>(
    p: ProgV,
    fr: FrameV,
    out: Outside,
    mm: MachineV<W>,
    s: StateV<W>,
    m: Machine,
    op: IrOperand,
)
    requires
        has_words(mm),
        stands_for(p, fr, out, mm, s, m),
        is_known(p, fr, s, op),
    ensures
        meaning::value(mm, s, op) == operand(p, fr, out, m, op),
{
}

/// A value that is put in the place of an SSA value is the value of the SSA value.
proof fn placed_stands<W>(
    p: ProgV,
    fr: FrameV,
    out: Outside,
    mm: MachineV<W>,
    s: StateV<W>,
    dest: usize,
    v: i32,
    m: Machine,
    n: Machine,
)
    requires
        separate(fr),
        stands_for(p, fr, out, mm, s, m),
        fr.locals.contains_key(dest),
        placed(fr, dest, v, m, n),
    ensures
        stands_for(p, fr, out, mm, meaning::with_local(s, dest, v), n),
{
    let t = meaning::with_local(s, dest, v);
    assert(n.regs[Reg::Sp] == m.regs[Reg::Sp]);
    let d = fr.locals[dest] as int;
    assert forall|l: usize| #[trigger]
        t.locals.contains_key(l) && fr.locals.contains_key(l) implies t.locals[l] == word(
        n,
        fr.locals[l] as int,
    ) by {
        offsets_differ(m, d, fr.locals[l] as int);
        if l != dest {
            assert(s.locals.contains_key(l));
        }
    }
    assert forall|g: usize|
        has_place(p, fr, IrOperand::Global(g)) implies #[trigger] (mm.address)(g) == operand(
        p,
        fr,
        out,
        n,
        IrOperand::Global(g),
    ) by {
        if fr.spills.contains_key(g) {
            offsets_differ(m, d, fr.spills[g] as int);
        } else if fr.stack.contains_key(g) {
            offsets_differ(m, d, fr.stack[g] as int);
        }
    }
    assert forall|a: i32| !reserved(fr, n, a) implies #[trigger] (mm.load)(t.world, a)
        == n.mem[a] by {
        assert(fr.locals.contains_key(dest));
        assert(a != at_offset(n, fr.locals[dest] as int));
        reserved_stays(fr, m, n, a);
    }
}

/// What is reserved depends on the stack pointer alone.
pub proof fn reserved_stays(fr: FrameV, m: Machine, n: Machine, a: i32)
    requires
        n.regs[Reg::Sp] == m.regs[Reg::Sp],
    ensures
        reserved(fr, n, a) == reserved(fr, m, a),
        is_own(fr, n, a) == is_own(fr, m, a),
{
    reserved_goes(fr, m, n, a);
    reserved_goes(fr, n, m, a);
}

proof fn reserved_goes(fr: FrameV, m: Machine, n: Machine, a: i32)
    requires
        n.regs[Reg::Sp] == m.regs[Reg::Sp],
    ensures
        is_own(fr, m, a) ==> is_own(fr, n, a),
        is_below(fr, m, a) ==> is_below(fr, n, a),
{
    if exists|l: usize| #[trigger]
        fr.locals.contains_key(l) && a == at_offset(m, fr.locals[l] as int) {
        let l = choose|l: usize| #[trigger]
            fr.locals.contains_key(l) && a == at_offset(m, fr.locals[l] as int);
        assert(a == at_offset(n, fr.locals[l] as int));
    }
    if exists|o: int| fr.args <= o < fr.size && a == #[trigger] at_offset(m, o) {
        let o = choose|o: int| fr.args <= o < fr.size && a == #[trigger] at_offset(m, o);
        assert(a == at_offset(n, o));
    }
    if exists|g: usize| #[trigger]
        fr.stack.contains_key(g) && a == at_offset(m, fr.stack[g] as int) {
        let g = choose|g: usize| #[trigger]
            fr.stack.contains_key(g) && a == at_offset(m, fr.stack[g] as int);
        assert(a == at_offset(n, fr.stack[g] as int));
    }
    if is_below(fr, m, a) {
        let o = choose|o: int| -fr.size <= o < 0 && a == #[trigger] at_offset(m, o);
        assert(a == at_offset(n, o));
    }
}

proof fn stored_stands<W>(
    p: ProgV,
    fr: FrameV,
    out: Outside,
    mm: MachineV<W>,
    s: StateV<W>,
    a: i32,
    v: i32,
    m: Machine,
    n: Machine,
)
    requires
        separate(fr),
        has_words(mm),
        stands_for(p, fr, out, mm, s, m),
        !reserved(fr, m, a),
        n.mem == m.mem.insert(a, v),
        keeps_registers(m, n),
    ensures
        stands_for(p, fr, out, mm, StateV { world: (mm.store)(s.world, a, v), ..s }, n),
{
    let t = StateV { world: (mm.store)(s.world, a, v), ..s };
    assert(n.regs[Reg::Sp] == m.regs[Reg::Sp]);
    assert forall|l: usize| #[trigger]
        t.locals.contains_key(l) && fr.locals.contains_key(l) implies t.locals[l] == word(
        n,
        fr.locals[l] as int,
    ) by {
        assert(a != at_offset(m, fr.locals[l] as int));
    }
    assert forall|g: usize|
        has_place(p, fr, IrOperand::Global(g)) implies #[trigger] (mm.address)(g) == operand(
        p,
        fr,
        out,
        n,
        IrOperand::Global(g),
    ) by {
        if fr.spills.contains_key(g) {
            assert(a != at_offset(m, fr.spills[g] as int));
        } else if fr.stack.contains_key(g) {
            assert(a != at_offset(m, fr.stack[g] as int));
        }
    }
    assert forall|b: i32| !reserved(fr, n, b) implies #[trigger] (mm.load)(t.world, b)
        == n.mem[b] by {
        reserved_stays(fr, m, n, b);
        assert((mm.load)((mm.store)(s.world, a, v), b) == if a == b {
            v
        } else {
            (mm.load)(s.world, b)
        });
    }
}

proof fn unchanged_stands<W>(
    p: ProgV,
    fr: FrameV,
    out: Outside,
    mm: MachineV<W>,
    s: StateV<W>,
    m: Machine,
    n: Machine,
)
    requires
        stands_for(p, fr, out, mm, s, m),
        n.mem == m.mem,
        keeps_registers(m, n),
    ensures
        stands_for(p, fr, out, mm, s, n),
{
    assert(n.regs[Reg::Sp] == m.regs[Reg::Sp]);
    assert forall|a: i32| !reserved(fr, n, a) implies #[trigger] (mm.load)(s.world, a)
        == n.mem[a] by {
        reserved_stays(fr, m, n, a);
    }
    assert forall|g: usize|
        has_place(p, fr, IrOperand::Global(g)) implies #[trigger] (mm.address)(g) == operand(
        p,
        fr,
        out,
        n,
        IrOperand::Global(g),
    ) by {
        assert((mm.address)(g) == operand(p, fr, out, m, IrOperand::Global(g)));
    }
}

/// Where the function goes back to.
pub open spec fn goes_back_to(fr: FrameV, m: Machine) -> i32 {
    if fr.calls {
        word(m, fr.ra as int)
    } else {
        m.regs[Reg::Ra]
    }
}

proof fn way_back_stays(fr: FrameV, m: Machine, n: Machine, a: i32, v: i32)
    requires
        separate(fr),
        n.mem == m.mem.insert(a, v),
        keeps_registers(m, n),
        a != at_offset(m, fr.ra as int),
    ensures
        goes_back_to(fr, n) == goes_back_to(fr, m),
        n.regs[Reg::Sp] == m.regs[Reg::Sp],
{
    assert(n.regs[Reg::Sp] == m.regs[Reg::Sp]);
    assert(n.regs[Reg::Ra] == m.regs[Reg::Ra]);
}

proof fn way_back_past_store(fr: FrameV, m: Machine, n: Machine, a: i32, v: i32)
    requires
        separate(fr),
        n.mem == m.mem.insert(a, v),
        keeps_registers(m, n),
        !reserved(fr, m, a),
    ensures
        goes_back_to(fr, n) == goes_back_to(fr, m),
        n.regs[Reg::Sp] == m.regs[Reg::Sp],
{
    assert(is_own(fr, m, at_offset(m, fr.ra as int)));
    way_back_stays(fr, m, n, a, v);
}

// ── Calls ────────────────────────────────────────────────────────────────────

/// Whether a machine is about to enter a function as it is to be entered: with the values of the
/// arguments in place and the world as it is.
pub open spec fn enters<W>(
    fr: FrameV,
    m: Machine,
    mm: MachineV<W>,
    s: StateV<W>,
    vals: Seq<i32>,
    c: Machine,
) -> bool {
    &&& passes(vals, c)
    &&& c.regs[Reg::Sp] == at_offset(m, -4 * left_over(vals.len() as int))
    &&& forall|a: i32| !reserved(fr, m, a) ==> #[trigger] (mm.load)(s.world, a) == c.mem[a]
}

/// Whether a function comes back as it is to: with the stack pointer and the frame of its caller as
/// they were, its result in `a0`, and the world as it leaves it.
pub open spec fn comes_back<W>(
    fr: FrameV,
    m: Machine,
    mm: MachineV<W>,
    world: W,
    v: i32,
    c: Machine,
    r: Machine,
) -> bool {
    &&& r.regs[Reg::Sp] == c.regs[Reg::Sp]
    &&& r.regs[Reg::A(0)] == v
    &&& forall|a: i32| is_own(fr, m, a) ==> #[trigger] r.mem[a] == c.mem[a]
    &&& forall|a: i32| !reserved(fr, m, a) ==> #[trigger] (mm.load)(world, a) == r.mem[a]
}

/// Whether what is outside answers a call as the world does.
pub open spec fn answers<W>(
    p: ProgV,
    fr: FrameV,
    out: Outside,
    m: Machine,
    mm: MachineV<W>,
    s: StateV<W>,
    func: usize,
    args: Seq<IrOperand>,
) -> bool {
    let vals = meaning::values(mm, s, args);
    let (world, v) = (mm.call)(s.world, func, vals);
    forall|c: Machine|
        enters(fr, m, mm, s, vals, c) ==> comes_back(
            fr,
            m,
            mm,
            world,
            v,
            c,
            #[trigger] (out.call)(ir_to_riscv::bare(p.func_names[func as int]), c),
        )
}

/// Whether a call can be followed on the machine.
pub open spec fn call_is_smooth<W>(
    p: ProgV,
    fr: FrameV,
    out: Outside,
    m: Machine,
    mm: MachineV<W>,
    s: StateV<W>,
    dest: Option<usize>,
    func: usize,
    args: Seq<IrOperand>,
) -> bool {
    &&& fr.calls && has_room(fr, args.len() as int)
    &&& dest matches Some(d) ==> fr.locals.contains_key(d)
    &&& forall|k: int| 0 <= k < args.len() ==> is_known(p, fr, s, #[trigger] args[k])
    &&& is_word(ir_to_riscv::bare(p.func_names[func as int]))
    &&& answers(p, fr, out, m, mm, s, func, args)
}

/// A word of the frame that is no argument of a call is not one where arguments are kept or pushed.
proof fn own_is_not_spare(fr: FrameV, m: Machine, n: int, o: int)
    requires
        separate(fr),
        has_room(fr, n),
        (0 <= o < fr.args) || (fr.args + 4 * n <= o <= i32::MAX),
    ensures
        !is_spare(fr, m, n, at_offset(m, o)),
{
    let a = at_offset(m, o);
    assert forall|i: int| 0 <= i < n implies a != #[trigger] kept_at(fr, m, i) && a != pushed_at(
        m,
        i,
    ) by {
        all_offsets_differ(m, o, fr.args + 4 * i);
        all_offsets_differ(m, o, -4 * (i + 1));
    }
}

proof fn spare_is_reserved(fr: FrameV, m: Machine, n: int, a: i32)
    requires
        separate(fr),
        has_room(fr, n),
        is_spare(fr, m, n, a),
    ensures
        reserved(fr, m, a),
{
    let i = choose|i: int|
        0 <= i < n && (a == #[trigger] kept_at(fr, m, i) || a == pushed_at(m, i));
    if a == kept_at(fr, m, i) {
        let o = fr.args + 4 * i;
        assert(fr.args <= o < fr.size && a == at_offset(m, o));
    } else {
        let o = -4 * (i + 1);
        assert(-fr.size <= o < 0 && a == at_offset(m, o));
    }
}

/// Running the code of a call on a machine that stands for a state leads to a machine that stands
/// for the state after the call.
#[verifier::rlimit(60)]
#[verifier::spinoff_prover]
proof fn call_follows<W>(
    p: ProgV,
    fr: FrameV,
    out: Outside,
    mm: MachineV<W>,
    s: StateV<W>,
    dest: Option<usize>,
    func: usize,
    args: Seq<IrOperand>,
    m: Machine,
) -> (n: Machine)
    requires
        separate(fr),
        has_words(mm),
        stands_for(p, fr, out, mm, s, m),
        is_smooth(p, fr, out, m, mm, s, InstV::Call { dest, func, args }),
    ensures
        does(out, ir_to_riscv::call_code(p, fr, dest, func, args), m, n),
        stands_for(
            p,
            fr,
            out,
            mm,
            meaning::step(mm, Set::empty(), s, InstV::Call { dest, func, args }),
            n,
        ),
        n.regs[Reg::Sp] == m.regs[Reg::Sp],
        goes_back_to(fr, n) == goes_back_to(fr, m),
{
    let k = args.len() as int;
    assert forall|i: int| 0 <= i < args.len() implies in_frame(p, fr, #[trigger] args[i])
        && meaning::value(mm, s, args[i]) == operand(p, fr, out, m, args[i]) by {
        assert(is_known(p, fr, s, args[i]));
        operands_agree(p, fr, out, mm, s, m, args[i]);
    }
    let vals = meaning::values(mm, s, args);
    assert(vals =~= operands(p, fr, out, m, args));
    let (world, v) = (mm.call)(s.world, func, vals);
    let (c, n) = riscv_calls::call_does(p, fr, out, dest, func, args, m);
    assert forall|a: i32| !reserved(fr, m, a) implies #[trigger] (mm.load)(s.world, a)
        == c.mem[a] by {
        if is_spare(fr, m, k, a) {
            spare_is_reserved(fr, m, k, a);
        }
        assert(c.mem[a] == m.mem[a]);
    }
    assert(enters(fr, m, mm, s, vals, c));
    let r = (out.call)(ir_to_riscv::bare(p.func_names[func as int]), c);
    assert(comes_back(fr, m, mm, world, v, c, r));
    // The frame is as it was.
    assert forall|o: int|
        is_own(fr, m, at_offset(m, o)) && ((0 <= o < fr.args) || (fr.args + 4 * k <= o
            <= i32::MAX)) implies r.mem[#[trigger] at_offset(m, o)] == m.mem[at_offset(m, o)] by {
        own_is_not_spare(fr, m, k, o);
        let a = at_offset(m, o);
        assert(c.mem[a] == m.mem[a]);
        assert(r.mem[a] == c.mem[a]);
    }
    assert(is_own(fr, m, at_offset(m, fr.ra as int)));
    let back = Machine { regs: n.regs, mem: r.mem };
    let t = StateV { world, ..s };
    assert forall|l: usize| #[trigger]
        t.locals.contains_key(l) && fr.locals.contains_key(l) implies t.locals[l] == word(
        back,
        fr.locals[l] as int,
    ) by {
        let o = fr.locals[l] as int;
        assert(is_own(fr, m, at_offset(m, o)));
        assert(r.mem[at_offset(m, o)] == m.mem[at_offset(m, o)]);
    }
    assert forall|g: usize|
        has_place(p, fr, IrOperand::Global(g)) implies #[trigger] (mm.address)(g) == operand(
        p,
        fr,
        out,
        back,
        IrOperand::Global(g),
    ) by {
        assert((mm.address)(g) == operand(p, fr, out, m, IrOperand::Global(g)));
        if fr.spills.contains_key(g) {
            let o = fr.spills[g] as int;
            assert(is_own(fr, m, at_offset(m, o)));
            assert(r.mem[at_offset(m, o)] == m.mem[at_offset(m, o)]);
        } else if fr.stack.contains_key(g) {
            let o = fr.stack[g] as int;
            assert(is_own(fr, m, at_offset(m, o)));
            assert(r.mem[at_offset(m, o)] == m.mem[at_offset(m, o)]);
        }
    }
    assert forall|a: i32| !reserved(fr, back, a) implies #[trigger] (mm.load)(t.world, a)
        == back.mem[a] by {
        reserved_stays(fr, m, back, a);
    }
    assert(stands_for(p, fr, out, mm, t, back));
    match dest {
        Some(d) => {
            assert(placed(fr, d, v, back, n));
            placed_stands(p, fr, out, mm, t, d, v, back, n);
            offsets_differ(m, fr.locals[d] as int, fr.ra as int);
        },
        None => {
            assert(n == back);
        },
    }
    n
}

// ── Instructions ─────────────────────────────────────────────────────────────

/// Whether a step can be followed on the machine: its operands are known, the second of two is near,
/// a quotient exists, memory is read and written outside the places of the frame, and a call is
/// answered.
pub open spec fn is_smooth<W>(
    p: ProgV,
    fr: FrameV,
    out: Outside,
    m: Machine,
    mm: MachineV<W>,
    s: StateV<W>,
    i: InstV,
) -> bool {
    match i {
        InstV::Alloc { .. } => true,
        InstV::Load { dest, src } => fr.locals.contains_key(dest) && is_known(p, fr, s, src)
            && !reserved(fr, m, meaning::value(mm, s, src)),
        InstV::Store { value, ptr } => is_known(p, fr, s, value) && is_known(p, fr, s, ptr)
            && !reserved(fr, m, meaning::value(mm, s, ptr)),
        InstV::Arith { dest, op, lhs, rhs } => fr.locals.contains_key(dest) && is_known(
            p,
            fr,
            s,
            lhs,
        ) && is_known(p, fr, s, rhs) && !is_far(fr, rhs) && ((op is Div || op is Mod) ==> divides(
            meaning::value(mm, s, lhs),
            meaning::value(mm, s, rhs),
        )),
        InstV::Icmp { dest, lhs, rhs, .. } => fr.locals.contains_key(dest) && is_known(
            p,
            fr,
            s,
            lhs,
        ) && is_known(p, fr, s, rhs) && !is_far(fr, rhs),
        InstV::GetPtr { dest, ptr, index, elem_size } => fr.locals.contains_key(dest) && is_known(
            p,
            fr,
            s,
            ptr,
        ) && is_known(p, fr, s, index) && !is_far(fr, index) && elem_size != 0,
        InstV::GetElemPtr { dest, ptr, index, elem_size } => fr.locals.contains_key(dest)
            && is_known(p, fr, s, ptr) && is_known(p, fr, s, index) && !is_far(fr, index)
            && elem_size != 0,
        InstV::Call { dest, func, args } => call_is_smooth(p, fr, out, m, mm, s, dest, func, args),
        _ => false,
    }
}

/// Running the code of an instruction on a machine that stands for a state leads to a machine that
/// stands for the state after the instruction.
pub proof fn instruction_follows<W>(
    p: ProgV,
    fr: FrameV,
    out: Outside,
    mm: MachineV<W>,
    s: StateV<W>,
    blocks: Seq<BlockV>,
    base: int,
    i: InstV,
    m: Machine,
) -> (n: Machine)
    requires
        separate(fr),
        has_words(mm),
        stands_for(p, fr, out, mm, s, m),
        is_smooth(p, fr, out, m, mm, s, i),
    ensures
        does(out, ir_to_riscv::inst_code(p, fr, blocks, base, i), m, n),
        stands_for(p, fr, out, mm, meaning::step(mm, Set::empty(), s, i), n),
        n.regs[Reg::Sp] == m.regs[Reg::Sp],
        goes_back_to(fr, n) == goes_back_to(fr, m),
{
    match i {
        InstV::Load { dest, src } => {
            operands_agree(p, fr, out, mm, s, m, src);
            let n = load_does(p, fr, out, dest, src, m);
            let a = operand(p, fr, out, m, src);
            assert((mm.load)(s.world, a) == m.mem[a]);
            placed_stands(p, fr, out, mm, s, dest, m.mem[a], m, n);
            way_back(fr, dest, m.mem[a], m, n);
            n
        },
        InstV::Store { value, ptr } => {
            operands_agree(p, fr, out, mm, s, m, value);
            operands_agree(p, fr, out, mm, s, m, ptr);
            let n = store_does(p, fr, out, value, ptr, m);
            stored_stands(
                p,
                fr,
                out,
                mm,
                s,
                operand(p, fr, out, m, ptr),
                operand(p, fr, out, m, value),
                m,
                n,
            );
            way_back_past_store(
                fr,
                m,
                n,
                operand(p, fr, out, m, ptr),
                operand(p, fr, out, m, value),
            );
            n
        },
        InstV::Arith { dest, op, lhs, rhs } => {
            operands_agree(p, fr, out, mm, s, m, lhs);
            operands_agree(p, fr, out, mm, s, m, rhs);
            let n = arithmetic_does(p, fr, out, dest, op, lhs, rhs, m);
            let v = const_fold::arith_value(
                op,
                operand(p, fr, out, m, lhs),
                operand(p, fr, out, m, rhs),
            );
            placed_stands(p, fr, out, mm, s, dest, v, m, n);
            way_back(fr, dest, v, m, n);
            n
        },
        InstV::Icmp { dest, op, lhs, rhs } => {
            operands_agree(p, fr, out, mm, s, m, lhs);
            operands_agree(p, fr, out, mm, s, m, rhs);
            let n = compare_does(p, fr, out, dest, op, lhs, rhs, m);
            let v = const_fold::compare_value(
                op,
                operand(p, fr, out, m, lhs),
                operand(p, fr, out, m, rhs),
            );
            placed_stands(p, fr, out, mm, s, dest, v, m, n);
            way_back(fr, dest, v, m, n);
            n
        },
        InstV::GetPtr { dest, ptr, index, elem_size } => {
            operands_agree(p, fr, out, mm, s, m, ptr);
            operands_agree(p, fr, out, mm, s, m, index);
            let n = element_does(p, fr, out, dest, ptr, index, elem_size, m);
            let v = element_address(
                operand(p, fr, out, m, ptr),
                operand(p, fr, out, m, index),
                elem_size,
            );
            placed_stands(p, fr, out, mm, s, dest, v, m, n);
            way_back(fr, dest, v, m, n);
            n
        },
        InstV::GetElemPtr { dest, ptr, index, elem_size } => {
            operands_agree(p, fr, out, mm, s, m, ptr);
            operands_agree(p, fr, out, mm, s, m, index);
            let n = element_does(p, fr, out, dest, ptr, index, elem_size, m);
            let v = element_address(
                operand(p, fr, out, m, ptr),
                operand(p, fr, out, m, index),
                elem_size,
            );
            placed_stands(p, fr, out, mm, s, dest, v, m, n);
            way_back(fr, dest, v, m, n);
            n
        },
        InstV::Call { dest, func, args } => call_follows(p, fr, out, mm, s, dest, func, args, m),
        _ => {
            nothing_does(out, m);
            m
        },
    }
}

proof fn way_back(fr: FrameV, dest: usize, v: i32, m: Machine, n: Machine)
    requires
        separate(fr),
        fr.locals.contains_key(dest),
        placed(fr, dest, v, m, n),
    ensures
        goes_back_to(fr, n) == goes_back_to(fr, m),
        n.regs[Reg::Sp] == m.regs[Reg::Sp],
{
    offsets_differ(m, fr.locals[dest] as int, fr.ra as int);
    way_back_stays(fr, m, n, at_offset(m, fr.locals[dest] as int), v);
}

// ── Blocks ───────────────────────────────────────────────────────────────────

/// Whether all steps of some instructions can be followed on the machine.
pub open spec fn are_smooth<W>(
    p: ProgV,
    fr: FrameV,
    out: Outside,
    m: Machine,
    mm: MachineV<W>,
    s: StateV<W>,
    instrs: Seq<InstV>,
) -> bool {
    forall|k: int|
        0 <= k < instrs.len() ==> is_smooth(
            p,
            fr,
            out,
            m,
            mm,
            meaning::run(mm, Set::empty(), s, instrs.take(k)),
            #[trigger] instrs[k],
        )
}

/// Whether the stack pointer is the same does not change what can be followed.
pub proof fn smooth_stays<W>(
    p: ProgV,
    fr: FrameV,
    out: Outside,
    m: Machine,
    n: Machine,
    mm: MachineV<W>,
    s: StateV<W>,
    i: InstV,
)
    requires
        n.regs[Reg::Sp] == m.regs[Reg::Sp],
        is_smooth(p, fr, out, m, mm, s, i),
    ensures
        is_smooth(p, fr, out, n, mm, s, i),
{
    match i {
        InstV::Load { src, .. } => reserved_stays(fr, m, n, meaning::value(mm, s, src)),
        InstV::Store { ptr, .. } => reserved_stays(fr, m, n, meaning::value(mm, s, ptr)),
        InstV::Call { func, args, .. } => {
            let vals = meaning::values(mm, s, args);
            let (world, v) = (mm.call)(s.world, func, vals);
            let f = ir_to_riscv::bare(p.func_names[func as int]);
            assert forall|c: Machine| enters(fr, n, mm, s, vals, c) implies comes_back(
                fr,
                n,
                mm,
                world,
                v,
                c,
                #[trigger] (out.call)(f, c),
            ) by {
                let r = (out.call)(f, c);
                assert forall|a: i32| !reserved(fr, m, a) implies #[trigger] (mm.load)(s.world, a)
                    == c.mem[a] by {
                    reserved_stays(fr, m, n, a);
                }
                assert(enters(fr, m, mm, s, vals, c));
                assert(comes_back(fr, m, mm, world, v, c, r));
                assert forall|a: i32| is_own(fr, n, a) implies #[trigger] r.mem[a] == c.mem[a] by {
                    reserved_stays(fr, m, n, a);
                }
                assert forall|a: i32| !reserved(fr, n, a) implies #[trigger] (mm.load)(world, a)
                    == r.mem[a] by {
                    reserved_stays(fr, m, n, a);
                }
            }
        },
        _ => {},
    }
}

/// Running the code of some instructions leads to a machine that stands for the state after them.
pub proof fn instructions_follow<W>(
    p: ProgV,
    fr: FrameV,
    out: Outside,
    mm: MachineV<W>,
    s: StateV<W>,
    blocks: Seq<BlockV>,
    base: int,
    instrs: Seq<InstV>,
    m: Machine,
) -> (n: Machine)
    requires
        separate(fr),
        has_words(mm),
        stands_for(p, fr, out, mm, s, m),
        are_smooth(p, fr, out, m, mm, s, instrs),
    ensures
        does(out, ir_to_riscv::insts_code(p, fr, blocks, base, instrs), m, n),
        stands_for(p, fr, out, mm, meaning::run(mm, Set::empty(), s, instrs), n),
        n.regs[Reg::Sp] == m.regs[Reg::Sp],
        goes_back_to(fr, n) == goes_back_to(fr, m),
    decreases instrs.len(),
{
    if instrs.len() == 0 {
        nothing_does(out, m);
        m
    } else {
        let front = instrs.drop_last();
        let k = instrs.len() - 1;
        assert forall|j: int| 0 <= j < front.len() implies is_smooth(
            p,
            fr,
            out,
            m,
            mm,
            meaning::run(mm, Set::empty(), s, front.take(j)),
            #[trigger] front[j],
        ) by {
            assert(front.take(j) =~= instrs.take(j));
            assert(front[j] == instrs[j]);
        }
        let m1 = instructions_follow(p, fr, out, mm, s, blocks, base, front, m);
        assert(front =~= instrs.take(k));
        let s1 = meaning::run(mm, Set::empty(), s, front);
        assert(is_smooth(p, fr, out, m, mm, s1, instrs[k]));
        smooth_stays(p, fr, out, m, m1, mm, s1, instrs[k]);
        let n = instruction_follows(p, fr, out, mm, s1, blocks, base, instrs[k], m1);
        does_both(
            out,
            ir_to_riscv::insts_code(p, fr, blocks, base, front),
            ir_to_riscv::inst_code(p, fr, blocks, base, instrs[k]),
            m,
            m1,
            n,
        );
        n
    }
}

/// The stack pointer and the way back are the same.
pub open spec fn stays_put(fr: FrameV, m: Machine, n: Machine) -> bool {
    n.regs[Reg::Sp] == m.regs[Reg::Sp] && goes_back_to(fr, n) == goes_back_to(fr, m)
}

/// The name of the block with a label.
pub open spec fn block_name(blocks: Seq<BlockV>, base: int, label: usize) -> Seq<char> {
    ir_to_riscv::label_text(blocks, base, label)
}

/// Whether the end of a block can be followed on the machine.
pub open spec fn ends_smoothly<W>(
    p: ProgV,
    fr: FrameV,
    blocks: Seq<BlockV>,
    s: StateV<W>,
    i: InstV,
) -> bool {
    match i {
        InstV::Br { cond, then_bb, else_bb } => is_known(p, fr, s, cond) && cfg::label_position(
            blocks,
            then_bb,
        ) is Some && cfg::label_position(blocks, else_bb) is Some,
        InstV::Jump { target } => cfg::label_position(blocks, target) is Some,
        InstV::Ret { value: Some(v) } => is_known(p, fr, s, v),
        InstV::Ret { value: None } => true,
        _ => false,
    }
}

/// Running the code of a block does what its instructions mean and leaves it as its end says: for
/// the label of the block that a branch goes to, or back to the caller with the value of a return.
pub proof fn block_follows<W>(
    p: ProgV,
    fr: FrameV,
    out: Outside,
    mm: MachineV<W>,
    s: StateV<W>,
    blocks: Seq<BlockV>,
    base: int,
    instrs: Seq<InstV>,
    m: Machine,
) -> (n: Machine)
    requires
        0 <= base,
        separate(fr),
        has_words(mm),
        stands_for(p, fr, out, mm, s, m),
        instrs.len() > 0,
        are_smooth(p, fr, out, m, mm, s, instrs.drop_last()),
        ends_smoothly(
            p,
            fr,
            blocks,
            meaning::run(mm, Set::empty(), s, instrs.drop_last()),
            instrs.last(),
        ),
    ensures
        ({
            let t = meaning::run(mm, Set::empty(), s, instrs.drop_last());
            let exit = run(out, ir_to_riscv::insts_code(p, fr, blocks, base, instrs), m);
            match instrs.last() {
                InstV::Br { cond, then_bb, else_bb } => exit == Exit::To(
                    block_name(
                        blocks,
                        base,
                        if meaning::value(mm, t, cond) != 0 {
                            then_bb
                        } else {
                            else_bb
                        },
                    ),
                    n,
                ) && stands_for(p, fr, out, mm, t, n) && stays_put(fr, m, n),
                InstV::Jump { target } => exit == Exit::To(block_name(blocks, base, target), n)
                    && stands_for(p, fr, out, mm, t, n) && stays_put(fr, m, n),
                InstV::Ret { value } => {
                    &&& exit == Exit::Returns(n)
                    &&& value matches Some(v) ==> n.regs[Reg::A(0)] == meaning::value(mm, t, v)
                    &&& n.regs[Reg::Sp] == at_offset(m, fr.size as int)
                    &&& n.regs[Reg::Ra] == goes_back_to(fr, m)
                    &&& forall|a: i32|
                        !reserved(fr, m, a) ==> #[trigger] (mm.load)(t.world, a) == n.mem[a]
                },
                _ => true,
            }
        }),
{
    let front = instrs.drop_last();
    let t = meaning::run(mm, Set::empty(), s, front);
    let m1 = instructions_follow(p, fr, out, mm, s, blocks, base, front, m);
    let x = ir_to_riscv::insts_code(p, fr, blocks, base, front);
    let y = ir_to_riscv::inst_code(p, fr, blocks, base, instrs.last());
    match instrs.last() {
        InstV::Br { cond, then_bb, else_bb } => {
            operands_agree(p, fr, out, mm, t, m1, cond);
            let yes = block_name(blocks, base, then_bb);
            let no = block_name(blocks, base, else_bb);
            names_are_words(blocks, base, then_bb);
            names_are_words(blocks, base, else_bb);
            let n = branch_goes(p, fr, out, cond, yes, no, m1);
            runs_on(out, x, y, m, m1);
            unchanged_stands(p, fr, out, mm, t, m1, n);
            n
        },
        InstV::Jump { target } => {
            names_are_words(blocks, base, target);
            jump_goes(out, block_name(blocks, base, target), m1);
            runs_on(out, x, y, m, m1);
            m1
        },
        InstV::Ret { value } => {
            if let Some(v) = value {
                operands_agree(p, fr, out, mm, t, m1, v);
            }
            let n = return_goes(p, fr, out, value, m1);
            runs_on(out, x, y, m, m1);
            assert forall|a: i32| !reserved(fr, m, a) implies #[trigger] (mm.load)(t.world, a)
                == n.mem[a] by {
                reserved_stays(fr, m, m1, a);
            }
            n
        },
        _ => m1,
    }
}

proof fn names_are_words(blocks: Seq<BlockV>, base: int, label: usize)
    requires
        0 <= base,
        cfg::label_position(blocks, label) is Some,
    ensures
        is_word(block_name(blocks, base, label)),
{
    riscv_reading::labels_are_words((base + cfg::label_position(blocks, label)->0) as nat);
}

} // verus!

//! Running the assembly of a whole function does what the function means: control goes from block
//! to block by their labels, and comes back to the caller as the function returns.

use crate::cfg;
use crate::frame::{self, FrameV};
use crate::ir::{self, BlockV, InstV, IrOperand, ProgV};
use crate::ir_to_riscv;
use crate::meaning::{self, MachineV, OutcomeV, StateV};
use crate::reading::{self, is_word, whole_lines};
use crate::riscv_calls;
use crate::riscv_code::{at_offset, has_place};
use crate::riscv_machine::{self, left, listing, run, Exit, Line, Machine, Outside, Reg};
use crate::riscv_meaning::{
    are_smooth, block_follows, ends_smoothly, goes_back_to, has_words, is_smooth, reserved,
    reserved_stays, separate, smooth_stays, stands_for,
};
use crate::riscv_reading::{self, names};
use crate::text;
use vstd::prelude::*;

verus! {

// ── Labels ───────────────────────────────────────────────────────────────────

/// Where a label stands in a listing.
pub open spec fn label_index(ls: Seq<Line>, name: Seq<char>) -> Option<int>
    decreases ls.len(),
{
    if ls.len() == 0 {
        None
    } else {
        match label_index(ls.drop_last(), name) {
            Some(i) => Some(i),
            None => if ls.last() == Line::Label(name) {
                Some(ls.len() - 1)
            } else {
                None
            },
        }
    }
}

/// What becomes of the machine.
pub enum Fate {
    /// It has come back to the caller of the function.
    Returned(Machine),
    /// It has come to a label that is nowhere, or to the end of the lines.
    Stuck,
    /// It has not come to an end.
    Running,
}

/// What becomes of a machine that control enters a listing with, before the line with an index,
/// within a number of jumps.
pub open spec fn fate(out: Outside, ls: Seq<Line>, k: int, m: Machine, fuel: nat) -> Fate
    decreases fuel,
{
    if fuel == 0 {
        Fate::Running
    } else {
        match left(out, ls, k, m) {
            Exit::To(label, n) => match label_index(ls, label) {
                Some(j) => fate(out, ls, j, n, (fuel - 1) as nat),
                None => Fate::Stuck,
            },
            Exit::Returns(n) => Fate::Returned(n),
            _ => Fate::Stuck,
        }
    }
}

/// Whether code holds no labels.
pub open spec fn is_unlabelled(code: Seq<char>) -> bool {
    whole_lines(code) && forall|k: int|
        0 <= k < listing(code).len() ==> !(#[trigger] listing(code)[k] is Label)
}

proof fn both_unlabelled(x: Seq<char>, y: Seq<char>)
    requires
        is_unlabelled(x),
        is_unlabelled(y),
    ensures
        is_unlabelled(x + y),
{
    riscv_machine::listing_of_two(x, y);
    if y.len() > 0 {
        assert((x + y).last() == y.last());
    } else {
        assert(x + y =~= x);
    }
    assert forall|k: int| 0 <= k < listing(x + y).len() implies !(#[trigger] listing(x
        + y)[k] is Label) by {
        if k < listing(x).len() {
            assert(listing(x + y)[k] == listing(x)[k]);
        } else {
            assert(listing(x + y)[k] == listing(y)[k - listing(x).len()]);
        }
    }
}

proof fn nothing_unlabelled()
    ensures
        is_unlabelled(Seq::empty()),
{
    assert(listing(Seq::empty()) =~= Seq::<Line>::empty());
}

/// Putting an operand in a register takes no labels.
proof fn operand_unlabelled(p: ProgV, fr: FrameV, op: IrOperand, d: Seq<char>, rd: Reg)
    requires
        has_place(p, fr, op),
        names(d, rd),
    ensures
        is_unlabelled(ir_to_riscv::op_in(p, fr, op, d).0),
        ir_to_riscv::op_in(p, fr, op, d).1 == d,
{
    match op {
        IrOperand::Int(v) => riscv_reading::li_is_read(d, rd, v as int),
        IrOperand::Local(l) => riscv_reading::lw_is_read(d, rd, frame::slot(fr, l)),
        IrOperand::Global(g) => {
            if fr.spills.contains_key(g) {
                riscv_reading::lw_is_read(d, rd, fr.spills[g]);
            } else if fr.stack.contains_key(g) {
                riscv_reading::lw_is_read(d, rd, fr.stack[g]);
            } else if fr.vars.contains_key(g) {
                riscv_reading::addr_is_read(d, rd, fr.vars[g]);
            } else {
                riscv_reading::la_is_read(
                    d,
                    rd,
                    ir_to_riscv::bare(p.global_names[g as int]),
                );
            }
        },
        IrOperand::Undef => riscv_reading::li_is_read(d, rd, 0),
    }
}

/// Whether the code of an instruction can be written: its operands have places, and what it goes to
/// is there.
pub open spec fn is_plain(p: ProgV, fr: FrameV, blocks: Seq<BlockV>, i: InstV) -> bool {
    &&& forall|k: int|
        0 <= k < ir::inst_operands(i).len() ==> has_place(p, fr, #[trigger] ir::inst_operands(i)[k])
    &&& match i {
        InstV::Br { then_bb, else_bb, .. } => cfg::label_position(blocks, then_bb) is Some
            && cfg::label_position(blocks, else_bb) is Some,
        InstV::Jump { target } => cfg::label_position(blocks, target) is Some,
        InstV::Phi { .. } => false,
        InstV::Asm { .. } => false,
        InstV::Call { func, .. } => is_word(ir_to_riscv::bare(p.func_names[func as int])),
        _ => true,
    }
}

proof fn comparison_unlabelled(p: ProgV, fr: FrameV, blocks: Seq<BlockV>, base: int, i: InstV)
    requires
        is_plain(p, fr, blocks, i),
        i is Icmp,
    ensures
        is_unlabelled(ir_to_riscv::inst_code(p, fr, blocks, base, i)),
{
    riscv_reading::registers_are_read();
    let dest = i->Icmp_dest;
    let op = i->Icmp_op;
    let lhs = i->Icmp_lhs;
    let rhs = i->Icmp_rhs;
    assert(ir::inst_operands(i)[0] == lhs && ir::inst_operands(i)[1] == rhs);
    operand_unlabelled(p, fr, lhs, "t0"@, Reg::T(0));
    operand_unlabelled(p, fr, rhs, "t1"@, Reg::T(1));
    riscv_reading::compare_is_read(op, "t0"@, Reg::T(0), "t1"@, Reg::T(1));
    riscv_reading::sw_is_read("a0"@, Reg::A(0), frame::slot(fr, dest));
    let a = ir_to_riscv::op_in(p, fr, lhs, "t0"@).0;
    let b = ir_to_riscv::op_in(p, fr, rhs, "t1"@).0;
    let c = ir_to_riscv::compare(op, "t0"@, "t1"@);
    both_unlabelled(a, b);
    both_unlabelled(a + b, c);
    both_unlabelled(a + b + c, ir_to_riscv::sw("a0"@, frame::slot(fr, dest)));
}

proof fn element_unlabelled(
    p: ProgV,
    fr: FrameV,
    dest: usize,
    ptr: IrOperand,
    index: IrOperand,
    size: i32,
)
    requires
        has_place(p, fr, ptr),
        has_place(p, fr, index),
    ensures
        is_unlabelled(ir_to_riscv::elem_code(p, fr, dest, ptr, index, size)),
{
    riscv_reading::registers_are_read();
    operand_unlabelled(p, fr, ptr, "t0"@, Reg::T(0));
    operand_unlabelled(p, fr, index, "t1"@, Reg::T(1));
    riscv_reading::scale_is_read(size, "t1"@, Reg::T(1), "t1"@, Reg::T(1));
    riscv_reading::sum_is_read("t0"@, Reg::T(0));
    riscv_reading::sw_is_read("t0"@, Reg::T(0), frame::slot(fr, dest));
    let a = ir_to_riscv::op_in(p, fr, ptr, "t0"@).0;
    let b = ir_to_riscv::op_in(p, fr, index, "t1"@).0;
    let c = ir_to_riscv::offset_mul(size, "t1"@, "t1"@);
    let d = "  add t0, "@ + "t0"@ + ", t1\n"@;
    both_unlabelled(a, b);
    both_unlabelled(a + b, c);
    both_unlabelled(a + b + c, d);
    both_unlabelled(a + b + c + d, ir_to_riscv::sw("t0"@, frame::slot(fr, dest)));
}

proof fn leave_unlabelled(fr: FrameV)
    ensures
        is_unlabelled(ir_to_riscv::leave(fr)),
{
    riscv_reading::registers_are_read();
    nothing_unlabelled();
    riscv_reading::lw_is_read("ra"@, Reg::Ra, fr.ra);
    riscv_reading::addi_sp_is_read(fr.size);
    riscv_reading::call_is_read("ra"@);
    both_unlabelled(ir_to_riscv::ra_back(fr), ir_to_riscv::addi_sp(fr.size));
    both_unlabelled(
        ir_to_riscv::ra_back(fr) + ir_to_riscv::addi_sp(fr.size),
        "  ret\n"@,
    );
}

proof fn kept_unlabelled(p: ProgV, fr: FrameV, args: Seq<IrOperand>, n: int)
    requires
        0 <= n <= args.len(),
        forall|k: int| 0 <= k < args.len() ==> has_place(p, fr, #[trigger] args[k]),
    ensures
        is_unlabelled(ir_to_riscv::args_kept(p, fr, args, n)),
    decreases n,
{
    nothing_unlabelled();
    if n > 0 {
        riscv_reading::registers_are_read();
        let k = n - 1;
        kept_unlabelled(p, fr, args, k);
        let op = args[k];
        operand_unlabelled(p, fr, op, "a0"@, Reg::A(0));
        riscv_reading::to_a0_is_read("a0"@, Reg::A(0));
        let offset = (fr.args + k * 4) as i32;
        riscv_reading::sw_is_read("a0"@, Reg::A(0), offset);
        let a = ir_to_riscv::op_in(p, fr, op, "a0"@).0;
        let b = ir_to_riscv::to_a0("a0"@);
        let c = ir_to_riscv::sw("a0"@, offset);
        both_unlabelled(a, b);
        both_unlabelled(a + b, c);
        both_unlabelled(ir_to_riscv::args_kept(p, fr, args, k), a + b + c);
    }
}

proof fn pushed_unlabelled(fr: FrameV, n: int, k: int)
    ensures
        is_unlabelled(ir_to_riscv::args_pushed(fr, n, k)),
    decreases k,
{
    nothing_unlabelled();
    if k > 0 {
        riscv_reading::registers_are_read();
        riscv_calls::push_lines_are_read();
        pushed_unlabelled(fr, n, k - 1);
        let offset = (fr.args + n * 4) as i32;
        riscv_reading::lw_is_read("t0"@, Reg::T(0), offset);
        let a = "  addi sp, sp, -4\n"@;
        let b = ir_to_riscv::lw("t0"@, offset);
        both_unlabelled(a, b);
        both_unlabelled(a + b, "  sw t0, 0(sp)\n"@);
        both_unlabelled(ir_to_riscv::args_pushed(fr, n, k - 1), a + b + "  sw t0, 0(sp)\n"@);
    }
}

proof fn popped_unlabelled(k: int)
    requires
        k <= 8,
    ensures
        is_unlabelled(ir_to_riscv::args_popped(k)),
    decreases k,
{
    nothing_unlabelled();
    if k > 0 {
        popped_unlabelled(k - 1);
        riscv_calls::pop_lines_are_read((k - 1) as nat);
        both_unlabelled(
            ir_to_riscv::args_popped(k - 1),
            "  lw "@ + ir_to_riscv::arg_reg((k - 1) as nat) + ", 0(sp)\n  addi sp, sp, 4\n"@,
        );
    }
}

proof fn dropped_unlabelled(n: int)
    ensures
        is_unlabelled(ir_to_riscv::args_dropped(n)),
{
    nothing_unlabelled();
    if n > frame::REG_ARGS {
        let by = (n - frame::REG_ARGS) * 4;
        riscv_reading::registers_are_read();
        riscv_reading::mnemonics_are_words();
        reveal_strlit("  ");
        reveal_strlit(" ");
        reveal_strlit(", ");
        reveal_strlit("\n");
        reveal_strlit("addi");
        reveal_strlit("sp");
        reveal_strlit("  addi sp, sp, ");
        reading::numerals_denote(by);
        riscv_reading::compute_imm_is_read(
            "addi"@,
            riscv_machine::Op::Add,
            "sp"@,
            Reg::Sp,
            "sp"@,
            Reg::Sp,
            text::dec_int(by),
            by,
        );
        assert(ir_to_riscv::args_dropped(n) =~= riscv_reading::four(
            "addi"@,
            "sp"@,
            "sp"@,
            text::dec_int(by),
        ));
    }
}

proof fn call_unlabelled(
    p: ProgV,
    fr: FrameV,
    dest: Option<usize>,
    func: usize,
    args: Seq<IrOperand>,
)
    requires
        forall|k: int| 0 <= k < args.len() ==> has_place(p, fr, #[trigger] args[k]),
        is_word(ir_to_riscv::bare(p.func_names[func as int])),
    ensures
        is_unlabelled(ir_to_riscv::call_code(p, fr, dest, func, args)),
{
    nothing_unlabelled();
    riscv_reading::registers_are_read();
    let n = args.len() as int;
    let f = ir_to_riscv::bare(p.func_names[func as int]);
    kept_unlabelled(p, fr, args, n);
    pushed_unlabelled(fr, n, n);
    popped_unlabelled(ir_to_riscv::in_regs(n));
    riscv_reading::call_is_read(f);
    dropped_unlabelled(n);
    if let Some(d) = dest {
        riscv_reading::sw_is_read("a0"@, Reg::A(0), frame::slot(fr, d));
    }
    let a = ir_to_riscv::args_kept(p, fr, args, n);
    let b = ir_to_riscv::args_pushed(fr, n, n);
    let c = ir_to_riscv::args_popped(ir_to_riscv::in_regs(n));
    let d = "  call "@ + f + "\n"@;
    let e = ir_to_riscv::args_dropped(n);
    both_unlabelled(a, b);
    both_unlabelled(a + b, c);
    both_unlabelled(a + b + c, d);
    both_unlabelled(a + b + c + d, e);
    both_unlabelled(a + b + c + d + e, ir_to_riscv::result_kept(fr, dest));
}

/// The code of an instruction holds no labels.
proof fn instruction_unlabelled(p: ProgV, fr: FrameV, blocks: Seq<BlockV>, base: int, i: InstV)
    requires
        0 <= base,
        is_plain(p, fr, blocks, i),
    ensures
        is_unlabelled(ir_to_riscv::inst_code(p, fr, blocks, base, i)),
{
    riscv_reading::registers_are_read();
    riscv_reading::mnemonics_are_words();
    nothing_unlabelled();
    match i {
        InstV::Load { dest, src } => {
            assert(ir::inst_operands(i)[0] == src);
            operand_unlabelled(p, fr, src, "t2"@, Reg::T(2));
            riscv_reading::indirect_is_read("t2"@, Reg::T(2), "t2"@, Reg::T(2));
            riscv_reading::sw_is_read("t0"@, Reg::T(0), frame::slot(fr, dest));
            let a = ir_to_riscv::op_in(p, fr, src, "t2"@).0;
            let b = "  lw t0, 0("@ + "t2"@ + ")\n"@;
            both_unlabelled(a, b);
            both_unlabelled(a + b, ir_to_riscv::sw("t0"@, frame::slot(fr, dest)));
        },
        InstV::Store { value, ptr } => {
            assert(ir::inst_operands(i)[0] == value && ir::inst_operands(i)[1] == ptr);
            operand_unlabelled(p, fr, value, "t1"@, Reg::T(1));
            operand_unlabelled(p, fr, ptr, "t2"@, Reg::T(2));
            riscv_reading::indirect_is_read("t1"@, Reg::T(1), "t2"@, Reg::T(2));
            let a = ir_to_riscv::op_in(p, fr, value, "t1"@).0;
            let b = ir_to_riscv::op_in(p, fr, ptr, "t2"@).0;
            both_unlabelled(a, b);
            both_unlabelled(a + b, "  sw "@ + "t1"@ + ", 0("@ + "t2"@ + ")\n"@);
        },
        InstV::Arith { dest, op, lhs, rhs } => {
            assert(ir::inst_operands(i)[0] == lhs && ir::inst_operands(i)[1] == rhs);
            operand_unlabelled(p, fr, lhs, "t0"@, Reg::T(0));
            operand_unlabelled(p, fr, rhs, "t1"@, Reg::T(1));
            let o = riscv_reading::arith_op(op);
            let mn = ir_to_riscv::arith_name(op);
            riscv_reading::to_a0_from_is_read(mn, o, "t0"@, Reg::T(0), "t1"@, Reg::T(1));
            riscv_reading::sw_is_read("a0"@, Reg::A(0), frame::slot(fr, dest));
            let a = ir_to_riscv::op_in(p, fr, lhs, "t0"@).0;
            let b = ir_to_riscv::op_in(p, fr, rhs, "t1"@).0;
            let c = ir_to_riscv::to_a0_from(mn, "t0"@, "t1"@);
            both_unlabelled(a, b);
            both_unlabelled(a + b, c);
            both_unlabelled(a + b + c, ir_to_riscv::sw("a0"@, frame::slot(fr, dest)));
        },
        InstV::GetPtr { dest, ptr, index, elem_size } => {
            assert(ir::inst_operands(i)[0] == ptr && ir::inst_operands(i)[1] == index);
            element_unlabelled(p, fr, dest, ptr, index, elem_size);
        },
        InstV::GetElemPtr { dest, ptr, index, elem_size } => {
            assert(ir::inst_operands(i)[0] == ptr && ir::inst_operands(i)[1] == index);
            element_unlabelled(p, fr, dest, ptr, index, elem_size);
        },
        InstV::Br { cond, then_bb, else_bb } => {
            assert(ir::inst_operands(i)[0] == cond);
            operand_unlabelled(p, fr, cond, "t0"@, Reg::T(0));
            let yes = ir_to_riscv::label_text(blocks, base, then_bb);
            let no = ir_to_riscv::label_text(blocks, base, else_bb);
            riscv_reading::labels_are_words(
                (base + cfg::label_position(blocks, then_bb)->0) as nat,
            );
            riscv_reading::labels_are_words(
                (base + cfg::label_position(blocks, else_bb)->0) as nat,
            );
            riscv_reading::branch_is_read("t0"@, Reg::T(0), yes, no);
            let a = ir_to_riscv::op_in(p, fr, cond, "t0"@).0;
            let b = "  bnez "@ + "t0"@ + ", "@ + yes + "\n"@;
            let c = "  j "@ + no + "\n"@;
            assert(whole_lines(b + c)) by {
                reveal_strlit("\n");
                assert((b + c).last() == c.last());
            }
            both_unlabelled(a, b + c);
            assert(a + (b + c) =~= a + b + c);
        },
        InstV::Jump { target } => {
            riscv_reading::labels_are_words(
                (base + cfg::label_position(blocks, target)->0) as nat,
            );
            let to = ir_to_riscv::label_text(blocks, base, target);
            riscv_reading::branch_is_read("t0"@, Reg::T(0), to, to);
        },
        InstV::Ret { value } => {
            leave_unlabelled(fr);
            if let Some(v) = value {
                assert(ir::inst_operands(i)[0] == v);
                operand_unlabelled(p, fr, v, "a0"@, Reg::A(0));
                riscv_reading::to_a0_is_read("a0"@, Reg::A(0));
                let a = ir_to_riscv::op_in(p, fr, v, "a0"@).0;
                both_unlabelled(a, ir_to_riscv::to_a0("a0"@));
                both_unlabelled(a + ir_to_riscv::to_a0("a0"@), ir_to_riscv::leave(fr));
            }
        },
        InstV::Alloc { .. } => {},
        InstV::Call { dest, func, args } => {
            assert(ir::inst_operands(i) == args);
            call_unlabelled(p, fr, dest, func, args);
        },
        _ => comparison_unlabelled(p, fr, blocks, base, i),
    }
}

proof fn instructions_unlabelled(
    p: ProgV,
    fr: FrameV,
    blocks: Seq<BlockV>,
    base: int,
    instrs: Seq<InstV>,
)
    requires
        0 <= base,
        forall|k: int| 0 <= k < instrs.len() ==> is_plain(p, fr, blocks, #[trigger] instrs[k]),
    ensures
        is_unlabelled(ir_to_riscv::insts_code(p, fr, blocks, base, instrs)),
    decreases instrs.len(),
{
    nothing_unlabelled();
    if instrs.len() > 0 {
        let front = instrs.drop_last();
        assert forall|k: int| 0 <= k < front.len() implies is_plain(
            p,
            fr,
            blocks,
            #[trigger] front[k],
        ) by {
            assert(front[k] == instrs[k]);
        }
        instructions_unlabelled(p, fr, blocks, base, front);
        assert(is_plain(p, fr, blocks, instrs[instrs.len() - 1]));
        instruction_unlabelled(p, fr, blocks, base, instrs.last());
        both_unlabelled(
            ir_to_riscv::insts_code(p, fr, blocks, base, front),
            ir_to_riscv::inst_code(p, fr, blocks, base, instrs.last()),
        );
    }
}

// ── Blocks ───────────────────────────────────────────────────────────────────

/// Whether the blocks of a function with a name can be written, each is found by its label, and none
/// ends by returning what the function itself gives.
pub open spec fn are_plain(p: ProgV, fr: FrameV, blocks: Seq<BlockV>, name: Seq<char>) -> bool {
    blocks.len() <= usize::MAX && forall|b: int|
        0 <= b < blocks.len() ==> cfg::label_position(blocks, (#[trigger] blocks[b]).label) == Some(
            b as usize,
        ) && block_is_plain(p, fr, blocks, b) && !ir_to_riscv::ends_in_call(
            p,
            name,
            blocks[b].instrs,
        )
}

/// Whether the instructions of a block can be written.
pub open spec fn block_is_plain(p: ProgV, fr: FrameV, blocks: Seq<BlockV>, b: int) -> bool {
    forall|k: int|
        0 <= k < blocks[b].instrs.len() ==> is_plain(
            p,
            fr,
            blocks,
            #[trigger] blocks[b].instrs[k],
        )
}

/// The lines of the first `n` blocks.
pub open spec fn block_lines(
    p: ProgV,
    fr: FrameV,
    blocks: Seq<BlockV>,
    base: int,
    name: Seq<char>,
    n: int,
) -> Seq<Line> {
    listing(ir_to_riscv::blocks_code(p, fr, blocks, base, name, n))
}

proof fn blocks_follow_one_another(
    p: ProgV,
    fr: FrameV,
    blocks: Seq<BlockV>,
    base: int,
    name: Seq<char>,
    n: int,
)
    requires
        0 <= base,
        are_plain(p, fr, blocks, name),
        0 < n <= blocks.len(),
    ensures
        whole_lines(ir_to_riscv::blocks_code(p, fr, blocks, base, name, n)),
        block_lines(p, fr, blocks, base, name, n) == block_lines(
            p,
            fr,
            blocks,
            base,
            name,
            n - 1,
        ) + (seq![Line::Label(ir_to_riscv::label_at(base, n - 1))] + listing(
            ir_to_riscv::insts_code(p, fr, blocks, base, blocks[n - 1].instrs),
        )),
        is_unlabelled(ir_to_riscv::insts_code(p, fr, blocks, base, blocks[n - 1].instrs)),
    decreases n,
{
    let b = n - 1;
    one_more_block(p, fr, blocks, base, name, b);
    let code = ir_to_riscv::insts_code(p, fr, blocks, base, blocks[b].instrs);
    let before = ir_to_riscv::blocks_code(p, fr, blocks, base, name, b);
    if n > 1 {
        blocks_follow_one_another(p, fr, blocks, base, name, n - 1);
    }
    riscv_reading::labels_are_words((base + b) as nat);
    labelled_after(before, ir_to_riscv::label_at(base, b), code);
}

/// Code with a label before it, after other code.
proof fn labelled_after(before: Seq<char>, label: Seq<char>, code: Seq<char>)
    requires
        whole_lines(before),
        is_word(label),
        whole_lines(code),
    ensures
        whole_lines(before + (label + ":\n"@ + code)),
        listing(before + (label + ":\n"@ + code)) == listing(before) + (seq![Line::Label(label)]
            + listing(code)),
{
    riscv_reading::label_is_read(label);
    riscv_machine::listing_of_two(label + ":\n"@, code);
    riscv_machine::listing_of_two(before, label + ":\n"@ + code);
    let all = before + (label + ":\n"@ + code);
    reveal_strlit(":\n");
    if code.len() > 0 {
        assert(all.last() == code.last());
    } else {
        assert(label + ":\n"@ + code =~= label + ":\n"@);
        assert(all.last() == (label + ":\n"@).last());
    }
}

proof fn one_more_block(
    p: ProgV,
    fr: FrameV,
    blocks: Seq<BlockV>,
    base: int,
    name: Seq<char>,
    b: int,
)
    requires
        0 <= base,
        are_plain(p, fr, blocks, name),
        0 <= b < blocks.len(),
    ensures
        ir_to_riscv::blocks_code(p, fr, blocks, base, name, b + 1) == ir_to_riscv::blocks_code(
            p,
            fr,
            blocks,
            base,
            name,
            b,
        ) + (ir_to_riscv::label_at(base, b) + ":\n"@ + ir_to_riscv::insts_code(
            p,
            fr,
            blocks,
            base,
            blocks[b].instrs,
        )),
        is_unlabelled(ir_to_riscv::insts_code(p, fr, blocks, base, blocks[b].instrs)),
{
    assert(cfg::label_position(blocks, blocks[b].label) == Some(b as usize) && block_is_plain(
        p,
        fr,
        blocks,
        b,
    ));
    let instrs = blocks[b].instrs;
    assert forall|k: int| 0 <= k < instrs.len() implies is_plain(
        p,
        fr,
        blocks,
        #[trigger] instrs[k],
    ) by {
        assert(is_plain(p, fr, blocks, blocks[b].instrs[k]));
    }
    instructions_unlabelled(p, fr, blocks, base, instrs);
}

proof fn index_in_two(x: Seq<Line>, y: Seq<Line>, name: Seq<char>)
    ensures
        label_index(x + y, name) == match label_index(x, name) {
            Some(i) => Some(i),
            None => match label_index(y, name) {
                Some(j) => Some(x.len() + j),
                None => None,
            },
        },
    decreases y.len(),
{
    if y.len() == 0 {
        assert(x + y =~= x);
    } else {
        index_in_two(x, y.drop_last(), name);
        assert((x + y).drop_last() =~= x + y.drop_last());
        assert((x + y).last() == y.last());
    }
}

proof fn no_index(ls: Seq<Line>, name: Seq<char>)
    requires
        forall|k: int| 0 <= k < ls.len() ==> #[trigger] ls[k] != Line::Label(name),
    ensures
        label_index(ls, name) is None,
    decreases ls.len(),
{
    if ls.len() > 0 {
        let front = ls.drop_last();
        assert forall|k: int| 0 <= k < front.len() implies #[trigger] front[k] != Line::Label(
            name,
        ) by {
            assert(front[k] == ls[k]);
        }
        no_index(front, name);
        assert(ls[ls.len() - 1] != Line::Label(name));
    }
}

/// No two blocks have the same label.
proof fn labels_differ(base: int, a: int, b: int)
    requires
        0 <= base,
        0 <= a,
        0 <= b,
        ir_to_riscv::label_at(base, a) == ir_to_riscv::label_at(base, b),
    ensures
        a == b,
{
    reveal_strlit(".L");
    let x = text::dec_nat((base + a) as nat);
    let y = text::dec_nat((base + b) as nat);
    assert((".L"@ + x).skip(2) =~= x);
    assert((".L"@ + y).skip(2) =~= y);
    text::dec_nat_reads_back((base + a) as nat);
    text::dec_nat_reads_back((base + b) as nat);
}

/// The label of a block stands where its lines start.
proof fn blocks_are_found(
    p: ProgV,
    fr: FrameV,
    blocks: Seq<BlockV>,
    base: int,
    name: Seq<char>,
    n: int,
    b: int,
)
    requires
        0 <= base,
        are_plain(p, fr, blocks, name),
        0 <= n <= blocks.len(),
        0 <= b,
    ensures
        label_index(
            block_lines(p, fr, blocks, base, name, n),
            ir_to_riscv::label_at(base, b),
        ) == if b < n {
            Some(block_lines(p, fr, blocks, base, name, b).len() as int)
        } else {
            None
        },
    decreases n,
{
    let want = ir_to_riscv::label_at(base, b);
    if n == 0 {
        assert(listing(Seq::empty()) =~= Seq::<Line>::empty());
    } else {
        blocks_follow_one_another(p, fr, blocks, base, name, n);
        blocks_are_found(p, fr, blocks, base, name, n - 1, b);
        let before = block_lines(p, fr, blocks, base, name, n - 1);
        let here = Line::Label(ir_to_riscv::label_at(base, n - 1));
        let code = listing(
            ir_to_riscv::insts_code(p, fr, blocks, base, blocks[n - 1].instrs),
        );
        index_in_two(before, seq![here] + code, want);
        index_in_two(seq![here], code, want);
        no_index(code, want);
        assert(seq![here].drop_last() =~= Seq::empty());
        assert(label_index(seq![here].drop_last(), want) is None);
        if b != n - 1 {
            if ir_to_riscv::label_at(base, n - 1) == want {
                labels_differ(base, n - 1, b);
            }
        }
    }
}

/// Control that leaves some lines leaves them where others follow, too.
proof fn left_early(out: Outside, x: Seq<Line>, y: Seq<Line>, k: int, m: Machine)
    requires
        0 <= k <= x.len(),
        !(left(out, x, k, m) is End),
    ensures
        left(out, x + y, k, m) == left(out, x, k, m),
    decreases x.len() - k,
{
    if k < x.len() {
        assert((x + y)[k] == x[k]);
        match x[k] {
            Line::Bnez { .. } => {
                if !(left(out, x, k + 1, m) is End) {
                    left_early(out, x, y, k + 1, m);
                }
            },
            Line::Beqz { .. } => {
                if !(left(out, x, k + 1, m) is End) {
                    left_early(out, x, y, k + 1, m);
                }
            },
            Line::J { .. } => {},
            Line::Ret => {},
            Line::Other => {},
            l => {
                left_early(out, x, y, k + 1, riscv_machine::executed(out, l, m));
            },
        }
    }
}

/// The lines of a block are those of the function from where it starts.
proof fn lines_split(
    p: ProgV,
    fr: FrameV,
    blocks: Seq<BlockV>,
    base: int,
    name: Seq<char>,
    n: int,
    b: int,
) -> (rest: Seq<Line>)
    requires
        0 <= base,
        are_plain(p, fr, blocks, name),
        0 <= b < n <= blocks.len(),
    ensures
        block_lines(p, fr, blocks, base, name, n) == block_lines(p, fr, blocks, base, name, b) + (
        seq![Line::Label(ir_to_riscv::label_at(base, b))] + (listing(
            ir_to_riscv::insts_code(p, fr, blocks, base, blocks[b].instrs),
        ) + rest)),
    decreases n,
{
    blocks_follow_one_another(p, fr, blocks, base, name, n);
    let label = Line::Label(ir_to_riscv::label_at(base, b));
    let code = listing(ir_to_riscv::insts_code(p, fr, blocks, base, blocks[b].instrs));
    if b == n - 1 {
        assert(code + Seq::<Line>::empty() =~= code);
        Seq::empty()
    } else {
        let rest = lines_split(p, fr, blocks, base, name, n - 1, b);
        let last = seq![Line::Label(ir_to_riscv::label_at(base, n - 1))] + listing(
            ir_to_riscv::insts_code(p, fr, blocks, base, blocks[n - 1].instrs),
        );
        let x = block_lines(p, fr, blocks, base, name, b);
        assert(x + (seq![label] + (code + rest)) + last =~= x + (seq![label] + (code + (rest
            + last))));
        rest + last
    }
}

/// Control that enters a block at its label leaves it as its code does.
proof fn block_is_left(
    p: ProgV,
    fr: FrameV,
    out: Outside,
    blocks: Seq<BlockV>,
    base: int,
    name: Seq<char>,
    b: int,
    m: Machine,
)
    requires
        0 <= base,
        are_plain(p, fr, blocks, name),
        0 <= b < blocks.len(),
        !(run(
            out,
            ir_to_riscv::insts_code(p, fr, blocks, base, blocks[b].instrs),
            m,
        ) is End),
    ensures
        left(
            out,
            block_lines(p, fr, blocks, base, name, blocks.len() as int),
            block_lines(p, fr, blocks, base, name, b).len() as int,
            m,
        ) == run(out, ir_to_riscv::insts_code(p, fr, blocks, base, blocks[b].instrs), m),
{
    let n = blocks.len() as int;
    let rest = lines_split(p, fr, blocks, base, name, n, b);
    let x = block_lines(p, fr, blocks, base, name, b);
    let label = Line::Label(ir_to_riscv::label_at(base, b));
    let code = listing(ir_to_riscv::insts_code(p, fr, blocks, base, blocks[b].instrs));
    let all = x + (seq![label] + (code + rest));
    let k = x.len() as int;
    assert(all[k] == label);
    assert(left(out, all, k, m) == left(out, all, k + 1, m));
    let y = x + seq![label];
    assert(all =~= y + (code + rest));
    riscv_machine::left_shifts(out, y, code + rest, 0, m);
    left_early(out, code, rest, 0, m);
}

// ── Functions ────────────────────────────────────────────────────────────────

/// Whether a function that is about to enter a block can be followed on the machine for a number of
/// blocks.
pub open spec fn goes_smoothly<W>(
    p: ProgV,
    fr: FrameV,
    out: Outside,
    m: Machine,
    mm: MachineV<W>,
    blocks: Seq<BlockV>,
    b: int,
    s: StateV<W>,
    fuel: nat,
) -> bool
    decreases fuel,
{
    fuel > 0 ==> {
        let instrs = blocks[b].instrs;
        let t = meaning::run(mm, Set::empty(), s, instrs.drop_last());
        &&& 0 <= b < blocks.len() && instrs.len() > 0
        &&& are_smooth(p, fr, out, m, mm, s, instrs.drop_last())
        &&& ends_smoothly(p, fr, blocks, t, instrs.last())
        &&& match instrs.last() {
            InstV::Br { cond, then_bb, else_bb } => goes_smoothly(
                p,
                fr,
                out,
                m,
                mm,
                blocks,
                cfg::label_position(
                    blocks,
                    if meaning::value(mm, t, cond) != 0 {
                        then_bb
                    } else {
                        else_bb
                    },
                )->0 as int,
                t,
                (fuel - 1) as nat,
            ),
            InstV::Jump { target } => goes_smoothly(
                p,
                fr,
                out,
                m,
                mm,
                blocks,
                cfg::label_position(blocks, target)->0 as int,
                t,
                (fuel - 1) as nat,
            ),
            _ => true,
        }
    }
}

proof fn no_phi_enters<W>(mm: MachineV<W>, s: StateV<W>, instrs: Seq<InstV>, from: usize)
    requires
        forall|k: int| 0 <= k < instrs.len() ==> !(#[trigger] instrs[k] is Phi),
    ensures
        meaning::entered(mm, s, instrs, from) == s,
    decreases instrs.len(),
{
    if instrs.len() > 0 {
        let front = instrs.drop_last();
        assert forall|k: int| 0 <= k < front.len() implies !(#[trigger] front[k] is Phi) by {
            assert(front[k] == instrs[k]);
        }
        no_phi_enters(mm, s, front, from);
        assert(!(instrs[instrs.len() - 1] is Phi));
    }
}

proof fn smooth_elsewhere<W>(
    p: ProgV,
    fr: FrameV,
    out: Outside,
    m: Machine,
    n: Machine,
    mm: MachineV<W>,
    s: StateV<W>,
    instrs: Seq<InstV>,
)
    requires
        n.regs[Reg::Sp] == m.regs[Reg::Sp],
        are_smooth(p, fr, out, m, mm, s, instrs),
    ensures
        are_smooth(p, fr, out, n, mm, s, instrs),
{
    assert forall|k: int| 0 <= k < instrs.len() implies is_smooth(
        p,
        fr,
        out,
        n,
        mm,
        meaning::run(mm, Set::empty(), s, instrs.take(k)),
        #[trigger] instrs[k],
    ) by {
        smooth_stays(
            p,
            fr,
            out,
            m,
            n,
            mm,
            meaning::run(mm, Set::empty(), s, instrs.take(k)),
            instrs[k],
        );
    }
}

/// Running the assembly of a function from the label of a block on does what the function means:
/// where the function returns, the machine comes back to the caller with the value that is returned
/// in `a0`, the frame taken away, and memory as the function leaves it; where the function goes on,
/// so does the machine.
pub proof fn function_follows<W>(
    p: ProgV,
    fr: FrameV,
    out: Outside,
    mm: MachineV<W>,
    blocks: Seq<BlockV>,
    base: int,
    name: Seq<char>,
    b: int,
    from: usize,
    s: StateV<W>,
    fuel: nat,
    start: Machine,
    m: Machine,
)
    requires
        0 <= base,
        separate(fr),
        has_words(mm),
        are_plain(p, fr, blocks, name),
        stands_for(p, fr, out, mm, s, m),
        m.regs[Reg::Sp] == start.regs[Reg::Sp],
        goes_back_to(fr, m) == goes_back_to(fr, start),
        goes_smoothly(p, fr, out, start, mm, blocks, b, s, fuel),
    ensures
        ({
            let ls = block_lines(p, fr, blocks, base, name, blocks.len() as int);
            let k = block_lines(p, fr, blocks, base, name, b).len() as int;
            match meaning::outcome(mm, Set::empty(), blocks, b, from, s, fuel) {
                OutcomeV::Returned(world, v) => {
                    &&& fate(out, ls, k, m, fuel) matches Fate::Returned(n)
                    &&& v matches Some(x) ==> (fate(
                        out,
                        ls,
                        k,
                        m,
                        fuel,
                    )->Returned_0).regs[Reg::A(0)] == x
                    &&& (fate(out, ls, k, m, fuel)->Returned_0).regs[Reg::Sp] == at_offset(
                        start,
                        fr.size as int,
                    )
                    &&& (fate(out, ls, k, m, fuel)->Returned_0).regs[Reg::Ra] == goes_back_to(
                        fr,
                        start,
                    )
                    &&& forall|a: i32|
                        !reserved(fr, start, a) ==> #[trigger] (mm.load)(world, a) == (fate(
                            out,
                            ls,
                            k,
                            m,
                            fuel,
                        )->Returned_0).mem[a]
                },
                OutcomeV::Running => fate(out, ls, k, m, fuel) == Fate::Running,
                OutcomeV::Stuck => false,
            }
        }),
    decreases fuel, 1int,
{
    if fuel > 0 {
        let instrs = blocks[b].instrs;
        let front = instrs.drop_last();
        let ls = block_lines(p, fr, blocks, base, name, blocks.len() as int);
        assert(block_is_plain(p, fr, blocks, b)) by {
            assert(cfg::label_position(blocks, blocks[b].label) == Some(b as usize));
        }
        assert forall|k: int| 0 <= k < instrs.len() implies !(#[trigger] instrs[k] is Phi) by {
            assert(is_plain(p, fr, blocks, blocks[b].instrs[k]));
        }
        no_phi_enters(mm, s, instrs, from);
        let t = meaning::run(mm, Set::empty(), s, front);
        assert(meaning::run(mm, Set::empty(), s, instrs) == t);
        smooth_elsewhere(p, fr, out, start, m, mm, s, front);
        let n = block_follows(p, fr, out, mm, s, blocks, base, instrs, m);
        block_is_left(p, fr, out, blocks, base, name, b, m);
        match instrs.last() {
            InstV::Br { cond, then_bb, else_bb } => {
                let to = if meaning::value(mm, t, cond) != 0 {
                    then_bb
                } else {
                    else_bb
                };
                let c = cfg::label_position(blocks, to)->0 as int;
                positions_are_blocks(blocks, to);
                goes_on(p, fr, out, start, mm, blocks, base, name, c, b as usize, t, fuel, n);
            },
            InstV::Jump { target } => {
                let c = cfg::label_position(blocks, target)->0 as int;
                positions_are_blocks(blocks, target);
                goes_on(p, fr, out, start, mm, blocks, base, name, c, b as usize, t, fuel, n);
            },
            InstV::Ret { value } => {
                assert forall|a: i32| !reserved(fr, start, a) implies #[trigger] (mm.load)(
                    t.world,
                    a,
                ) == n.mem[a] by {
                    reserved_stays(fr, start, m, a);
                }
            },
            _ => {},
        }
    }
}

/// The blocks that control goes to next.
proof fn goes_on<W>(
    p: ProgV,
    fr: FrameV,
    out: Outside,
    start: Machine,
    mm: MachineV<W>,
    blocks: Seq<BlockV>,
    base: int,
    name: Seq<char>,
    c: int,
    from: usize,
    t: StateV<W>,
    fuel: nat,
    n: Machine,
)
    requires
        fuel > 0,
        0 <= base,
        0 <= c < blocks.len(),
        separate(fr),
        has_words(mm),
        are_plain(p, fr, blocks, name),
        stands_for(p, fr, out, mm, t, n),
        n.regs[Reg::Sp] == start.regs[Reg::Sp],
        goes_back_to(fr, n) == goes_back_to(fr, start),
        goes_smoothly(p, fr, out, start, mm, blocks, c, t, (fuel - 1) as nat),
    ensures
        ({
            let ls = block_lines(p, fr, blocks, base, name, blocks.len() as int);
            let k = block_lines(p, fr, blocks, base, name, c).len() as int;
            let f = (fuel - 1) as nat;
            &&& label_index(ls, ir_to_riscv::label_at(base, c)) == Some(k)
            &&& match meaning::outcome(mm, Set::empty(), blocks, c, from, t, f) {
                OutcomeV::Returned(world, v) => {
                    &&& fate(out, ls, k, n, f) is Returned
                    &&& v matches Some(x) ==> (fate(out, ls, k, n, f)->Returned_0).regs[Reg::A(0)]
                        == x
                    &&& (fate(out, ls, k, n, f)->Returned_0).regs[Reg::Sp] == at_offset(
                        start,
                        fr.size as int,
                    )
                    &&& (fate(out, ls, k, n, f)->Returned_0).regs[Reg::Ra] == goes_back_to(
                        fr,
                        start,
                    )
                    &&& forall|a: i32|
                        !reserved(fr, start, a) ==> #[trigger] (mm.load)(world, a) == (fate(
                            out,
                            ls,
                            k,
                            n,
                            f,
                        )->Returned_0).mem[a]
                },
                OutcomeV::Running => fate(out, ls, k, n, f) == Fate::Running,
                OutcomeV::Stuck => false,
            }
        }),
    decreases fuel, 0int,
{
    let f = (fuel - 1) as nat;
    function_follows(p, fr, out, mm, blocks, base, name, c, from, t, f, start, n);
    blocks_are_found(p, fr, blocks, base, name, blocks.len() as int, c);
}

proof fn positions_are_blocks(blocks: Seq<BlockV>, label: usize)
    requires
        blocks.len() <= usize::MAX,
    ensures
        cfg::label_position(blocks, label) matches Some(c) ==> c < blocks.len(),
    decreases blocks.len(),
{
    if blocks.len() > 0 {
        positions_are_blocks(blocks.drop_last(), label);
    }
}

} // verus!

//! What value numbering leaves of the meaning of a function.

use crate::cfg;
use crate::ir::{self, BlockV, FuncV, InstV, IrOperand};
use crate::meaning::{self, MachineV, StateV};
use crate::opt::{self, const_fold, gvn};
use crate::pass_meaning;
use vstd::prelude::*;

verus! {

// ── SSA values ───────────────────────────────────────────────────────────────

/// Whether an instruction defines an SSA value.
pub open spec fn defines(i: InstV, l: usize) -> bool {
    !(i is Alloc) && ir::inst_dest(i) == Some(l)
}

/// Whether an instruction uses an SSA value.
pub open spec fn uses(i: InstV, l: usize) -> bool {
    ir::inst_operands(i).contains(IrOperand::Local(l))
}

/// No SSA value is defined by two instructions.
pub open spec fn defined_once(blocks: Seq<BlockV>) -> bool {
    forall|b: int, i: int, c: int, j: int, l: usize|
        0 <= b < blocks.len() && 0 <= i < blocks[b].instrs.len() && 0 <= c < blocks.len() && 0 <= j
            < blocks[c].instrs.len() && #[trigger] defines(blocks[b].instrs[i], l)
            && #[trigger] defines(blocks[c].instrs[j], l) ==> b == c && i == j
}

/// No instruction of a list but a phi uses an SSA value that the list defines there or later.
pub open spec fn used_after(instrs: Seq<InstV>) -> bool {
    forall|i: int, j: int, l: usize|
        0 <= i <= j < instrs.len() && !(instrs[i] is Phi) && #[trigger] defines(instrs[j], l)
            ==> !(#[trigger] uses(instrs[i], l))
}

/// Whether numbering leaves out the instruction of a block that defines an SSA value.
pub open spec fn left_out_of(blocks: Seq<BlockV>, b: int, l: usize) -> bool {
    gvn::numbered(blocks[b].instrs, gvn::needed(blocks, b)).replacements.contains_key(l)
}

/// Whether numbering leaves out the instruction that defines an SSA value.
pub open spec fn left_out(blocks: Seq<BlockV>, l: usize) -> bool {
    exists|b: int| 0 <= b < blocks.len() && #[trigger] left_out_of(blocks, b, l)
}

/// The SSA values whose instructions are left out are used only in their blocks, and in no phi.
pub open spec fn used_inside(blocks: Seq<BlockV>) -> bool {
    forall|b: int, c: int, i: int, l: usize|
        0 <= b < blocks.len() && 0 <= c < blocks.len() && 0 <= i < blocks[c].instrs.len()
            && #[trigger] left_out_of(blocks, b, l) && #[trigger] uses(blocks[c].instrs[i], l) ==> b
            == c && !(blocks[c].instrs[i] is Phi)
}

/// Only values that no other block needs are left out.
proof fn left_out_is_not_needed(instrs: Seq<InstV>, l: usize, keep: Set<usize>)
    requires
        gvn::numbered(instrs, keep).replacements.contains_key(l),
    ensures
        !keep.contains(l),
    decreases instrs.len(),
{
    if instrs.len() > 0 {
        let front = instrs.drop_last();
        if gvn::numbered(front, keep).replacements.contains_key(l) {
            left_out_is_not_needed(front, l, keep);
        }
    }
}

pub(crate) proof fn left_out_used_inside(blocks: Seq<BlockV>)
    ensures
        used_inside(blocks),
{
    assert forall|b: int, c: int, i: int, l: usize|
        0 <= b < blocks.len() && 0 <= c < blocks.len() && 0 <= i < blocks[c].instrs.len()
            && #[trigger] left_out_of(blocks, b, l) && #[trigger] uses(
            blocks[c].instrs[i],
            l,
        ) implies b == c && !(blocks[c].instrs[i] is Phi) by {
        left_out_is_not_needed(blocks[b].instrs, l, gvn::needed(blocks, b));
        if b != c || blocks[c].instrs[i] is Phi {
            assert(ir::inst_operands(blocks[c].instrs[i]).contains(IrOperand::Local(l)));
            assert(gvn::used_elsewhere(blocks, b, l));
        }
    }
}

/// States that differ at most in SSA values whose instructions are left out.
pub open spec fn alike<W>(blocks: Seq<BlockV>, s: StateV<W>, t: StateV<W>) -> bool {
    &&& s.vars == t.vars
    &&& s.world == t.world
    &&& forall|l: usize| !(#[trigger] left_out(blocks, l)) ==> s.locals[l] == t.locals[l]
}

// ── The table ────────────────────────────────────────────────────────────────

/// The operands of an expression.
spec fn key_operands(key: gvn::ExprKey) -> Seq<IrOperand> {
    match key {
        gvn::ExprKey::Arith(_, a, b) => seq![a, b],
        gvn::ExprKey::Compare(_, a, b) => seq![a, b],
    }
}

/// The value of an expression.
spec fn key_value<W>(m: MachineV<W>, s: StateV<W>, key: gvn::ExprKey) -> i32 {
    match key {
        gvn::ExprKey::Arith(op, a, b) => const_fold::arith_value(
            op,
            meaning::value(m, s, a),
            meaning::value(m, s, b),
        ),
        gvn::ExprKey::Compare(op, a, b) => const_fold::compare_value(
            op,
            meaning::value(m, s, a),
            meaning::value(m, s, b),
        ),
    }
}

/// A value that holds an expression is in the table with it.
pub(crate) proof fn holder_is_entry(table: Seq<(gvn::ExprKey, usize)>, key: gvn::ExprKey)
    ensures
        gvn::holder(table, key) matches Some(d) ==> exists|e: int|
            0 <= e < table.len() && #[trigger] table[e] == (key, d),
    decreases table.len(),
{
    if table.len() > 0 {
        let front = table.drop_last();
        holder_is_entry(front, key);
        if let Some(d) = gvn::holder(front, key) {
            let e = choose|e: int| 0 <= e < front.len() && #[trigger] front[e] == (key, d);
            assert(table[e] == (key, d));
        } else if table.last().0 == key {
            assert(table[table.len() - 1] == (key, table.last().1));
        }
    }
}

/// What stands for an SSA value is settled once no later instruction defines it.
pub(crate) proof fn settled(instrs: Seq<InstV>, k: int, l: usize, keep: Set<usize>)
    requires
        0 <= k <= instrs.len(),
        forall|j: int| k <= j < instrs.len() ==> !(#[trigger] defines(instrs[j], l)),
    ensures
        gvn::numbered(instrs, keep).replacements.contains_key(l) == gvn::numbered(
            instrs.take(k),
            keep,
        ).replacements.contains_key(l),
        gvn::numbered(instrs, keep).replacements[l] == gvn::numbered(
            instrs.take(k),
            keep,
        ).replacements[l],
    decreases instrs.len() - k,
{
    if k == instrs.len() {
        assert(instrs.take(k) =~= instrs);
    } else {
        settled(instrs, k + 1, l, keep);
        assert(instrs.take(k + 1).drop_last() =~= instrs.take(k));
        assert(instrs.take(k + 1).last() == instrs[k]);
        assert(!defines(instrs[k], l));
    }
}

/// Only what an instruction of a list defines is left out of it.
pub(crate) proof fn left_out_is_defined(instrs: Seq<InstV>, l: usize, keep: Set<usize>)
    requires
        gvn::numbered(instrs, keep).replacements.contains_key(l),
    ensures
        exists|j: int| 0 <= j < instrs.len() && #[trigger] defines(instrs[j], l),
    decreases instrs.len(),
{
    if instrs.len() > 0 {
        let front = instrs.drop_last();
        let n = instrs.len() - 1;
        if gvn::numbered(front, keep).replacements.contains_key(l) {
            left_out_is_defined(front, l, keep);
            let j = choose|j: int| 0 <= j < front.len() && #[trigger] defines(front[j], l);
            assert(defines(instrs[j], l));
        } else {
            assert(defines(instrs[n], l));
        }
    }
}

/// Nothing is replaced in an instruction where nothing stands for anything.
proof fn nothing_replaced(i: InstV)
    ensures
        opt::substituted(i, Map::empty()) == i,
{
    let none = Map::<usize, IrOperand>::empty();
    if let InstV::Call { args, .. } = i {
        assert(opt::replaced_all(args, none) =~= args);
    }
}

/// Where nothing is left out, all instructions stay as they are.
proof fn nothing_left_out(instrs: Seq<InstV>, keep: Set<usize>)
    requires
        gvn::numbered(instrs, keep).out.len() == instrs.len(),
    ensures
        gvn::numbered(instrs, keep).out == instrs,
        gvn::numbered(instrs, keep).replacements == Map::<usize, IrOperand>::empty(),
    decreases instrs.len(),
{
    gvn::numbered_len(instrs, keep);
    if instrs.len() > 0 {
        let front = instrs.drop_last();
        gvn::numbered_len(front, keep);
        nothing_left_out(front, keep);
        nothing_replaced(instrs.last());
        assert(instrs =~= front.push(instrs.last()));
    } else {
        assert(gvn::numbered(instrs, keep).out =~= instrs);
    }
}

/// The instructions of a numbered block.
pub open spec fn kept_insts(out: Seq<InstV>, r: Map<usize, IrOperand>) -> Seq<InstV> {
    out.map_values(|i: InstV| opt::substituted(i, r))
}

/// A numbered block holds what stays of its instructions, with the values left out replaced.
pub(crate) proof fn numbered_block_insts(b: BlockV, keep: Set<usize>)
    ensures
        gvn::numbered_block(b, keep).instrs == kept_insts(
            gvn::numbered(b.instrs, keep).out,
            gvn::numbered(b.instrs, keep).replacements,
        ),
        gvn::numbered_block(b, keep).label == b.label,
{
    if !gvn::repeats(b, keep) {
        gvn::numbered_len(b.instrs, keep);
        nothing_left_out(b.instrs, keep);
        let none = Map::<usize, IrOperand>::empty();
        assert(kept_insts(b.instrs, none) =~= b.instrs) by {
            assert forall|i: int| 0 <= i < b.instrs.len() implies #[trigger] kept_insts(
                b.instrs,
                none,
            )[i] == b.instrs[i] by {
                nothing_replaced(b.instrs[i]);
            }
        }
    }
}

// ── Steps ────────────────────────────────────────────────────────────────────

/// An instruction leaves the SSA values that it does not define.
pub(crate) proof fn step_leaves<W>(m: MachineV<W>, own: Set<usize>, s: StateV<W>, i: InstV, l: usize)
    requires
        !defines(i, l),
    ensures
        meaning::step(m, own, s, i).locals[l] == s.locals[l],
{
}

/// An instruction does the same in two states in which its operands have the same values.
proof fn steps_alike<W>(
    m: MachineV<W>,
    own: Set<usize>,
    s: StateV<W>,
    t: StateV<W>,
    i: InstV,
    r: Map<usize, IrOperand>,
)
    requires
        s.vars == t.vars,
        s.world == t.world,
        forall|l: usize| #[trigger] r.contains_key(l) ==> r[l] is Local,
        !(i is Phi),
        forall|k: int|
            0 <= k < ir::inst_operands(i).len() ==> meaning::value(
                m,
                s,
                #[trigger] ir::inst_operands(i)[k],
            ) == meaning::value(m, t, opt::replaced(ir::inst_operands(i)[k], r)),
    ensures
        ({
            let s1 = meaning::step(m, own, s, i);
            let t1 = meaning::step(m, own, t, opt::substituted(i, r));
            &&& s1.vars == t1.vars
            &&& s1.world == t1.world
            &&& forall|l: usize| #[trigger] defines(i, l) ==> s1.locals[l] == t1.locals[l]
        }),
        forall|l: usize| defines(opt::substituted(i, r), l) <==> #[trigger] defines(i, l),
{
    let ops = ir::inst_operands(i);
    if ops.len() > 0 {
        assert(meaning::value(m, s, ops[0]) == meaning::value(m, t, opt::replaced(ops[0], r)));
    }
    if ops.len() > 1 {
        assert(meaning::value(m, s, ops[1]) == meaning::value(m, t, opt::replaced(ops[1], r)));
    }
    if let InstV::Call { args, .. } = i {
        let new = opt::replaced_all(args, r);
        assert(meaning::values(m, s, args) =~= meaning::values(m, t, new)) by {
            assert forall|k: int| 0 <= k < args.len() implies meaning::values(m, s, args)[k]
                == meaning::values(m, t, new)[k] by {
                assert(ops[k] == args[k]);
            }
        }
    }
}

// ── Blocks ───────────────────────────────────────────────────────────────────

/// Whether an instruction of a list from the `k`th on defines an SSA value.
spec fn defined_from(instrs: Seq<InstV>, k: int, l: usize) -> bool {
    exists|j: int| k <= j < instrs.len() && #[trigger] defines(instrs[j], l)
}

/// Whether an SSA value is there for good before the `k`th instruction of a block.
spec fn lasts(blocks: Seq<BlockV>, b: int, k: int, l: usize) -> bool {
    !left_out(blocks, l) && !defined_from(blocks[b].instrs, k, l)
}

/// Whether an operand has its value for good before the `k`th instruction of a block.
spec fn operand_lasts(blocks: Seq<BlockV>, b: int, k: int, op: IrOperand) -> bool {
    op matches IrOperand::Local(l) ==> lasts(blocks, b, k, l)
}

/// Whether an entry of the table tells the truth before the `k`th instruction of a block.
spec fn entry_holds<W>(
    m: MachineV<W>,
    blocks: Seq<BlockV>,
    b: int,
    k: int,
    t: StateV<W>,
    e: (gvn::ExprKey, usize),
) -> bool {
    &&& lasts(blocks, b, k, e.1)
    &&& t.locals[e.1] == key_value(m, t, e.0)
    &&& operand_lasts(blocks, b, k, key_operands(e.0)[0])
    &&& operand_lasts(blocks, b, k, key_operands(e.0)[1])
}

/// Whether what stands for an SSA value has its value before the `k`th instruction of a block.
spec fn stands<W>(
    blocks: Seq<BlockV>,
    b: int,
    k: int,
    s: StateV<W>,
    t: StateV<W>,
    l: usize,
    op: IrOperand,
) -> bool {
    &&& !defined_from(blocks[b].instrs, k, l)
    &&& op matches IrOperand::Local(d) && lasts(blocks, b, k, d) && s.locals[l] == t.locals[d]
}

/// Whether two states fit the numbering of the first `k` instructions of a block.
spec fn tied<W>(
    m: MachineV<W>,
    blocks: Seq<BlockV>,
    b: int,
    k: int,
    s: StateV<W>,
    t: StateV<W>,
) -> bool {
    let n = gvn::numbered(blocks[b].instrs.take(k), gvn::needed(blocks, b));
    &&& alike(blocks, s, t)
    &&& forall|l: usize| #[trigger]
        n.replacements.contains_key(l) ==> stands(blocks, b, k, s, t, l, n.replacements[l])
    &&& forall|e: int|
        0 <= e < n.table.len() ==> entry_holds(m, blocks, b, k, t, #[trigger] n.table[e])
}

/// What the law on numbering asks of a function.
spec fn orderly(blocks: Seq<BlockV>) -> bool {
    &&& defined_once(blocks)
    &&& used_inside(blocks)
    &&& forall|b: int| 0 <= b < blocks.len() ==> used_after((#[trigger] blocks[b]).instrs)
}

/// The values that stand for others are SSA values.
proof fn stand_ins_are_values(instrs: Seq<InstV>, keep: Set<usize>)
    ensures
        forall|l: usize| #[trigger]
            gvn::numbered(instrs, keep).replacements.contains_key(l)
                ==> gvn::numbered(instrs, keep).replacements[l] is Local,
    decreases instrs.len(),
{
    if instrs.len() > 0 {
        stand_ins_are_values(instrs.drop_last(), keep);
    }
}

/// An instruction that a block keeps defines a value that is not left out.
proof fn kept_is_not_left_out(blocks: Seq<BlockV>, b: int, k: int, l: usize)
    requires
        orderly(blocks),
        0 <= b < blocks.len(),
        0 <= k < blocks[b].instrs.len(),
        defines(blocks[b].instrs[k], l),
        !gvn::numbered(blocks[b].instrs.take(k + 1), gvn::needed(blocks, b)).replacements.contains_key(l),
    ensures
        lasts(blocks, b, k + 1, l),
{
    let instrs = blocks[b].instrs;
    assert(!defined_from(instrs, k + 1, l)) by {
        if defined_from(instrs, k + 1, l) {
            let j = choose|j: int| k + 1 <= j < instrs.len() && #[trigger] defines(instrs[j], l);
            assert(defines(blocks[b].instrs[j], l));
        }
    }
    if left_out(blocks, l) {
        let c = choose|c: int| 0 <= c < blocks.len() && #[trigger] left_out_of(blocks, c, l);
        left_out_is_defined(blocks[c].instrs, l, gvn::needed(blocks, c));
        let j = choose|j: int|
            0 <= j < blocks[c].instrs.len() && #[trigger] defines(blocks[c].instrs[j], l);
        assert(b == c);
        assert forall|j: int| k + 1 <= j < instrs.len() implies !(#[trigger] defines(
            instrs[j],
            l,
        )) by {}
        settled(instrs, k + 1, l, gvn::needed(blocks, b));
    }
}

/// An operand has, before the instruction that uses it, the value of what stands for it.
proof fn operand_alike<W>(
    m: MachineV<W>,
    blocks: Seq<BlockV>,
    b: int,
    k: int,
    s: StateV<W>,
    t: StateV<W>,
    op: IrOperand,
)
    requires
        orderly(blocks),
        0 <= b < blocks.len(),
        0 <= k < blocks[b].instrs.len(),
        !(blocks[b].instrs[k] is Phi),
        ir::inst_operands(blocks[b].instrs[k]).contains(op),
        tied(m, blocks, b, k, s, t),
    ensures
        meaning::value(m, s, op) == meaning::value(
            m,
            t,
            opt::replaced(op, gvn::numbered(blocks[b].instrs, gvn::needed(blocks, b)).replacements),
        ),
        opt::replaced(op, gvn::numbered(blocks[b].instrs, gvn::needed(blocks, b)).replacements) == opt::replaced(
            op,
            gvn::numbered(blocks[b].instrs.take(k), gvn::needed(blocks, b)).replacements,
        ),
        operand_lasts(
            blocks,
            b,
            k,
            opt::replaced(op, gvn::numbered(blocks[b].instrs, gvn::needed(blocks, b)).replacements),
        ),
{
    let instrs = blocks[b].instrs;
    if let IrOperand::Local(l) = op {
        assert(uses(instrs[k], l));
        assert(!defined_from(instrs, k, l)) by {
            if defined_from(instrs, k, l) {
                let j = choose|j: int| k <= j < instrs.len() && #[trigger] defines(instrs[j], l);
                assert(used_after(blocks[b].instrs));
            }
        }
        assert forall|j: int| k <= j < instrs.len() implies !(#[trigger] defines(instrs[j], l)) by {}
        settled(instrs, k, l, gvn::needed(blocks, b));
        let r = gvn::numbered(instrs, gvn::needed(blocks, b)).replacements;
        if r.contains_key(l) {
            assert(gvn::numbered(instrs.take(k), gvn::needed(blocks, b)).replacements.contains_key(l));
        } else {
            assert(!left_out(blocks, l)) by {
                if left_out(blocks, l) {
                    let c = choose|c: int|
                        0 <= c < blocks.len() && #[trigger] left_out_of(blocks, c, l);
                    assert(uses(blocks[b].instrs[k], l));
                }
            }
        }
    }
}

/// What the numbering of a first part of a block says keeps true over an instruction that is kept.
proof fn kept_step<W>(
    m: MachineV<W>,
    own: Set<usize>,
    blocks: Seq<BlockV>,
    b: int,
    k: int,
    s: StateV<W>,
    t: StateV<W>,
)
    requires
        orderly(blocks),
        0 <= b < blocks.len(),
        0 <= k < blocks[b].instrs.len(),
        tied(m, blocks, b, k, s, t),
        forall|l: usize|
            defines(blocks[b].instrs[k], l) ==> !(#[trigger] gvn::numbered(
                blocks[b].instrs.take(k + 1),
                gvn::needed(blocks, b),
            ).replacements.contains_key(l)),
    ensures
        ({
            let i = blocks[b].instrs[k];
            let r = gvn::numbered(blocks[b].instrs, gvn::needed(blocks, b)).replacements;
            let n = gvn::numbered(blocks[b].instrs.take(k), gvn::needed(blocks, b));
            let s1 = meaning::step(m, own, s, i);
            let t1 = meaning::step(m, own, t, opt::substituted(i, r));
            &&& alike(blocks, s1, t1)
            &&& forall|l: usize| #[trigger]
                n.replacements.contains_key(l) ==> stands(
                    blocks,
                    b,
                    k + 1,
                    s1,
                    t1,
                    l,
                    n.replacements[l],
                )
            &&& forall|e: int|
                0 <= e < n.table.len() ==> entry_holds(
                    m,
                    blocks,
                    b,
                    k + 1,
                    t1,
                    #[trigger] n.table[e],
                )
        }),
{
    let instrs = blocks[b].instrs;
    let i = instrs[k];
    let r = gvn::numbered(instrs, gvn::needed(blocks, b)).replacements;
    let n = gvn::numbered(instrs.take(k), gvn::needed(blocks, b));
    let s1 = meaning::step(m, own, s, i);
    let t1 = meaning::step(m, own, t, opt::substituted(i, r));
    if i is Phi {
        assert(s1 == s && t1 == t);
    } else {
        stand_ins_are_values(instrs, gvn::needed(blocks, b));
        assert forall|o: int| 0 <= o < ir::inst_operands(i).len() implies meaning::value(
            m,
            s,
            #[trigger] ir::inst_operands(i)[o],
        ) == meaning::value(m, t, opt::replaced(ir::inst_operands(i)[o], r)) by {
            operand_alike(m, blocks, b, k, s, t, ir::inst_operands(i)[o]);
        }
        steps_alike(m, own, s, t, i, r);
    }
    assert forall|l: usize| !defines(i, l) implies #[trigger] s1.locals[l] == s.locals[l] by {
        step_leaves(m, own, s, i, l);
    }
    assert forall|l: usize| !defines(i, l) implies #[trigger] t1.locals[l] == t.locals[l] by {
        if !(i is Phi) {
            step_leaves(m, own, t, opt::substituted(i, r), l);
        }
    }
    assert forall|l: usize| !(#[trigger] left_out(blocks, l)) implies s1.locals[l]
        == t1.locals[l] by {
        if !defines(i, l) {
            assert(s1.locals[l] == s.locals[l]);
            assert(t1.locals[l] == t.locals[l]);
        }
    }
    assert forall|l: usize| !defined_from(instrs, k, l) implies !(#[trigger] defined_from(
        instrs,
        k + 1,
        l,
    )) && !defines(i, l) by {
        assert(defines(instrs[k], l) ==> defined_from(instrs, k, l));
        if defined_from(instrs, k + 1, l) {
            let j = choose|j: int| k + 1 <= j < instrs.len() && #[trigger] defines(instrs[j], l);
            assert(defined_from(instrs, k, l));
        }
    }
    assert forall|l: usize| #[trigger] n.replacements.contains_key(l) implies stands(
        blocks,
        b,
        k + 1,
        s1,
        t1,
        l,
        n.replacements[l],
    ) by {
        let d = n.replacements[l]->Local_0;
        assert(!defined_from(instrs, k + 1, l) && !defined_from(instrs, k + 1, d));
        assert(s1.locals[l] == s.locals[l]);
        assert(t1.locals[d] == t.locals[d]);
    }
    assert forall|e: int| 0 <= e < n.table.len() implies entry_holds(
        m,
        blocks,
        b,
        k + 1,
        t1,
        #[trigger] n.table[e],
    ) by {
        let (key, d) = n.table[e];
        assert(entry_holds(m, blocks, b, k, t, n.table[e]));
        assert(!defined_from(instrs, k + 1, d));
        assert(t1.locals[d] == t.locals[d]);
        let ops = key_operands(key);
        operand_stays(m, blocks, b, k, own, t, ops[0]);
        operand_stays(m, blocks, b, k, own, t, ops[1]);
    }
}

/// An operand with its value for good keeps it over an instruction of a numbered block.
proof fn operand_stays<W>(
    m: MachineV<W>,
    blocks: Seq<BlockV>,
    b: int,
    k: int,
    own: Set<usize>,
    t: StateV<W>,
    op: IrOperand,
)
    requires
        0 <= b < blocks.len(),
        0 <= k < blocks[b].instrs.len(),
        operand_lasts(blocks, b, k, op),
    ensures
        operand_lasts(blocks, b, k + 1, op),
        meaning::value(
            m,
            meaning::step(
                m,
                own,
                t,
                opt::substituted(
                    blocks[b].instrs[k],
                    gvn::numbered(blocks[b].instrs, gvn::needed(blocks, b)).replacements,
                ),
            ),
            op,
        ) == meaning::value(m, t, op),
{
    if let IrOperand::Local(l) = op {
        let instrs = blocks[b].instrs;
        assert(defines(instrs[k], l) ==> defined_from(instrs, k, l));
        if defined_from(instrs, k + 1, l) {
            let j = choose|j: int| k + 1 <= j < instrs.len() && #[trigger] defines(instrs[j], l);
            assert(defined_from(instrs, k, l));
        }
        step_leaves(
            m,
            own,
            t,
            opt::substituted(instrs[k], gvn::numbered(instrs, gvn::needed(blocks, b)).replacements),
            l,
        );
    }
}

/// The first instructions of a block, and those among them that numbering keeps, lead to states
/// that fit the numbering.
proof fn numbering_runs<W>(
    m: MachineV<W>,
    own: Set<usize>,
    blocks: Seq<BlockV>,
    b: int,
    k: int,
    s: StateV<W>,
    t: StateV<W>,
)
    requires
        orderly(blocks),
        0 <= b < blocks.len(),
        0 <= k <= blocks[b].instrs.len(),
        alike(blocks, s, t),
    ensures
        tied(
            m,
            blocks,
            b,
            k,
            meaning::run(m, own, s, blocks[b].instrs.take(k)),
            meaning::run(
                m,
                own,
                t,
                kept_insts(
                    gvn::numbered(blocks[b].instrs.take(k), gvn::needed(blocks, b)).out,
                    gvn::numbered(blocks[b].instrs, gvn::needed(blocks, b)).replacements,
                ),
            ),
        ),
    decreases k,
{
    let instrs = blocks[b].instrs;
    let r = gvn::numbered(instrs, gvn::needed(blocks, b)).replacements;
    let now = gvn::numbered(instrs.take(k), gvn::needed(blocks, b));
    if k > 0 {
        let before = gvn::numbered(instrs.take(k - 1), gvn::needed(blocks, b));
        let i = instrs[k - 1];
        numbering_runs(m, own, blocks, b, k - 1, s, t);
        assert(instrs.take(k).drop_last() =~= instrs.take(k - 1));
        assert(instrs.take(k).last() == i);
        assert(now == gvn::step(before, i, gvn::needed(blocks, b)));
        let s0 = meaning::run(m, own, s, instrs.take(k - 1));
        let t0 = meaning::run(m, own, t, kept_insts(before.out, r));
        match (gvn::key_of(i), ir::inst_dest(i)) {
            (Some(_), Some(dest)) => {
                let ops = ir::inst_operands(i);
                assert(ops[0] == ops[0] && ops.contains(ops[0]) && ops.contains(ops[1]));
                operand_alike(m, blocks, b, k - 1, s0, t0, ops[0]);
                operand_alike(m, blocks, b, k - 1, s0, t0, ops[1]);
                let canonical = opt::substituted(i, before.replacements);
                assert(canonical == opt::substituted(i, r));
                let key = gvn::key_of(canonical)->0;
                holder_is_entry(before.table, key);
                assert(defines(i, dest));
                match gvn::holder(before.table, key) {
                    Some(d) if !gvn::needed(blocks, b).contains(dest) => {
                        assert(now.out == before.out);
                        repeated_step(m, own, blocks, b, k - 1, s0, t0, dest, d);
                    },
                    Some(_) => {
                        assert(!before.replacements.contains_key(dest)) by {
                            if before.replacements.contains_key(dest) {
                                assert(defined_from(instrs, k - 1, dest));
                            }
                        }
                        kept_step(m, own, blocks, b, k - 1, s0, t0);
                        let again = opt::substituted(canonical, r);
                        assert(again == canonical) by {
                            replaced_for_good(blocks, b, k - 1, key_operands(key)[0]);
                            replaced_for_good(blocks, b, k - 1, key_operands(key)[1]);
                        }
                        assert(kept_insts(now.out, r) =~= kept_insts(before.out, r).push(again));
                        assert(kept_insts(now.out, r).drop_last() =~= kept_insts(before.out, r));
                    },
                    None => {
                        assert(!before.replacements.contains_key(dest)) by {
                            if before.replacements.contains_key(dest) {
                                assert(defined_from(instrs, k - 1, dest));
                            }
                        }
                        kept_step(m, own, blocks, b, k - 1, s0, t0);
                        kept_is_not_left_out(blocks, b, k - 1, dest);
                        let again = opt::substituted(canonical, r);
                        assert(again == canonical) by {
                            replaced_for_good(blocks, b, k - 1, key_operands(key)[0]);
                            replaced_for_good(blocks, b, k - 1, key_operands(key)[1]);
                        }
                        assert(kept_insts(now.out, r) =~= kept_insts(before.out, r).push(again));
                        assert(kept_insts(now.out, r).drop_last() =~= kept_insts(before.out, r));
                        let t1 = meaning::step(m, own, t0, canonical);
                        operand_stays(m, blocks, b, k - 1, own, t0, key_operands(key)[0]);
                        operand_stays(m, blocks, b, k - 1, own, t0, key_operands(key)[1]);
                        assert(entry_holds(m, blocks, b, k, t1, (key, dest)));
                    },
                }
            },
            _ => {
                assert forall|l: usize| defines(i, l) implies !(#[trigger] gvn::numbered(
                    instrs.take(k),
                    gvn::needed(blocks, b),
                ).replacements.contains_key(l)) by {
                    if before.replacements.contains_key(l) {
                        assert(defined_from(instrs, k - 1, l));
                    }
                }
                kept_step(m, own, blocks, b, k - 1, s0, t0);
                let again = opt::substituted(i, r);
                assert(kept_insts(now.out, r) =~= kept_insts(before.out, r).push(again));
                assert(kept_insts(now.out, r).drop_last() =~= kept_insts(before.out, r));
            },
        }
    } else {
        assert(instrs.take(0) =~= Seq::empty());
        assert(kept_insts(now.out, r) =~= Seq::empty());
    }
}

/// An operand with its value for good is not replaced.
proof fn replaced_for_good(blocks: Seq<BlockV>, b: int, k: int, op: IrOperand)
    requires
        0 <= b < blocks.len(),
        operand_lasts(blocks, b, k, op),
    ensures
        opt::replaced(op, gvn::numbered(blocks[b].instrs, gvn::needed(blocks, b)).replacements) == op,
{
    if let IrOperand::Local(l) = op {
        assert(left_out_of(blocks, b, l) ==> left_out(blocks, l));
    }
}

/// What the numbering of a first part of a block says keeps true over an instruction that is left
/// out, and the value that holds its expression stands for the value that it defines.
proof fn repeated_step<W>(
    m: MachineV<W>,
    own: Set<usize>,
    blocks: Seq<BlockV>,
    b: int,
    k: int,
    s: StateV<W>,
    t: StateV<W>,
    dest: usize,
    d: usize,
)
    requires
        orderly(blocks),
        0 <= b < blocks.len(),
        0 <= k < blocks[b].instrs.len(),
        tied(m, blocks, b, k, s, t),
        gvn::key_of(blocks[b].instrs[k]) is Some,
        defines(blocks[b].instrs[k], dest),
        gvn::holder(
            gvn::numbered(blocks[b].instrs.take(k), gvn::needed(blocks, b)).table,
            gvn::key_of(
                opt::substituted(
                    blocks[b].instrs[k],
                    gvn::numbered(blocks[b].instrs.take(k), gvn::needed(blocks, b)).replacements,
                ),
            )->0,
        ) == Some(d),
        !gvn::needed(blocks, b).contains(dest),
    ensures
        tied(m, blocks, b, k + 1, meaning::step(m, own, s, blocks[b].instrs[k]), t),
{
    let instrs = blocks[b].instrs;
    let i = instrs[k];
    let n = gvn::numbered(instrs.take(k), gvn::needed(blocks, b));
    let now = gvn::numbered(instrs.take(k + 1), gvn::needed(blocks, b));
    assert(instrs.take(k + 1).drop_last() =~= instrs.take(k));
    assert(instrs.take(k + 1).last() == i);
    let key = gvn::key_of(opt::substituted(i, n.replacements))->0;
    let s1 = meaning::step(m, own, s, i);
    let ops = ir::inst_operands(i);
    assert(ops.contains(ops[0]) && ops.contains(ops[1]));
    operand_alike(m, blocks, b, k, s, t, ops[0]);
    operand_alike(m, blocks, b, k, s, t, ops[1]);
    assert(s1.locals[dest] == key_value(m, t, key));
    holder_is_entry(n.table, key);
    let e = choose|e: int| 0 <= e < n.table.len() && #[trigger] n.table[e] == (key, d);
    assert(entry_holds(m, blocks, b, k, t, n.table[e]));
    assert(now.replacements == n.replacements.insert(dest, IrOperand::Local(d)));
    assert(now.table == n.table);
    assert forall|j: int| k + 1 <= j < instrs.len() implies !(#[trigger] defines(
        instrs[j],
        dest,
    )) by {
        assert(defines(blocks[b].instrs[k], dest));
        assert(defines(blocks[b].instrs[j], dest) ==> j == k);
    }
    assert(!defined_from(instrs, k + 1, dest));
    settled(instrs, k + 1, dest, gvn::needed(blocks, b));
    assert(left_out_of(blocks, b, dest));
    assert(left_out(blocks, dest));
    assert forall|l: usize| !defined_from(instrs, k, l) implies !(#[trigger] defined_from(
        instrs,
        k + 1,
        l,
    )) && l != dest by {
        assert(defined_from(instrs, k, dest));
        if defined_from(instrs, k + 1, l) {
            let j = choose|j: int| k + 1 <= j < instrs.len() && #[trigger] defines(instrs[j], l);
            assert(defined_from(instrs, k, l));
        }
    }
    assert(lasts(blocks, b, k + 1, d));
    assert forall|l: usize| #[trigger] now.replacements.contains_key(l) implies stands(
        blocks,
        b,
        k + 1,
        s1,
        t,
        l,
        now.replacements[l],
    ) by {
        if l != dest {
            assert(n.replacements.contains_key(l));
            let x = n.replacements[l]->Local_0;
            assert(!defined_from(instrs, k + 1, l) && !defined_from(instrs, k + 1, x));
        }
    }
    assert forall|x: int| 0 <= x < now.table.len() implies entry_holds(
        m,
        blocks,
        b,
        k + 1,
        t,
        #[trigger] now.table[x],
    ) by {
        assert(entry_holds(m, blocks, b, k, t, n.table[x]));
        let ops = key_operands(n.table[x].0);
        operand_stays(m, blocks, b, k, own, t, ops[0]);
        operand_stays(m, blocks, b, k, own, t, ops[1]);
        assert(!defined_from(instrs, k + 1, n.table[x].1));
    }
}

/// The phis of a block lead to states that differ at most in what is left out.
proof fn numbering_entries<W>(
    m: MachineV<W>,
    blocks: Seq<BlockV>,
    b: int,
    k: int,
    from: usize,
    s: StateV<W>,
    t: StateV<W>,
)
    requires
        orderly(blocks),
        0 <= b < blocks.len(),
        0 <= k <= blocks[b].instrs.len(),
        alike(blocks, s, t),
    ensures
        alike(
            blocks,
            meaning::entered(m, s, blocks[b].instrs.take(k), from),
            meaning::entered(
                m,
                t,
                kept_insts(
                    gvn::numbered(blocks[b].instrs.take(k), gvn::needed(blocks, b)).out,
                    gvn::numbered(blocks[b].instrs, gvn::needed(blocks, b)).replacements,
                ),
                from,
            ),
        ),
    decreases k,
{
    let instrs = blocks[b].instrs;
    let r = gvn::numbered(instrs, gvn::needed(blocks, b)).replacements;
    let now = gvn::numbered(instrs.take(k), gvn::needed(blocks, b));
    if k > 0 {
        let before = gvn::numbered(instrs.take(k - 1), gvn::needed(blocks, b));
        let i = instrs[k - 1];
        numbering_entries(m, blocks, b, k - 1, from, s, t);
        assert(instrs.take(k).drop_last() =~= instrs.take(k - 1));
        assert(instrs.take(k).last() == i);
        if now.out != before.out {
            let last = now.out.last();
            assert(now.out =~= before.out.push(last));
            assert(kept_insts(now.out, r) =~= kept_insts(before.out, r).push(
                opt::substituted(last, r),
            ));
            assert(kept_insts(now.out, r).drop_last() =~= kept_insts(before.out, r));
            if let InstV::Phi { dest, incoming } = i {
                assert(last == i);
                pass_meaning::incoming_is_operand(incoming, from);
                let v = meaning::incoming_from(incoming, from);
                if let IrOperand::Local(l) = v {
                    let j = choose|j: int|
                        0 <= j < incoming.len() && (#[trigger] incoming[j]).0 == v;
                    assert(ir::inst_operands(i)[j] == v);
                    assert(uses(blocks[b].instrs[k - 1], l));
                    if left_out(blocks, l) {
                        let c = choose|c: int|
                            0 <= c < blocks.len() && #[trigger] left_out_of(blocks, c, l);
                    }
                }
            }
        }
    } else {
        assert(instrs.take(0) =~= Seq::empty());
        assert(kept_insts(now.out, r) =~= Seq::empty());
    }
}

/// A function without repeated expressions comes to the same end as the function, in as many
/// blocks, if no SSA value is defined twice or used before its definition in its block, and if the
/// blocks end in branches or returns.
pub proof fn numbering_keeps_outcomes<W>(
    m: MachineV<W>,
    own: Set<usize>,
    f: FuncV,
    b: int,
    from: usize,
    s: StateV<W>,
    t: StateV<W>,
    fuel: nat,
)
    requires
        alike(f.blocks, s, t),
        defined_once(f.blocks),
        forall|k: int| 0 <= k < f.blocks.len() ==> used_after((#[trigger] f.blocks[k]).instrs),
        forall|k: int|
            0 <= k < f.blocks.len() && (#[trigger] f.blocks[k]).instrs.len() > 0 ==> ir::terminator(
                f.blocks[k].instrs.last(),
            ),
    ensures
        meaning::outcome(m, own, gvn::numbered_func(f).blocks, b, from, t, fuel)
            == meaning::outcome(m, own, f.blocks, b, from, s, fuel),
    decreases fuel,
{
    let new = gvn::numbered_func(f).blocks;
    left_out_used_inside(f.blocks);
    if fuel > 0 && 0 <= b < f.blocks.len() {
        let instrs = f.blocks[b].instrs;
        let n = instrs.len() as int;
        let r = gvn::numbered(instrs, gvn::needed(f.blocks, b)).replacements;
        let kept = kept_insts(gvn::numbered(instrs, gvn::needed(f.blocks, b)).out, r);
        assert(new[b] == gvn::numbered_block(f.blocks[b], gvn::needed(f.blocks, b)));
        numbered_block_insts(f.blocks[b], gvn::needed(f.blocks, b));
        assert(instrs.take(n) =~= instrs);
        if n > 0 {
            let last = instrs.last();
            let before = gvn::numbered(instrs.drop_last(), gvn::needed(f.blocks, b));
            assert(gvn::numbered(instrs, gvn::needed(f.blocks, b)).out == before.out.push(last));
            assert(kept =~= kept_insts(before.out, r).push(opt::substituted(last, r)));
            assert(kept.drop_last() =~= kept_insts(before.out, r));
            numbering_entries(m, f.blocks, b, n, from, s, t);
            let s0 = meaning::entered(m, s, instrs, from);
            let t0 = meaning::entered(m, t, kept, from);
            assert(instrs.take(n - 1) =~= instrs.drop_last());
            numbering_runs(m, own, f.blocks, b, n - 1, s0, t0);
            numbering_runs(m, own, f.blocks, b, n, s0, t0);
            let s1 = meaning::run(m, own, s0, instrs);
            let t1 = meaning::run(m, own, t0, kept);
            let ops = ir::inst_operands(last);
            if ops.len() > 0 {
                assert(ops.contains(ops[0]));
                operand_alike(m, f.blocks, b, n - 1, s1, t1, ops[0]);
            }
            let label = pass_meaning::next_label(m, s1, last);
            assert forall|k: int| 0 <= k < new.len() implies (#[trigger] new[k]).label
                == f.blocks[k].label by {
                numbered_block_insts(f.blocks[k], gvn::needed(f.blocks, k));
            }
            pass_meaning::same_positions(new, f.blocks, label);
            if let Some(k) = cfg::label_position(f.blocks, label) {
                numbering_keeps_outcomes(
                    m,
                    own,
                    f,
                    k as int,
                    b as usize,
                    s1,
                    t1,
                    (fuel - 1) as nat,
                );
            }
            assert(meaning::outcome_at(m, own, new, label, b as usize, t1, fuel)
                == meaning::outcome_at(m, own, f.blocks, label, b as usize, s1, fuel));
        }
    }
}

} // verus!

//! What the promotion of variables to SSA values, and the lowering of phis, turn a function into.

use crate::cfg;
use crate::domtree;
use crate::ir::{self, BlockV, FuncV, InstV, IrOperand, IrType};
use crate::ir_to_koopa::{self, MoveV};
use crate::opt::const_fold;
use crate::ssa;
use vstd::prelude::*;

verus! {

// ── Which variables are promoted ─────────────────────────────────────────────

/// Whether an instruction uses a variable only to load or store.
pub open spec fn only_moves(i: InstV, g: usize) -> bool {
    i is Load || i is Store || !ir::inst_operands(i).contains(IrOperand::Global(g))
}

/// Whether the instructions of some blocks use a variable only to load or store.
pub open spec fn only_moved(blocks: Seq<BlockV>, g: usize) -> bool {
    forall|b: int, i: int|
        #![trigger blocks[b].instrs[i]]
        0 <= b < blocks.len() && 0 <= i < blocks[b].instrs.len() ==> only_moves(
            blocks[b].instrs[i],
            g,
        )
}

/// The integer variables that a list of instructions allocates.
pub open spec fn int_vars(instrs: Seq<InstV>) -> Seq<usize>
    decreases instrs.len(),
{
    if instrs.len() == 0 {
        Seq::empty()
    } else {
        let before = int_vars(instrs.drop_last());
        match instrs.last() {
            InstV::Alloc { dest, ty: IrType::I32 } => before.push(dest),
            _ => before,
        }
    }
}

/// The integer variables that the first `n` blocks allocate.
pub open spec fn block_vars(blocks: Seq<BlockV>, n: int) -> Seq<usize>
    decreases n,
{
    if n <= 0 {
        Seq::empty()
    } else {
        block_vars(blocks, n - 1) + int_vars(blocks[n - 1].instrs)
    }
}

/// The integer variables of a function that are only loaded and stored.
pub open spec fn promotable(blocks: Seq<BlockV>) -> Seq<usize> {
    block_vars(blocks, blocks.len() as int).filter(|g: usize| only_moved(blocks, g))
}

/// Whether an instruction stores to a variable.
pub open spec fn stores_to(i: InstV, g: usize) -> bool {
    i matches InstV::Store { ptr, .. } && ptr == IrOperand::Global(g)
}

/// Whether an instruction of a list stores to a variable.
pub open spec fn has_store(instrs: Seq<InstV>, g: usize) -> bool {
    exists|i: int| 0 <= i < instrs.len() && stores_to(#[trigger] instrs[i], g)
}

/// The blocks below `n` that store to a variable.
pub open spec fn def_blocks(blocks: Seq<BlockV>, g: usize, n: int) -> Seq<usize>
    decreases n,
{
    if n <= 0 {
        Seq::empty()
    } else if has_store(blocks[n - 1].instrs, g) {
        def_blocks(blocks, g, n - 1).push((n - 1) as usize)
    } else {
        def_blocks(blocks, g, n - 1)
    }
}

/// Whether an instruction stores the value of a parameter to a variable.
pub open spec fn stores_param(i: InstV, g: usize) -> bool {
    i matches InstV::Store { ptr, value } && ptr == IrOperand::Global(g) && value is Global
}

/// Whether an instruction of a list stores the value of a parameter to a variable.
pub open spec fn has_param(instrs: Seq<InstV>, g: usize) -> bool {
    exists|i: int| 0 <= i < instrs.len() && stores_param(#[trigger] instrs[i], g)
}

/// The first value that a list of instructions stores to a variable.
pub open spec fn first_stored(instrs: Seq<InstV>, g: usize) -> Option<IrOperand>
    decreases instrs.len(),
{
    if instrs.len() == 0 {
        None
    } else {
        match first_stored(instrs.drop_last(), g) {
            Some(v) => Some(v),
            None => match instrs.last() {
                InstV::Store { value, ptr } => if ptr == IrOperand::Global(g) {
                    Some(value)
                } else {
                    None
                },
                _ => None,
            },
        }
    }
}

/// Whether an instruction is a call or allocates an array.
pub open spec fn is_complex(i: InstV) -> bool {
    i is Call || (i matches InstV::Alloc { ty, .. } && ty is Array)
}

/// Whether some blocks hold a call or an array.
pub open spec fn complex(blocks: Seq<BlockV>) -> bool {
    exists|b: int, i: int|
        #![trigger blocks[b].instrs[i]]
        0 <= b < blocks.len() && 0 <= i < blocks[b].instrs.len() && is_complex(blocks[b].instrs[i])
}

/// Whether one of some blocks is above another of them in the dominator tree.
pub open spec fn has_chain(idom: Seq<usize>, defs: Seq<usize>) -> bool {
    exists|i: int, j: int|
        #![trigger defs[i], defs[j]]
        0 <= i < defs.len() && 0 <= j < defs.len() && defs[i] != defs[j] && ssa::above_in_tree(
            idom,
            defs[i] as int,
            defs[j] as int,
        )
}

/// How a variable of a function with several blocks is promoted.
pub enum Plan {
    /// Not at all.
    Keep,
    /// It has one value, stored in the entry block.
    Simple(IrOperand),
    /// With phis.
    Phi,
}

/// How a variable of a function with several blocks is promoted.
pub open spec fn plan(blocks: Seq<BlockV>, idom: Seq<usize>, g: usize) -> Plan {
    let defs = def_blocks(blocks, g, blocks.len() as int);
    if has_param(blocks[0].instrs, g) {
        Plan::Keep
    } else if defs.len() == 1 && defs[0] == 0 {
        match first_stored(blocks[0].instrs, g) {
            Some(v) => Plan::Simple(v),
            None => Plan::Keep,
        }
    } else if defs.len() >= 2 && !complex(blocks) && has_chain(idom, defs) {
        Plan::Phi
    } else {
        Plan::Keep
    }
}

/// The variables among some that are promoted with phis.
pub open spec fn phi_vars(blocks: Seq<BlockV>, idom: Seq<usize>, names: Seq<usize>) -> Seq<usize>
    decreases names.len(),
{
    if names.len() == 0 {
        Seq::empty()
    } else {
        let before = phi_vars(blocks, idom, names.drop_last());
        match plan(blocks, idom, names.last()) {
            Plan::Phi => before.push(names.last()),
            _ => before,
        }
    }
}

/// The variables among some that have one value, with the value.
pub open spec fn simple_vars(blocks: Seq<BlockV>, idom: Seq<usize>, names: Seq<usize>) -> Seq<
    (usize, IrOperand),
>
    decreases names.len(),
{
    if names.len() == 0 {
        Seq::empty()
    } else {
        let before = simple_vars(blocks, idom, names.drop_last());
        match plan(blocks, idom, names.last()) {
            Plan::Simple(v) => before.push((names.last(), v)),
            _ => before,
        }
    }
}

// ── Where phis go ────────────────────────────────────────────────────────────

/// The phis of a block: the variable that each stands for, and its value.
pub type Phis = Seq<(usize, usize)>;

/// The phis of a block with one for a variable, in place of one that it has.
pub open spec fn with_phi(phis: Phis, g: usize, dest: usize) -> Phis
    decreases phis.len(),
{
    if phis.len() == 0 {
        seq![(g, dest)]
    } else if phis[0].0 == g {
        phis.update(0, (g, dest))
    } else {
        seq![phis[0]] + with_phi(phis.drop_first(), g, dest)
    }
}

/// The state of placing the phis of one variable.
#[verifier::ext_equal]
pub struct PlaceV {
    /// The blocks whose frontiers are still to be visited.
    pub work: Seq<usize>,
    /// The blocks that have a phi for the variable.
    pub placed: Seq<bool>,
    /// The phis of all blocks.
    pub phis: Seq<Phis>,
    /// The index of the next SSA value.
    pub next: usize,
}

/// The number of blocks without a phi for the variable.
pub open spec fn free(placed: Seq<bool>) -> nat
    decreases placed.len(),
{
    if placed.len() == 0 {
        0
    } else {
        free(placed.drop_last()) + if placed.last() {
            0nat
        } else {
            1
        }
    }
}

/// The state after the blocks from `d` on have been looked at for the frontier of `b`.
pub open spec fn visit(
    preds: Seq<Seq<usize>>,
    idom: Seq<usize>,
    g: usize,
    b: int,
    d: int,
    s: PlaceV,
) -> PlaceV
    decreases preds.len() - d,
{
    if d < 0 || d >= preds.len() {
        s
    } else if ssa::in_frontier(preds, idom, b, d) && !s.placed[d] {
        visit(
            preds,
            idom,
            g,
            b,
            d + 1,
            PlaceV {
                work: s.work.push(d as usize),
                placed: s.placed.update(d, true),
                phis: s.phis.update(d, with_phi(s.phis[d], g, s.next)),
                next: (s.next + 1) as usize,
            },
        )
    } else {
        visit(preds, idom, g, b, d + 1, s)
    }
}

/// A phi fewer is to be placed after one has been.
pub proof fn free_update(placed: Seq<bool>, d: int)
    requires
        0 <= d < placed.len(),
        !placed[d],
    ensures
        free(placed.update(d, true)) + 1 == free(placed),
    decreases placed.len(),
{
    if d == placed.len() - 1 {
        assert(placed.update(d, true).drop_last() =~= placed.drop_last());
    } else {
        assert(placed.update(d, true).drop_last() =~= placed.drop_last().update(d, true));
        free_update(placed.drop_last(), d);
    }
}

/// A visit places phis in blocks that had none, or leaves everything as it is.
pub proof fn visit_progress(
    preds: Seq<Seq<usize>>,
    idom: Seq<usize>,
    g: usize,
    b: int,
    d: int,
    s: PlaceV,
)
    requires
        s.placed.len() == preds.len(),
        s.phis.len() == preds.len(),
    ensures
        visit(preds, idom, g, b, d, s).placed.len() == preds.len(),
        visit(preds, idom, g, b, d, s).phis.len() == preds.len(),
        free(visit(preds, idom, g, b, d, s).placed) < free(s.placed) || visit(preds, idom, g, b, d, s)
            == s,
    decreases preds.len() - d,
{
    if 0 <= d < preds.len() {
        if ssa::in_frontier(preds, idom, b, d) && !s.placed[d] {
            free_update(s.placed, d);
            visit_progress(
                preds,
                idom,
                g,
                b,
                d + 1,
                PlaceV {
                    work: s.work.push(d as usize),
                    placed: s.placed.update(d, true),
                    phis: s.phis.update(d, with_phi(s.phis[d], g, s.next)),
                    next: (s.next + 1) as usize,
                },
            );
        } else {
            visit_progress(preds, idom, g, b, d + 1, s);
        }
    }
}

/// The state after all phis of a variable have been placed.
pub open spec fn place(preds: Seq<Seq<usize>>, idom: Seq<usize>, g: usize, s: PlaceV) -> PlaceV
    decreases free(s.placed), s.work.len(),
{
    if s.work.len() == 0 || s.placed.len() != preds.len() || s.phis.len() != preds.len() {
        s
    } else {
        let popped = PlaceV { work: s.work.drop_last(), ..s };
        proof {
            visit_progress(preds, idom, g, s.work.last() as int, 0, popped);
        }
        place(preds, idom, g, visit(preds, idom, g, s.work.last() as int, 0, popped))
    }
}

/// The phis and the next index after the phis of the variables from the `k`th on.
pub open spec fn place_all(
    blocks: Seq<BlockV>,
    preds: Seq<Seq<usize>>,
    idom: Seq<usize>,
    vars: Seq<usize>,
    k: int,
    phis: Seq<Phis>,
    next: usize,
) -> (Seq<Phis>, usize)
    decreases vars.len() - k,
{
    if k < 0 || k >= vars.len() {
        (phis, next)
    } else {
        let s = place(
            preds,
            idom,
            vars[k],
            PlaceV {
                work: def_blocks(blocks, vars[k], blocks.len() as int),
                placed: Seq::new(preds.len(), |i: int| false),
                phis,
                next,
            },
        );
        place_all(blocks, preds, idom, vars, k + 1, s.phis, s.next)
    }
}

/// The greater of two indices.
pub open spec fn greater(a: int, b: int) -> int {
    if a >= b {
        a
    } else {
        b
    }
}

/// The greatest index of an SSA value among some operands, or `least`.
pub open spec fn ops_max(ops: Seq<IrOperand>, least: int) -> int
    decreases ops.len(),
{
    if ops.len() == 0 {
        least
    } else {
        match ops.last() {
            IrOperand::Local(l) => greater(ops_max(ops.drop_last(), least), l as int),
            _ => ops_max(ops.drop_last(), least),
        }
    }
}

/// The greatest index that an instruction defines or uses, or `least`.
pub open spec fn inst_max(i: InstV, least: int) -> int {
    ops_max(
        ir::inst_operands(i),
        match ir::inst_dest(i) {
            Some(d) => greater(least, d as int),
            None => least,
        },
    )
}

/// The greatest index that a list of instructions defines or uses, or `least`.
pub open spec fn insts_max(instrs: Seq<InstV>, least: int) -> int
    decreases instrs.len(),
{
    if instrs.len() == 0 {
        least
    } else {
        inst_max(instrs.last(), insts_max(instrs.drop_last(), least))
    }
}

/// The greatest index that some blocks define or use, or `least`.
pub open spec fn blocks_max(blocks: Seq<BlockV>, least: int) -> int
    decreases blocks.len(),
{
    if blocks.len() == 0 {
        least
    } else {
        insts_max(blocks.last().instrs, blocks_max(blocks.drop_last(), least))
    }
}

/// The first index for new SSA values: above those in use, and at least 1000.
pub open spec fn fresh_base(blocks: Seq<BlockV>) -> int {
    greater(blocks_max(blocks, 0) + 1, 1000)
}

// ── Renaming ─────────────────────────────────────────────────────────────────

/// What renaming works from.
#[verifier::ext_equal]
pub struct RenameV {
    pub blocks: Seq<BlockV>,
    pub children: Seq<Seq<usize>>,
    pub succ: Seq<Seq<usize>>,
    pub phis: Seq<Phis>,
    pub promoted: Seq<usize>,
}

/// The values of variables at a point: the last entry of a variable counts.
pub type Env = Seq<(usize, IrOperand)>;

/// The value of a variable.
pub open spec fn value_of(env: Env, g: usize) -> IrOperand
    decreases env.len(),
{
    if env.len() == 0 {
        IrOperand::Undef
    } else if env.last().0 == g {
        env.last().1
    } else {
        value_of(env.drop_last(), g)
    }
}

/// The values and the instructions after one more instruction: stores to promoted variables set
/// their values, and loads from them become copies.
pub open spec fn renamed_inst(promoted: Seq<usize>, s: (Env, Seq<InstV>), i: InstV) -> (
    Env,
    Seq<InstV>,
) {
    match i {
        InstV::Store { value, ptr: IrOperand::Global(g) } => if promoted.contains(g) {
            (s.0.push((g, value)), s.1)
        } else {
            (s.0, s.1.push(i))
        },
        InstV::Load { dest, src: IrOperand::Global(g) } => if promoted.contains(g) {
            (s.0, s.1.push(const_fold::copy_of(dest, value_of(s.0, g))))
        } else {
            (s.0, s.1.push(i))
        },
        _ => (s.0, s.1.push(i)),
    }
}

/// The values and the instructions after a list of instructions.
pub open spec fn renamed(promoted: Seq<usize>, instrs: Seq<InstV>, s: (Env, Seq<InstV>)) -> (
    Env,
    Seq<InstV>,
)
    decreases instrs.len(),
{
    if instrs.len() == 0 {
        s
    } else {
        renamed_inst(promoted, renamed(promoted, instrs.drop_last(), s), instrs.last())
    }
}

/// Instructions with one more incoming value for the first phi that defines `dest`.
pub open spec fn with_incoming(instrs: Seq<InstV>, dest: usize, v: IrOperand, from: usize) -> Seq<
    InstV,
>
    decreases instrs.len(),
{
    if instrs.len() == 0 {
        instrs
    } else {
        match instrs[0] {
            InstV::Phi { dest: d, incoming } => if d == dest {
                instrs.update(0, InstV::Phi { dest: d, incoming: incoming.push((v, from)) })
            } else {
                seq![instrs[0]] + with_incoming(instrs.drop_first(), dest, v, from)
            },
            _ => seq![instrs[0]] + with_incoming(instrs.drop_first(), dest, v, from),
        }
    }
}

/// A block with an incoming value for each of its phis from the `k`th on.
pub open spec fn with_values(b: BlockV, phis: Phis, k: int, env: Env, from: usize) -> BlockV
    decreases phis.len() - k,
{
    if k < 0 || k >= phis.len() {
        b
    } else {
        with_values(
            BlockV {
                instrs: with_incoming(b.instrs, phis[k].1, value_of(env, phis[k].0), from),
                ..b
            },
            phis,
            k + 1,
            env,
            from,
        )
    }
}

/// The blocks with the phis of the successors of a block filled in, from the `k`th successor on.
pub open spec fn filled(r: RenameV, b: int, k: int, env: Env, new: Seq<BlockV>) -> Seq<BlockV>
    decreases r.succ[b].len() - k,
{
    if k < 0 || k >= r.succ[b].len() {
        new
    } else {
        let s = r.succ[b][k] as int;
        filled(
            r,
            b,
            k + 1,
            env,
            new.update(s, with_values(new[s], r.phis[s], 0, env, b as usize)),
        )
    }
}

/// The values at the start of a block: its phis define theirs.
pub open spec fn phi_values(phis: Phis) -> Env {
    phis.map_values(|p: (usize, usize)| (p.0, IrOperand::Local(p.1)))
}

/// The blocks after a block and, at most `fuel` levels down, those below it in the dominator tree
/// have been renamed.
pub open spec fn rename(r: RenameV, b: int, env: Env, new: Seq<BlockV>, fuel: nat) -> Seq<BlockV>
    decreases fuel, 1int, 0int,
{
    if fuel == 0 {
        new
    } else {
        let (after, out) = renamed(
            r.promoted,
            r.blocks[b].instrs,
            (env + phi_values(r.phis[b]), new[b].instrs),
        );
        let mid = filled(r, b, 0, after, new.update(b, BlockV { instrs: out, ..new[b] }));
        rename_children(r, b, 0, after, mid, (fuel - 1) as nat)
    }
}

/// The blocks after the children of a block from the `k`th on.
pub open spec fn rename_children(
    r: RenameV,
    b: int,
    k: int,
    env: Env,
    new: Seq<BlockV>,
    fuel: nat,
) -> Seq<BlockV>
    decreases fuel, 2int, r.children[b].len() - k,
{
    if k < 0 || k >= r.children[b].len() {
        new
    } else {
        rename_children(
            r,
            b,
            k + 1,
            env,
            rename(r, r.children[b][k] as int, env, new, fuel),
            fuel,
        )
    }
}

/// The blocks with their phis and nothing else.
pub open spec fn with_phis(blocks: Seq<BlockV>, phis: Seq<Phis>) -> Seq<BlockV> {
    Seq::new(
        blocks.len(),
        |b: int|
            BlockV {
                instrs: phis[b].map_values(
                    |p: (usize, usize)| InstV::Phi { dest: p.1, incoming: Seq::empty() },
                ),
                ..blocks[b]
            },
    )
}

/// The blocks that each block leads to, from the predecessors of the first `n` blocks.
pub open spec fn succ_from(preds: Seq<Seq<usize>>, p: int, n: int) -> Seq<usize>
    decreases n,
{
    if n <= 0 {
        Seq::empty()
    } else {
        succ_from(preds, p, n - 1) + cfg::repeated(preds[n - 1], p as usize, (n - 1) as usize)
    }
}

/// An instruction with a load from a variable of one value replaced by a copy.
pub open spec fn load_of(i: InstV, g: usize, v: IrOperand) -> InstV {
    match i {
        InstV::Load { dest, src } => if src == IrOperand::Global(g) {
            const_fold::copy_of(dest, v)
        } else {
            i
        },
        _ => i,
    }
}

/// Instructions with the loads from the variables of one value, from the `k`th on, replaced.
pub open spec fn loads_of(instrs: Seq<InstV>, simple: Seq<(usize, IrOperand)>, k: int) -> Seq<InstV>
    decreases simple.len() - k,
{
    if k < 0 || k >= simple.len() {
        instrs
    } else {
        loads_of(
            instrs.map_values(|i: InstV| load_of(i, simple[k].0, simple[k].1)),
            simple,
            k + 1,
        )
    }
}

/// Whether an instruction is not one that only serves promoted variables.
pub open spec fn remains(i: InstV, promoted: Seq<usize>) -> bool {
    match i {
        InstV::Alloc { dest, .. } => !promoted.contains(dest),
        InstV::Store { ptr: IrOperand::Global(g), .. } => !promoted.contains(g),
        _ => true,
    }
}

/// A block without what served promoted variables.
pub open spec fn cleaned(
    b: BlockV,
    simple: Seq<(usize, IrOperand)>,
    promoted: Seq<usize>,
) -> BlockV {
    BlockV {
        instrs: loads_of(b.instrs, simple, 0).filter(|i: InstV| remains(i, promoted)),
        ..b
    }
}

/// The predecessors of the blocks of a function.
pub open spec fn func_preds(blocks: Seq<BlockV>) -> Seq<Seq<usize>> {
    Seq::new(blocks.len(), |j: int| cfg::preds(blocks, j))
}

/// The immediate dominators of the blocks of a function.
pub open spec fn func_idom(blocks: Seq<BlockV>) -> Seq<usize> {
    Seq::new(blocks.len(), |b: int| domtree::idom_of(func_preds(blocks), b))
}

/// The names of variables with their values.
pub open spec fn firsts(simple: Seq<(usize, IrOperand)>) -> Seq<usize> {
    simple.map_values(|p: (usize, IrOperand)| p.0)
}

/// A function of several blocks after promotion.
pub open spec fn promoted_blocks(
    f: FuncV,
    phi: Seq<usize>,
    simple: Seq<(usize, IrOperand)>,
) -> Seq<BlockV> {
    let n = f.blocks.len();
    let blocks = cfg::with_preds(f).blocks;
    let preds = func_preds(f.blocks);
    let idom = func_idom(f.blocks);
    let (phis, _) = place_all(
        blocks,
        preds,
        idom,
        phi,
        0,
        Seq::new(n, |i: int| Seq::empty()),
        fresh_base(f.blocks) as usize,
    );
    let r = RenameV {
        blocks,
        children: Seq::new(n, |p: int| ssa::children_below(idom, n as int, p)),
        succ: Seq::new(n, |p: int| succ_from(preds, p, n as int)),
        phis,
        promoted: phi + firsts(simple),
    };
    let new = rename(r, 0, Seq::empty(), with_phis(blocks, phis), n);
    new.map_values(|b: BlockV| cleaned(b, simple, r.promoted))
}

// ── Single blocks ────────────────────────────────────────────────────────────

/// The value of a variable and the instructions after one more instruction.
pub open spec fn forwarded_inst(g: usize, s: (Option<IrOperand>, Seq<InstV>), i: InstV) -> (
    Option<IrOperand>,
    Seq<InstV>,
) {
    match i {
        InstV::Alloc { dest, .. } => if dest == g {
            s
        } else {
            (s.0, s.1.push(i))
        },
        InstV::Store { value, ptr } => if ptr == IrOperand::Global(g) {
            (Some(value), s.1)
        } else {
            (s.0, s.1.push(i))
        },
        InstV::Load { dest, src } => if src == IrOperand::Global(g) {
            (
                s.0,
                s.1.push(
                    const_fold::copy_of(
                        dest,
                        match s.0 {
                            Some(v) => v,
                            None => IrOperand::Int(0),
                        },
                    ),
                ),
            )
        } else {
            (s.0, s.1.push(i))
        },
        _ => (s.0, s.1.push(i)),
    }
}

/// The value of a variable and the instructions after a list of instructions: the variable is
/// gone, and its loads are copies of the value stored last.
pub open spec fn forwarded(g: usize, instrs: Seq<InstV>) -> (Option<IrOperand>, Seq<InstV>)
    decreases instrs.len(),
{
    if instrs.len() == 0 {
        (None, Seq::empty())
    } else {
        forwarded_inst(g, forwarded(g, instrs.drop_last()), instrs.last())
    }
}

/// Blocks with a variable promoted in each.
pub open spec fn forwarded_blocks(g: usize, blocks: Seq<BlockV>) -> Seq<BlockV> {
    blocks.map_values(|b: BlockV| BlockV { instrs: forwarded(g, b.instrs).1, ..b })
}

/// Blocks with the variables from the `k`th on promoted in each.
pub open spec fn forwarded_all(names: Seq<usize>, k: int, blocks: Seq<BlockV>) -> Seq<BlockV>
    decreases names.len() - k,
{
    if k < 0 || k >= names.len() {
        blocks
    } else {
        forwarded_all(names, k + 1, forwarded_blocks(names[k], blocks))
    }
}

// ── Promotion ────────────────────────────────────────────────────────────────

/// A function after promotion, and whether that changed it.
pub open spec fn promoted(f: FuncV) -> (FuncV, bool) {
    let names = promotable(f.blocks);
    if names.len() == 0 {
        (f, false)
    } else if f.blocks.len() == 1 {
        (FuncV { blocks: forwarded_all(names, 0, f.blocks), ..f }, true)
    } else {
        let idom = func_idom(f.blocks);
        let phi = phi_vars(cfg::with_preds(f).blocks, idom, names);
        let simple = simple_vars(cfg::with_preds(f).blocks, idom, names);
        if phi.len() == 0 && simple.len() == 0 {
            (cfg::with_preds(f), false)
        } else {
            (FuncV { blocks: promoted_blocks(f, phi, simple), ..f }, true)
        }
    }
}

/// There are indices enough for the phis that promotion may place.
pub open spec fn room(f: FuncV) -> bool {
    fresh_base(f.blocks) + f.blocks.len() * promotable(f.blocks).len() <= usize::MAX
}

// ── Phi lowering ─────────────────────────────────────────────────────────────

/// The position of the first instruction that ends a block, or the length.
pub open spec fn split_at(instrs: Seq<InstV>) -> int
    decreases instrs.len(),
{
    if instrs.len() == 0 {
        0
    } else {
        let k = split_at(instrs.drop_last());
        if k < instrs.len() - 1 || ir::terminator(instrs.last()) {
            k
        } else {
            instrs.len() as int
        }
    }
}

/// The copies among some that belong to the block at a position.
pub open spec fn copies_to(moves: Seq<MoveV>, k: int) -> Seq<InstV>
    decreases moves.len(),
{
    if moves.len() == 0 {
        Seq::empty()
    } else {
        let before = copies_to(moves.drop_last(), k);
        if moves.last().label == k {
            before.push(const_fold::copy_of(moves.last().dest, moves.last().value))
        } else {
            before
        }
    }
}

/// Whether a copy changes an SSA value.
pub open spec fn overwrites(i: InstV, l: usize) -> bool {
    i matches InstV::Arith { dest, lhs, .. } && dest == l && lhs != IrOperand::Local(l)
}

/// Whether one of some copies changes an SSA value.
pub open spec fn overwritten(copies: Seq<InstV>, l: usize) -> bool {
    exists|j: int| 0 <= j < copies.len() && overwrites(#[trigger] copies[j], l)
}

/// Whether what a copy takes is changed by a copy before it.
pub open spec fn needs_saving(copies: Seq<InstV>, k: int) -> bool {
    copies[k] matches InstV::Arith { lhs, .. } && (lhs matches IrOperand::Local(l) && overwritten(
        copies.take(k),
        l,
    ))
}

/// The copies that keep what the first `n` of some copies take and a copy before them changes, in
/// SSA values from `base` on.
pub open spec fn saves(copies: Seq<InstV>, n: int, base: int) -> Seq<InstV>
    decreases n,
{
    if n <= 0 {
        Seq::empty()
    } else {
        let before = saves(copies, n - 1, base);
        if needs_saving(copies, n - 1) {
            before.push(
                const_fold::copy_of((base + n - 1) as usize, copies[n - 1]->Arith_lhs),
            )
        } else {
            before
        }
    }
}

/// A copy that takes what has been kept for it, where something has.
pub open spec fn settled(copies: Seq<InstV>, k: int, base: int) -> InstV {
    if needs_saving(copies, k) {
        const_fold::copy_of(
            copies[k]->Arith_dest,
            IrOperand::Local((base + k) as usize),
        )
    } else {
        copies[k]
    }
}

/// Copies that are carried out at once: each takes a value from before all of them.
pub open spec fn at_once(copies: Seq<InstV>, base: int) -> Seq<InstV> {
    saves(copies, copies.len() as int, base) + Seq::new(
        copies.len(),
        |k: int| settled(copies, k, base),
    )
}

/// The copies at the end of the block at a position that stand for phis.
pub open spec fn copies_at(blocks: Seq<BlockV>, k: int) -> Seq<InstV> {
    at_once(copies_to(ir_to_koopa::blocks_moves(blocks), k), fresh_base(blocks))
}

/// There are indices enough for the values that lowering may keep.
pub open spec fn lowering_room(f: FuncV) -> bool {
    fresh_base(f.blocks) + ir_to_koopa::blocks_moves(f.blocks).len() <= usize::MAX
}

/// A block with copies before its end, and without phis.
pub open spec fn lowered_block(b: BlockV, copies: Seq<InstV>) -> BlockV {
    let k = split_at(b.instrs);
    BlockV {
        instrs: ir_to_koopa::without_phis(b.instrs.take(k)) + copies + ir_to_koopa::without_phis(
            b.instrs.skip(k),
        ),
        ..b
    }
}

/// A function whose phis, which name blocks by position, have become copies that are carried out
/// at once.
pub open spec fn lowered(f: FuncV) -> FuncV {
    FuncV {
        blocks: Seq::new(
            f.blocks.len(),
            |k: int| lowered_block(f.blocks[k], copies_at(f.blocks, k)),
        ),
        ..f
    }
}

/// Lowering leaves no phi.
pub proof fn lowered_has_no_phi(f: FuncV, k: int, i: int)
    requires
        0 <= k < f.blocks.len(),
        0 <= i < lowered(f).blocks[k].instrs.len(),
    ensures
        !(lowered(f).blocks[k].instrs[i] is Phi),
{
    let instrs = f.blocks[k].instrs;
    let s = split_at(instrs);
    let a = instrs.take(s);
    let c = instrs.skip(s);
    a.filter_lemma(|i: InstV| !(i is Phi));
    c.filter_lemma(|i: InstV| !(i is Phi));
    copies_at_are_arith(f.blocks, k);
    let first = ir_to_koopa::without_phis(a);
    let mid = copies_at(f.blocks, k);
    let last = ir_to_koopa::without_phis(c);
    if i < first.len() {
        assert(lowered(f).blocks[k].instrs[i] == first[i]);
    } else if i < first.len() + mid.len() {
        assert(lowered(f).blocks[k].instrs[i] == mid[i - first.len()]);
    } else {
        assert(lowered(f).blocks[k].instrs[i] == last[i - first.len() - mid.len()]);
    }
}

/// The copies of phis are additions of zero.
pub proof fn copies_are_arith(moves: Seq<MoveV>, k: int)
    ensures
        forall|i: int| 0 <= i < copies_to(moves, k).len() ==> #[trigger] copies_to(moves, k)[i] is Arith,
    decreases moves.len(),
{
    if moves.len() > 0 {
        copies_are_arith(moves.drop_last(), k);
        let before = copies_to(moves.drop_last(), k);
        assert forall|i: int| 0 <= i < copies_to(moves, k).len() implies #[trigger] copies_to(
            moves,
            k,
        )[i] is Arith by {
            if i < before.len() {
                assert(before[i] is Arith);
            }
        }
    }
}

proof fn saves_are_arith(copies: Seq<InstV>, n: int, base: int)
    ensures
        forall|i: int|
            0 <= i < saves(copies, n, base).len() ==> #[trigger] saves(copies, n, base)[i] is Arith,
        n >= 0 ==> saves(copies, n, base).len() <= n,
    decreases n,
{
    if n > 0 {
        saves_are_arith(copies, n - 1, base);
        let before = saves(copies, n - 1, base);
        assert forall|i: int| 0 <= i < saves(copies, n, base).len() implies #[trigger] saves(
            copies,
            n,
            base,
        )[i] is Arith by {
            if i < before.len() {
                assert(before[i] is Arith);
            }
        }
    }
}

/// The copies that stand for phis are additions of zero.
pub proof fn copies_at_are_arith(blocks: Seq<BlockV>, k: int)
    ensures
        forall|i: int|
            0 <= i < copies_at(blocks, k).len() ==> #[trigger] copies_at(blocks, k)[i] is Arith,
{
    let copies = copies_to(ir_to_koopa::blocks_moves(blocks), k);
    let base = fresh_base(blocks);
    let first = saves(copies, copies.len() as int, base);
    copies_are_arith(ir_to_koopa::blocks_moves(blocks), k);
    saves_are_arith(copies, copies.len() as int, base);
    assert forall|i: int| 0 <= i < copies_at(blocks, k).len() implies #[trigger] copies_at(
        blocks,
        k,
    )[i] is Arith by {
        if i < first.len() {
            assert(copies_at(blocks, k)[i] == first[i]);
        } else {
            assert(copies[i - first.len()] is Arith);
        }
    }
}

/// There are no more copies than values that come in.
pub proof fn copies_are_fewer(moves: Seq<MoveV>, k: int)
    ensures
        copies_to(moves, k).len() <= moves.len(),
    decreases moves.len(),
{
    if moves.len() > 0 {
        copies_are_fewer(moves.drop_last(), k);
    }
}

/// Where no copy takes what a copy before it changes, nothing has to be kept.
pub proof fn nothing_saved(copies: Seq<InstV>, base: int)
    requires
        forall|k: int| 0 <= k < copies.len() ==> !(#[trigger] needs_saving(copies, k)),
    ensures
        at_once(copies, base) == copies,
{
    no_saves(copies, copies.len() as int, base);
    assert forall|k: int| 0 <= k < copies.len() implies #[trigger] settled(copies, k, base)
        == copies[k] by {
        assert(!needs_saving(copies, k));
    }
    assert(at_once(copies, base) =~= copies);
}

proof fn no_saves(copies: Seq<InstV>, n: int, base: int)
    requires
        n <= copies.len(),
        forall|k: int| 0 <= k < copies.len() ==> !(#[trigger] needs_saving(copies, k)),
    ensures
        saves(copies, n, base) == Seq::<InstV>::empty(),
    decreases n,
{
    if n > 0 {
        no_saves(copies, n - 1, base);
        assert(!needs_saving(copies, n - 1));
    }
}

} // verus!

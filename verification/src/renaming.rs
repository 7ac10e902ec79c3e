//! Placing phis, and renaming the variables of a function to SSA values.

use crate::cfg;
use crate::ir::{self, BlockV, InstV, IrBlock, IrInst, IrOperand};
use crate::opt::const_fold;
use crate::promotion::{self, Phis, PlaceV, RenameV};
use crate::ssa;
use std::collections::HashSet;
use vstd::prelude::*;

verus! {

broadcast use {
    vstd::std_specs::hash::group_hash_axioms,
    crate::ir::insts_push,
    crate::ir::blocks_push,
};

/// The phis of all blocks.
pub open spec fn phi_lists(v: Seq<Vec<(usize, usize)>>) -> Seq<Phis> {
    v.map_values(|p: Vec<(usize, usize)>| p@)
}

/// Whether a list holds an index.
pub(crate) fn holds(v: &Vec<usize>, x: usize) -> (r: bool)
    ensures
        r == v@.contains(x),
{
    let mut i: usize = 0;
    while i < v.len()
        invariant
            i <= v.len(),
            forall|k: int| 0 <= k < i ==> v@[k] != x,
        decreases v.len() - i,
    {
        if v[i] == x {
            return true;
        }
        i = i + 1;
    }
    false
}

// ── Placing phis ─────────────────────────────────────────────────────────────

/// Adds a phi for a variable to those of a block.
#[verifier::loop_isolation(false)]
fn put_phi(phis: &mut Vec<(usize, usize)>, g: usize, dest: usize)
    ensures
        final(phis)@ == promotion::with_phi(old(phis)@, g, dest),
{
    let ghost all = phis@;
    let mut i: usize = 0;
    assert(all.skip(0) =~= all);
    assert(all.take(0) + promotion::with_phi(all, g, dest) =~= promotion::with_phi(all, g, dest));
    while i < phis.len()
        invariant
            i <= phis.len(),
            phis@ == all,
            promotion::with_phi(all, g, dest) == all.take(i as int) + promotion::with_phi(
                all.skip(i as int),
                g,
                dest,
            ),
        decreases phis.len() - i,
    {
        if phis[i].0 == g {
            phis.set(i, (g, dest));
            assert(phis@ =~= all.take(i as int) + all.skip(i as int).update(0, (g, dest)));
            return;
        }
        proof {
            let rest = promotion::with_phi(all.skip(i + 1), g, dest);
            assert(all.skip(i as int).drop_first() =~= all.skip(i + 1));
            assert(all.take(i as int) + (seq![all[i as int]] + rest) =~= all.take(i + 1) + rest);
        }
        i = i + 1;
    }
    phis.push((g, dest));
    assert(phis@ =~= all.take(i as int) + seq![(g, dest)]);
}

proof fn all_free(n: nat)
    ensures
        promotion::free(Seq::new(n, |i: int| false)) == n,
    decreases n,
{
    if n > 0 {
        all_free((n - 1) as nat);
        assert(Seq::new(n, |i: int| false).drop_last() =~= Seq::new((n - 1) as nat, |i: int| false));
    }
}

/// A list of `false`.
fn none_placed(n: usize) -> (r: Vec<bool>)
    ensures
        r@ == Seq::new(n as nat, |i: int| false),
{
    let mut out: Vec<bool> = Vec::new();
    let mut i: usize = 0;
    while i < n
        invariant
            i <= n,
            out@ == Seq::new(i as nat, |k: int| false),
        decreases n - i,
    {
        out.push(false);
        i = i + 1;
    }
    out
}

/// Places the phis of a variable, and returns the next index of an SSA value.
#[verifier::loop_isolation(false)]
fn place_var(
    work: Vec<usize>,
    df: &Vec<HashSet<usize>>,
    g: usize,
    phis: &mut Vec<Vec<(usize, usize)>>,
    next: usize,
    Ghost(preds): Ghost<Seq<Seq<usize>>>,
    Ghost(idom): Ghost<Seq<usize>>,
) -> (r: usize)
    requires
        df@.len() == preds.len(),
        old(phis)@.len() == preds.len(),
        forall|a: int, b: usize|
            0 <= a < df@.len() ==> (#[trigger] df@[a]@.contains(b) <==> b < df@.len()
                && ssa::in_frontier(preds, idom, a, b as int)),
        forall|i: int| 0 <= i < work@.len() ==> #[trigger] work@[i] < preds.len(),
        next + preds.len() <= usize::MAX,
    ensures
        final(phis)@.len() == preds.len(),
        ({
            let s = promotion::place(
                preds,
                idom,
                g,
                PlaceV {
                    work: work@,
                    placed: Seq::new(preds.len(), |i: int| false),
                    phis: phi_lists(old(phis)@),
                    next,
                },
            );
            phi_lists(final(phis)@) == s.phis && r == s.next
        }),
        r <= next + preds.len(),
{
    let n = df.len();
    let ghost first = next;
    let mut work = work;
    let mut next = next;
    let mut placed = none_placed(n);
    let ghost start = PlaceV { work: work@, placed: placed@, phis: phi_lists(phis@), next };
    proof {
        all_free(n as nat);
    }
    while work.len() > 0
        invariant
            placed@.len() == n,
            phis@.len() == n,
            forall|i: int| 0 <= i < work@.len() ==> #[trigger] work@[i] < n,
            next + promotion::free(placed@) <= first + n,
            promotion::place(preds, idom, g, start) == promotion::place(
                preds,
                idom,
                g,
                PlaceV { work: work@, placed: placed@, phis: phi_lists(phis@), next },
            ),
        decreases promotion::free(placed@), work@.len(),
    {
        let ghost top = PlaceV { work: work@, placed: placed@, phis: phi_lists(phis@), next };
        let b = work[work.len() - 1];
        work.pop();
        let ghost popped = PlaceV { work: work@, ..top };
        assert(popped.work =~= top.work.drop_last());
        let mut d: usize = 0;
        while d < n
            invariant
                d <= n,
                placed@.len() == n,
                phis@.len() == n,
                forall|i: int| 0 <= i < work@.len() ==> #[trigger] work@[i] < n,
                next + promotion::free(placed@) <= first + n,
                promotion::visit(preds, idom, g, b as int, 0, popped) == promotion::visit(
                    preds,
                    idom,
                    g,
                    b as int,
                    d as int,
                    PlaceV { work: work@, placed: placed@, phis: phi_lists(phis@), next },
                ),
            decreases n - d,
        {
            if df[b].contains(&d) && !placed[d] {
                let ghost was = phi_lists(phis@);
                proof {
                    promotion::free_update(placed@, d as int);
                }
                put_phi(&mut phis[d], g, next);
                placed.set(d, true);
                work.push(d);
                next = next + 1;
                assert(phi_lists(phis@) =~= was.update(
                    d as int,
                    promotion::with_phi(was[d as int], g, (next - 1) as usize),
                ));
            }
            d = d + 1;
        }
        proof {
            promotion::visit_progress(preds, idom, g, b as int, 0, popped);
        }
    }
    next
}

/// The phis that all blocks need for some variables.
#[verifier::loop_isolation(false)]
pub(crate) fn place_phis(
    blocks: &Vec<IrBlock>,
    df: &Vec<HashSet<usize>>,
    vars: &Vec<usize>,
    first: usize,
    Ghost(preds): Ghost<Seq<Seq<usize>>>,
    Ghost(idom): Ghost<Seq<usize>>,
) -> (r: Vec<Vec<(usize, usize)>>)
    requires
        blocks@.len() == preds.len(),
        df@.len() == preds.len(),
        forall|a: int, b: usize|
            0 <= a < df@.len() ==> (#[trigger] df@[a]@.contains(b) <==> b < df@.len()
                && ssa::in_frontier(preds, idom, a, b as int)),
        first + preds.len() * vars@.len() <= usize::MAX,
    ensures
        r@.len() == preds.len(),
        phi_lists(r@) == promotion::place_all(
            ir::blocks_view(blocks@),
            preds,
            idom,
            vars@,
            0,
            Seq::new(preds.len(), |i: int| Seq::empty()),
            first,
        ).0,
{
    let n = blocks.len();
    let ghost all = ir::blocks_view(blocks@);
    let mut phis: Vec<Vec<(usize, usize)>> = Vec::new();
    let mut i: usize = 0;
    while i < n
        invariant
            i <= n,
            phis@.len() == i,
            forall|k: int| 0 <= k < i ==> (#[trigger] phis@[k])@ == Seq::<(usize, usize)>::empty(),
        decreases n - i,
    {
        phis.push(Vec::new());
        i = i + 1;
    }
    let ghost none = Seq::new(preds.len(), |i: int| Seq::<(usize, usize)>::empty());
    assert(phi_lists(phis@) =~= none);
    let mut next = first;
    let mut k: usize = 0;
    while k < vars.len()
        invariant
            k <= vars.len(),
            phis@.len() == n,
            next <= first + k * n,
            promotion::place_all(all, preds, idom, vars@, 0, none, first) == promotion::place_all(
                all,
                preds,
                idom,
                vars@,
                k as int,
                phi_lists(phis@),
                next,
            ),
        decreases vars.len() - k,
    {
        let defs = ssa::find_def_blocks(blocks, vars[k]);
        proof {
            let m = vars@.len();
            assert(first + k * n + n <= usize::MAX) by (nonlinear_arith)
                requires
                    k < m,
                    first + n * m <= usize::MAX,
            ;
        }
        next = place_var(defs, df, vars[k], &mut phis, next, Ghost(preds), Ghost(idom));
        assert(k * n + n == (k + 1) * n) by (nonlinear_arith);
        k = k + 1;
    }
    phis
}

/// The blocks with their phis and nothing else.
#[verifier::loop_isolation(false)]
pub(crate) fn start_blocks(blocks: &Vec<IrBlock>, phis: &Vec<Vec<(usize, usize)>>) -> (r: Vec<
    IrBlock,
>)
    requires
        phis@.len() == blocks@.len(),
    ensures
        ir::blocks_view(r@) == promotion::with_phis(
            ir::blocks_view(blocks@),
            phi_lists(phis@),
        ),
{
    let ghost all = promotion::with_phis(ir::blocks_view(blocks@), phi_lists(phis@));
    let mut out: Vec<IrBlock> = Vec::new();
    let mut b: usize = 0;
    assert(ir::blocks_view(out@) =~= all.take(0));
    while b < blocks.len()
        invariant
            b <= blocks.len(),
            ir::blocks_view(out@) == all.take(b as int),
        decreases blocks.len() - b,
    {
        let list = &phis[b];
        let ghost want = all[b as int].instrs;
        let mut instrs: Vec<IrInst> = Vec::new();
        let mut i: usize = 0;
        assert(ir::insts(instrs@) =~= want.take(0));
        while i < list.len()
            invariant
                i <= list.len(),
                ir::insts(instrs@) == want.take(i as int),
            decreases list.len() - i,
        {
            let phi = IrInst::Phi { dest: list[i].1, incoming: Vec::new() };
            assert(phi@->Phi_incoming =~= Seq::empty());
            assert(phi@ == want[i as int]);
            instrs.push(phi);
            i = i + 1;
            assert(want.take(i as int) =~= want.take(i - 1).push(want[i - 1]));
        }
        assert(want.take(i as int) =~= want);
        out.push(
            IrBlock { label: blocks[b].label, instrs, preds: ir::copy_indices(&blocks[b].preds) },
        );
        b = b + 1;
        assert(all.take(b as int) =~= all.take(b - 1).push(all[b - 1]));
    }
    assert(all.take(b as int) =~= all);
    out
}

// ── Renaming ─────────────────────────────────────────────────────────────────

/// What renaming works from.
pub struct Renamer<'a> {
    pub blocks: &'a Vec<IrBlock>,
    /// The children of each block in the dominator tree.
    pub children: Vec<Vec<usize>>,
    /// The blocks that each block leads to.
    pub succ: Vec<Vec<usize>>,
    /// The phis of each block.
    pub phis: Vec<Vec<(usize, usize)>>,
    /// The variables that are promoted.
    pub promoted: Vec<usize>,
}

impl<'a> View for Renamer<'a> {
    type V = RenameV;

    open spec fn view(&self) -> RenameV {
        RenameV {
            blocks: ir::blocks_view(self.blocks@),
            children: cfg::lists(self.children@),
            succ: cfg::lists(self.succ@),
            phis: phi_lists(self.phis@),
            promoted: self.promoted@,
        }
    }
}

/// The entries of some lists are below `n`.
pub open spec fn below(v: Seq<Vec<usize>>, n: int) -> bool {
    forall|b: int, k: int|
        #![trigger v[b]@[k]]
        0 <= b < v.len() && 0 <= k < v[b]@.len() ==> v[b]@[k] < n
}

impl<'a> Renamer<'a> {
    pub open spec fn wf(self) -> bool {
        &&& self.children@.len() == self.blocks@.len()
        &&& self.succ@.len() == self.blocks@.len()
        &&& self.phis@.len() == self.blocks@.len()
        &&& below(self.children@, self.blocks@.len() as int)
        &&& below(self.succ@, self.blocks@.len() as int)
    }
}

/// The value of a variable.
fn current(env: &Vec<(usize, IrOperand)>, g: usize) -> (r: IrOperand)
    ensures
        r == promotion::value_of(env@, g),
{
    let mut i = env.len();
    assert(env@.take(i as int) =~= env@);
    while i > 0
        invariant
            i <= env.len(),
            promotion::value_of(env@, g) == promotion::value_of(env@.take(i as int), g),
        decreases i,
    {
        assert(env@.take(i as int).drop_last() =~= env@.take(i - 1));
        if env[i - 1].0 == g {
            return env[i - 1].1;
        }
        i = i - 1;
    }
    IrOperand::Undef
}

/// Renames one instruction.
fn rename_inst(
    promoted: &Vec<usize>,
    inst: &IrInst,
    env: &mut Vec<(usize, IrOperand)>,
    out: &mut Vec<IrInst>,
)
    ensures
        (final(env)@, ir::insts(final(out)@)) == promotion::renamed_inst(
            promoted@,
            (old(env)@, ir::insts(old(out)@)),
            inst@,
        ),
        old(env)@.is_prefix_of(final(env)@),
{
    match inst {
        IrInst::Store { value, ptr } => {
            if let IrOperand::Global(g) = *ptr {
                if holds(promoted, g) {
                    env.push((g, *value));
                    return;
                }
            }
        },
        IrInst::Load { dest, src } => {
            if let IrOperand::Global(g) = *src {
                if holds(promoted, g) {
                    out.push(const_fold::copy_inst(*dest, current(env, g)));
                    return;
                }
            }
        },
        _ => {},
    }
    out.push(inst.clone());
}

/// Renames a list of instructions.
#[verifier::loop_isolation(false)]
fn rename_insts(
    promoted: &Vec<usize>,
    instrs: &Vec<IrInst>,
    env: &mut Vec<(usize, IrOperand)>,
    out: &mut Vec<IrInst>,
)
    ensures
        (final(env)@, ir::insts(final(out)@)) == promotion::renamed(
            promoted@,
            ir::insts(instrs@),
            (old(env)@, ir::insts(old(out)@)),
        ),
        old(env)@.is_prefix_of(final(env)@),
{
    let ghost list = ir::insts(instrs@);
    let ghost start = (env@, ir::insts(out@));
    let mut i: usize = 0;
    while i < instrs.len()
        invariant
            i <= instrs.len(),
            (env@, ir::insts(out@)) == promotion::renamed(promoted@, list.take(i as int), start),
            start.0.is_prefix_of(env@),
        decreases instrs.len() - i,
    {
        assert(list[i as int] == instrs@[i as int]@);
        assert(list.take(i + 1).drop_last() =~= list.take(i as int));
        rename_inst(promoted, &instrs[i], env, out);
        i = i + 1;
    }
    assert(list.take(i as int) =~= list);
}

/// Adds an incoming value to the first phi that defines `dest`.
#[verifier::loop_isolation(false)]
fn add_incoming(instrs: &mut Vec<IrInst>, dest: usize, v: IrOperand, from: usize)
    ensures
        ir::insts(final(instrs)@) == promotion::with_incoming(
            ir::insts(old(instrs)@),
            dest,
            v,
            from,
        ),
{
    let ghost all = ir::insts(instrs@);
    let mut i: usize = 0;
    assert(all.skip(0) =~= all);
    assert(all.take(0) + promotion::with_incoming(all, dest, v, from)
        =~= promotion::with_incoming(all, dest, v, from));
    while i < instrs.len()
        invariant
            i <= instrs.len(),
            ir::insts(instrs@) == all,
            promotion::with_incoming(all, dest, v, from) == all.take(i as int)
                + promotion::with_incoming(all.skip(i as int), dest, v, from),
        decreases instrs.len() - i,
    {
        assert(all[i as int] == instrs@[i as int]@);
        let here = match &instrs[i] {
            IrInst::Phi { dest: d, .. } => *d == dest,
            _ => false,
        };
        if here {
            if let IrInst::Phi { incoming, .. } = &mut instrs[i] {
                incoming.push((v, from));
            }
            assert(ir::insts(instrs@) =~= all.take(i as int) + all.skip(i as int).update(
                0,
                instrs@[i as int]@,
            ));
            return;
        }
        proof {
            let rest = promotion::with_incoming(all.skip(i + 1), dest, v, from);
            assert(all.skip(i as int).drop_first() =~= all.skip(i + 1));
            assert(all.take(i as int) + (seq![all[i as int]] + rest) =~= all.take(i + 1) + rest);
        }
        i = i + 1;
    }
    assert(all.take(i as int) + all.skip(i as int) =~= all);
}

/// Fills in the values of the phis of a block on one way into it.
#[verifier::loop_isolation(false)]
fn fill_phis(
    block: &mut IrBlock,
    phis: &Vec<(usize, usize)>,
    env: &Vec<(usize, IrOperand)>,
    from: usize,
)
    ensures
        final(block)@ == promotion::with_values(old(block)@, phis@, 0, env@, from),
{
    let ghost start = block@;
    let mut k: usize = 0;
    while k < phis.len()
        invariant
            k <= phis.len(),
            promotion::with_values(start, phis@, 0, env@, from) == promotion::with_values(
                block@,
                phis@,
                k as int,
                env@,
                from,
            ),
        decreases phis.len() - k,
    {
        let v = current(env, phis[k].0);
        add_incoming(&mut block.instrs, phis[k].1, v, from);
        k = k + 1;
    }
}

/// Fills in the phis of the blocks that a block leads to.
#[verifier::loop_isolation(false)]
fn fill_successors(
    r: &Renamer,
    b: usize,
    env: &Vec<(usize, IrOperand)>,
    new: &mut Vec<IrBlock>,
)
    requires
        r.wf(),
        b < r.blocks@.len(),
        old(new)@.len() == r.blocks@.len(),
    ensures
        final(new)@.len() == old(new)@.len(),
        ir::blocks_view(final(new)@) == promotion::filled(
            r@,
            b as int,
            0,
            env@,
            ir::blocks_view(old(new)@),
        ),
{
    let ghost start = ir::blocks_view(new@);
    let mut k: usize = 0;
    assert(r@.succ[b as int] == r.succ@[b as int]@);
    while k < r.succ[b].len()
        invariant
            k <= r.succ@[b as int]@.len(),
            new@.len() == r.blocks@.len(),
            promotion::filled(r@, b as int, 0, env@, start) == promotion::filled(
                r@,
                b as int,
                k as int,
                env@,
                ir::blocks_view(new@),
            ),
        decreases r.succ@[b as int]@.len() - k,
    {
        let ghost was = ir::blocks_view(new@);
        let s = r.succ[b][k];
        assert(s < r.blocks@.len());
        assert(r@.phis[s as int] == r.phis@[s as int]@);
        fill_phis(&mut new[s], &r.phis[s], env, b);
        assert(ir::blocks_view(new@) =~= was.update(
            s as int,
            promotion::with_values(was[s as int], r@.phis[s as int], 0, env@, b),
        ));
        k = k + 1;
    }
}

/// Adds the values that the phis of a block define.
#[verifier::loop_isolation(false)]
fn define_phis(phis: &Vec<(usize, usize)>, env: &mut Vec<(usize, IrOperand)>)
    ensures
        final(env)@ == old(env)@ + promotion::phi_values(phis@),
{
    let ghost start = env@;
    let ghost all = promotion::phi_values(phis@);
    let mut k: usize = 0;
    while k < phis.len()
        invariant
            k <= phis.len(),
            env@ == start + all.take(k as int),
        decreases phis.len() - k,
    {
        env.push((phis[k].0, IrOperand::Local(phis[k].1)));
        k = k + 1;
        assert(env@ =~= start + all.take(k as int));
    }
    assert(all.take(k as int) =~= all);
}

/// Renames a block and, at most `fuel` levels down, those below it in the dominator tree.
#[verifier::loop_isolation(false)]
pub(crate) fn rename_multi(
    r: &Renamer,
    b: usize,
    env: &mut Vec<(usize, IrOperand)>,
    new: &mut Vec<IrBlock>,
    fuel: usize,
)
    requires
        r.wf(),
        b < r.blocks@.len(),
        old(new)@.len() == r.blocks@.len(),
    ensures
        final(env)@ == old(env)@,
        final(new)@.len() == old(new)@.len(),
        ir::blocks_view(final(new)@) == promotion::rename(
            r@,
            b as int,
            old(env)@,
            ir::blocks_view(old(new)@),
            fuel as nat,
        ),
    decreases fuel,
{
    if fuel == 0 {
        return;
    }
    let depth = env.len();
    let ghost before = env@;
    let ghost start = ir::blocks_view(new@);
    assert(r@.phis[b as int] == r.phis@[b as int]@);
    assert(r@.children[b as int] == r.children@[b as int]@);
    assert(r@.blocks[b as int] == r.blocks@[b as int]@);
    define_phis(&r.phis[b], env);
    let mut out: Vec<IrInst> = Vec::new();
    std::mem::swap(&mut out, &mut new[b].instrs);
    assert(ir::insts(out@) == start[b as int].instrs);
    rename_insts(&r.promoted, &r.blocks[b].instrs, env, &mut out);
    new[b].instrs = out;
    let ghost after = env@;
    assert(ir::blocks_view(new@) =~= start.update(
        b as int,
        BlockV { instrs: ir::insts(out@), ..start[b as int] },
    ));
    fill_successors(r, b, env, new);
    let ghost mid = ir::blocks_view(new@);
    let mut k: usize = 0;
    while k < r.children[b].len()
        invariant
            k <= r.children@[b as int]@.len(),
            env@ == after,
            new@.len() == r.blocks@.len(),
            promotion::rename_children(r@, b as int, 0, after, mid, (fuel - 1) as nat)
                == promotion::rename_children(
                r@,
                b as int,
                k as int,
                after,
                ir::blocks_view(new@),
                (fuel - 1) as nat,
            ),
        decreases r.children@[b as int]@.len() - k,
    {
        let child = r.children[b][k];
        assert(child < r.blocks@.len());
        rename_multi(r, child, env, new, fuel - 1);
        k = k + 1;
    }
    env.truncate(depth);
    assert(env@ =~= before);
}

// ── Cleaning up ──────────────────────────────────────────────────────────────

/// Replaces the loads from a variable by copies of a value.
#[verifier::loop_isolation(false)]
fn replace_loads(instrs: &mut Vec<IrInst>, g: usize, v: IrOperand)
    ensures
        ir::insts(final(instrs)@) == ir::insts(old(instrs)@).map_values(
            |i: InstV| promotion::load_of(i, g, v),
        ),
{
    let ghost start = ir::insts(instrs@);
    let ghost want = start.map_values(|i: InstV| promotion::load_of(i, g, v));
    let n = instrs.len();
    let mut i: usize = 0;
    while i < n
        invariant
            i <= n,
            instrs@.len() == n,
            forall|k: int|
                0 <= k < n ==> (#[trigger] ir::insts(instrs@)[k]) == if k < i {
                    want[k]
                } else {
                    start[k]
                },
        decreases n - i,
    {
        let ghost mid = ir::insts(instrs@);
        assert(mid[i as int] == instrs@[i as int]@);
        let copy = match &instrs[i] {
            IrInst::Load { dest, src } => if *src == IrOperand::Global(g) {
                Some(const_fold::copy_inst(*dest, v))
            } else {
                None
            },
            _ => None,
        };
        if let Some(c) = copy {
            instrs.set(i, c);
        }
        assert(ir::insts(instrs@) =~= mid.update(i as int, want[i as int]));
        i = i + 1;
    }
    assert(ir::insts(instrs@) =~= want);
}

fn does_remain(inst: &IrInst, promoted: &Vec<usize>) -> (r: bool)
    ensures
        r == promotion::remains(inst@, promoted@),
{
    match inst {
        IrInst::Alloc { dest, .. } => !holds(promoted, *dest),
        IrInst::Store { ptr, .. } => match ptr {
            IrOperand::Global(g) => !holds(promoted, *g),
            _ => true,
        },
        _ => true,
    }
}

/// Replaces the loads from the variables of one value, and removes what served promoted variables.
#[verifier::loop_isolation(false)]
fn clean_block(block: &mut IrBlock, simple: &Vec<(usize, IrOperand)>, promoted: &Vec<usize>)
    ensures
        final(block)@ == promotion::cleaned(old(block)@, simple@, promoted@),
{
    let ghost start = block@;
    let mut k: usize = 0;
    while k < simple.len()
        invariant
            k <= simple.len(),
            block@ == (BlockV { instrs: block@.instrs, ..start }),
            promotion::loads_of(start.instrs, simple@, 0) == promotion::loads_of(
                block@.instrs,
                simple@,
                k as int,
            ),
        decreases simple.len() - k,
    {
        replace_loads(&mut block.instrs, simple[k].0, simple[k].1);
        k = k + 1;
    }
    let ghost list = block@.instrs;
    let ghost keep = |i: InstV| promotion::remains(i, promoted@);
    let mut out: Vec<IrInst> = Vec::new();
    let mut i: usize = 0;
    reveal(Seq::filter);
    assert(ir::insts(out@) =~= list.take(0).filter(keep));
    while i < block.instrs.len()
        invariant
            i <= block.instrs.len(),
            ir::insts(out@) == list.take(i as int).filter(keep),
        decreases block.instrs.len() - i,
    {
        assert(list[i as int] == block.instrs@[i as int]@);
        assert(list.take(i + 1).drop_last() =~= list.take(i as int));
        if does_remain(&block.instrs[i], promoted) {
            out.push(block.instrs[i].clone());
        }
        i = i + 1;
    }
    assert(list.take(i as int) =~= list);
    block.instrs = out;
}

/// Cleans all blocks.
#[verifier::loop_isolation(false)]
pub(crate) fn clean_blocks(
    blocks: &mut Vec<IrBlock>,
    simple: &Vec<(usize, IrOperand)>,
    promoted: &Vec<usize>,
)
    ensures
        ir::blocks_view(final(blocks)@) == ir::blocks_view(old(blocks)@).map_values(
            |b: BlockV| promotion::cleaned(b, simple@, promoted@),
        ),
{
    let ghost start = ir::blocks_view(blocks@);
    let ghost want = start.map_values(|b: BlockV| promotion::cleaned(b, simple@, promoted@));
    let n = blocks.len();
    let mut b: usize = 0;
    while b < n
        invariant
            b <= n,
            blocks@.len() == n,
            forall|k: int|
                0 <= k < n ==> (#[trigger] ir::blocks_view(blocks@)[k]) == if k < b {
                    want[k]
                } else {
                    start[k]
                },
        decreases n - b,
    {
        let ghost mid = ir::blocks_view(blocks@);
        assert(mid[b as int] == blocks@[b as int]@);
        clean_block(&mut blocks[b], simple, promoted);
        assert(ir::blocks_view(blocks@) =~= mid.update(b as int, want[b as int]));
        b = b + 1;
    }
    assert(ir::blocks_view(blocks@) =~= want);
}

} // verus!

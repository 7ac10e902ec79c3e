//! Passes leave a program that refers only to what is there.

use crate::cfg;
use crate::ir::{self, BlockV, FuncV, InstV, IrOperand, IrType, ProgV};
use crate::ir_to_koopa::{self, MoveV};
use crate::links::{self, SizesV};
use crate::opt::const_fold;
use crate::opt::dce;
use crate::opt::gvn;
use crate::opt::inline::{BodyV, Inline, RenamesV, StockV};
use crate::opt::{self, IrFuncPass, StandardPass};
use crate::promotion::{self, Env, Phis, RenameV};
use vstd::prelude::*;

verus! {

// ── Instructions ─────────────────────────────────────────────────────────────

/// The operands that replace SSA values have names.
spec fn map_fits(n: SizesV, m: Map<usize, IrOperand>) -> bool {
    forall|k: usize| m.contains_key(k) ==> links::op_fits(n, #[trigger] m[k])
}

proof fn substituted_fits(n: SizesV, i: InstV, m: Map<usize, IrOperand>)
    requires
        links::inst_fits(n, i),
        map_fits(n, m),
    ensures
        links::inst_fits(n, opt::substituted(i, m)),
        forall|t: usize| #[trigger]
            links::goes_to(opt::substituted(i, m), t) <==> links::goes_to(i, t),
{
    let h = opt::substituted(i, m);
    let ops = ir::inst_operands(i);
    let new = ir::inst_operands(h);
    assert(new.len() == ops.len());
    assert forall|k: int| 0 <= k < new.len() implies links::op_fits(n, #[trigger] new[k]) by {
        assert(links::op_fits(n, ops[k]));
        assert(new[k] == ops[k] || new[k] == opt::replaced(ops[k], m));
    }
}

proof fn copy_linked(n: SizesV, blocks: Seq<BlockV>, dest: usize, v: IrOperand)
    requires
        links::op_fits(n, v),
    ensures
        links::inst_linked(n, blocks, const_fold::copy_of(dest, v)),
{
    let i = const_fold::copy_of(dest, v);
    assert(ir::inst_operands(i) == seq![v, IrOperand::Int(0)]);
}

/// A function whose blocks have kept their labels, with instructions that refer to what is there.
proof fn relinked(n: SizesV, f: FuncV, h: FuncV)
    requires
        links::func_linked(n, f),
        h.name == f.name,
        h.params == f.params,
        h.blocks.len() == f.blocks.len(),
        forall|b: int|
            0 <= b < f.blocks.len() ==> (#[trigger] h.blocks[b]).label == f.blocks[b].label
                && links::insts_linked(n, f.blocks, h.blocks[b].instrs),
    ensures
        links::func_linked(n, h),
{
    assert forall|t: usize| links::has_label(f.blocks, t) implies #[trigger] links::has_label(
        h.blocks,
        t,
    ) by {
        let k = choose|k: int| 0 <= k < f.blocks.len() && (#[trigger] f.blocks[k]).label == t;
        assert(h.blocks[k].label == t);
    }
    assert forall|b: int| 0 <= b < h.blocks.len() implies (#[trigger] h.blocks[b]).label < n.labels
        && links::insts_linked(n, h.blocks, h.blocks[b].instrs) by {
        assert(f.blocks[b].label < n.labels);
        let instrs = h.blocks[b].instrs;
        assert forall|i: int| 0 <= i < instrs.len() implies links::inst_linked(
            n,
            h.blocks,
            #[trigger] instrs[i],
        ) by {
            assert(links::inst_linked(n, f.blocks, instrs[i]));
        }
    }
}

// ── Inlining ─────────────────────────────────────────────────────────────────

proof fn bound_fits(n: SizesV, params: Seq<(usize, IrType)>, args: Seq<IrOperand>)
    requires
        links::ops_fit(n, args),
    ensures
        map_fits(n, opt::inline::bound(params, args)),
    decreases params.len(),
{
    if params.len() > 0 {
        bound_fits(n, params.drop_last(), args);
        let before = opt::inline::bound(params.drop_last(), args);
        let m = opt::inline::bound(params, args);
        assert forall|k: usize| m.contains_key(k) implies links::op_fits(n, #[trigger] m[k]) by {
            if k != params.last().0 {
                assert(links::op_fits(n, before[k]));
            }
        }
    }
}

/// The sizes of the tables of a program whose variables are named anew.
spec fn sized(n: SizesV, names: Seq<Seq<char>>) -> SizesV {
    SizesV { globals: names.len() as int, ..n }
}

/// A list of instructions that refers to what is there does so in larger tables.
proof fn insts_linked_more(n: SizesV, m: SizesV, blocks: Seq<BlockV>, instrs: Seq<InstV>)
    requires
        links::insts_linked(n, blocks, instrs),
        links::within(n, m),
    ensures
        links::insts_linked(m, blocks, instrs),
{
    assert forall|i: int| 0 <= i < instrs.len() implies links::inst_linked(
        m,
        blocks,
        #[trigger] instrs[i],
    ) by {
        assert(links::inst_linked(n, blocks, instrs[i]));
        links::inst_fits_more(n, m, instrs[i]);
    }
}

proof fn both_linked(n: SizesV, blocks: Seq<BlockV>, a: Seq<InstV>, b: Seq<InstV>)
    requires
        links::insts_linked(n, blocks, a),
        links::insts_linked(n, blocks, b),
    ensures
        links::insts_linked(n, blocks, a + b),
{
    let all = a + b;
    assert forall|i: int| 0 <= i < all.len() implies links::inst_linked(
        n,
        blocks,
        #[trigger] all[i],
    ) by {
        if i < a.len() {
            assert(all[i] == a[i]);
        } else {
            assert(all[i] == b[i - a.len()]);
        }
    }
}

proof fn renamed_fits(n: SizesV, i: InstV, r: RenamesV, l: usize)
    requires
        links::inst_fits(n, i),
        !(i is Alloc),
        map_fits(n, r.locals),
        map_fits(n, r.globals),
    ensures
        links::inst_fits(n, ir::with_dest(opt::inline::renamed_inst(i, r), l)),
        forall|t: usize| #[trigger]
            links::goes_to(ir::with_dest(opt::inline::renamed_inst(i, r), l), t)
                <==> links::goes_to(i, t),
{
    let h = ir::with_dest(opt::inline::renamed_inst(i, r), l);
    let ops = ir::inst_operands(i);
    let new = ir::inst_operands(h);
    assert(new.len() == ops.len());
    assert forall|k: int| 0 <= k < new.len() implies links::op_fits(n, #[trigger] new[k]) by {
        assert(links::op_fits(n, ops[k]));
        assert(new[k] == ops[k] || new[k] == opt::inline::renamed(ops[k], r));
    }
}

/// What a body on its way into a caller refers to is there.
spec fn body_fits(n: SizesV, blocks: Seq<BlockV>, s: BodyV) -> bool {
    let m = sized(n, s.stock.names);
    &&& map_fits(m, s.renames.locals)
    &&& map_fits(m, s.renames.globals)
    &&& links::insts_linked(m, blocks, s.out)
}

proof fn body_step_fits(n: SizesV, blocks: Seq<BlockV>, s: BodyV, i: InstV, dest: Option<usize>)
    requires
        body_fits(n, blocks, s),
        s.stock.names.len() < usize::MAX,
        links::inst_fits(sized(n, s.stock.names), i),
        forall|t: usize| !#[trigger] links::goes_to(i, t),
    ensures
        body_fits(n, blocks, opt::inline::body_step(s, i, dest)),
        s.stock.names.len() <= opt::inline::body_step(s, i, dest).stock.names.len()
            <= s.stock.names.len() + 1,
{
    let m = sized(n, s.stock.names);
    let h = opt::inline::body_step(s, i, dest);
    let more = sized(n, h.stock.names);
    insts_linked_more(m, more, blocks, s.out);
    match i {
        InstV::Ret { value } => {
            if let Some(d) = dest {
                let v = match value {
                    Some(v) => opt::inline::renamed(v, s.renames),
                    None => IrOperand::Int(0),
                };
                if value is Some {
                    assert(links::op_fits(m, ir::inst_operands(i)[0]));
                }
                copy_linked(m, blocks, d, v);
                both_linked(more, blocks, s.out, seq![const_fold::copy_of(d, v)]);
                assert(h.out =~= s.out + seq![const_fold::copy_of(d, v)]);
            }
        },
        InstV::Alloc { dest: g, ty } => {
            let new = InstV::Alloc { dest: s.stock.names.len() as usize, ty };
            assert(links::inst_linked(more, blocks, new));
            both_linked(more, blocks, s.out, seq![new]);
            assert(h.out =~= s.out + seq![new]);
            assert forall|k: usize| h.renames.globals.contains_key(k) implies links::op_fits(
                more,
                #[trigger] h.renames.globals[k],
            ) by {
                if k != g {
                    assert(links::op_fits(m, s.renames.globals[k]));
                }
            }
            assert forall|k: usize| h.renames.locals.contains_key(k) implies links::op_fits(
                more,
                #[trigger] h.renames.locals[k],
            ) by {
                assert(links::op_fits(m, s.renames.locals[k]));
            }
        },
        _ => {
            let l = s.stock.local as usize;
            let new = ir::with_dest(opt::inline::renamed_inst(i, s.renames), l);
            renamed_fits(m, i, s.renames, l);
            assert(links::inst_linked(m, blocks, new));
            both_linked(m, blocks, s.out, seq![new]);
            assert(h.out =~= s.out + seq![new]);
            assert forall|k: usize| h.renames.locals.contains_key(k) implies links::op_fits(
                m,
                #[trigger] h.renames.locals[k],
            ) by {
                if ir::inst_dest(i) != Some(k) {
                    assert(links::op_fits(m, s.renames.locals[k]));
                }
            }
        },
    }
}

/// An inlined body refers to what is there, and goes nowhere.
proof fn inlined_body_fits(
    n: SizesV,
    blocks: Seq<BlockV>,
    s: BodyV,
    instrs: Seq<InstV>,
    dest: Option<usize>,
)
    requires
        body_fits(n, blocks, s),
        s.stock.names.len() + instrs.len() <= usize::MAX,
        forall|i: int|
            0 <= i < instrs.len() ==> links::inst_fits(
                sized(n, s.stock.names),
                #[trigger] instrs[i],
            ) && forall|t: usize| !#[trigger] links::goes_to(instrs[i], t),
    ensures
        body_fits(n, blocks, opt::inline::inlined_body(s, instrs, dest)),
        s.stock.names.len() <= opt::inline::inlined_body(s, instrs, dest).stock.names.len()
            <= s.stock.names.len() + instrs.len(),
    decreases instrs.len(),
{
    if instrs.len() > 0 {
        let front = instrs.drop_last();
        assert forall|i: int| 0 <= i < front.len() implies links::inst_fits(
            sized(n, s.stock.names),
            #[trigger] front[i],
        ) && forall|t: usize| !#[trigger] links::goes_to(front[i], t) by {
            assert(front[i] == instrs[i]);
            assert(links::inst_fits(sized(n, s.stock.names), instrs[i]));
        }
        inlined_body_fits(n, blocks, s, front, dest);
        let mid = opt::inline::inlined_body(s, front, dest);
        let last = instrs[instrs.len() - 1];
        assert(links::inst_fits(sized(n, s.stock.names), last));
        links::inst_fits_more(sized(n, s.stock.names), sized(n, mid.stock.names), last);
        body_step_fits(n, blocks, mid, last, dest);
    }
}

/// What is inlined from a program, while variables are given names.
spec fn names_of(p: ProgV, z: StockV) -> bool {
    links::linked(p) && links::entries_not_targets(p.funcs) && p.global_names.len()
        <= z.names.len()
}

proof fn expanded_inst_linked(p: ProgV, blocks: Seq<BlockV>, i: InstV, limit: usize, z: StockV)
    requires
        names_of(p, z),
        links::inst_linked(sized(links::sizes(p), z.names), blocks, i),
    ensures
        ({
            let r = opt::inline::expanded_inst(p, i, limit, z);
            &&& z.names.len() <= r.1.names.len()
            &&& links::insts_linked(sized(links::sizes(p), r.1.names), blocks, r.0)
        }),
{
    let n = links::sizes(p);
    let m = sized(n, z.names);
    if let Some(f) = opt::inline::callee(p, i, limit, z) {
        if let InstV::Call { dest, func, args } = i {
            ir::func_position_is_first(p.funcs, func);
            let k = ir::func_position(p.funcs, func)->0;
            assert(f == p.funcs[k]);
            assert(links::func_linked(n, p.funcs[k]));
            assert(links::entry_not_target(p.funcs[k]));
            assert(ir::inst_operands(i) == args);
            bound_fits(m, f.params, args);
            let instrs = f.blocks[0].instrs;
            assert(links::insts_linked(n, f.blocks, f.blocks[0].instrs));
            assert forall|j: int| 0 <= j < instrs.len() implies links::inst_fits(
                m,
                #[trigger] instrs[j],
            ) && forall|t: usize| !#[trigger] links::goes_to(instrs[j], t) by {
                assert(links::inst_linked(n, f.blocks, instrs[j]));
                links::inst_fits_more(n, m, instrs[j]);
                assert forall|t: usize| !#[trigger] links::goes_to(instrs[j], t) by {
                    if links::goes_to(instrs[j], t) {
                        assert(links::goes_to(f.blocks[0].instrs[j], t));
                        assert(links::has_label(f.blocks, t));
                    }
                }
            }
            inlined_body_fits(n, blocks, opt::inline::body_start(f.params, args, z), instrs, dest);
        }
    }
}

proof fn expanded_insts_linked(
    p: ProgV,
    blocks: Seq<BlockV>,
    instrs: Seq<InstV>,
    limit: usize,
    z: StockV,
)
    requires
        names_of(p, z),
        links::insts_linked(links::sizes(p), blocks, instrs),
    ensures
        ({
            let r = opt::inline::expanded_insts(p, instrs, limit, z);
            &&& z.names.len() <= r.1.names.len()
            &&& links::insts_linked(sized(links::sizes(p), r.1.names), blocks, r.0)
        }),
    decreases instrs.len(),
{
    let n = links::sizes(p);
    if instrs.len() > 0 {
        let front = instrs.drop_last();
        assert forall|i: int| 0 <= i < front.len() implies links::inst_linked(
            n,
            blocks,
            #[trigger] front[i],
        ) by {
            assert(links::inst_linked(n, blocks, instrs[i]));
        }
        expanded_insts_linked(p, blocks, front, limit, z);
        let before = opt::inline::expanded_insts(p, front, limit, z);
        let last = instrs[instrs.len() - 1];
        assert(links::inst_linked(n, blocks, last));
        links::inst_fits_more(n, sized(n, before.1.names), last);
        expanded_inst_linked(p, blocks, last, limit, before.1);
        let r = opt::inline::expanded_inst(p, last, limit, before.1);
        insts_linked_more(sized(n, before.1.names), sized(n, r.1.names), blocks, before.0);
        both_linked(sized(n, r.1.names), blocks, before.0, r.0);
    }
}

proof fn expanded_blocks_linked(
    p: ProgV,
    all: Seq<BlockV>,
    blocks: Seq<BlockV>,
    limit: usize,
    z: StockV,
)
    requires
        names_of(p, z),
        links::blocks_linked(links::sizes(p), all, blocks),
    ensures
        ({
            let r = opt::inline::expanded_blocks(p, blocks, limit, z);
            &&& z.names.len() <= r.1.names.len()
            &&& r.0.len() == blocks.len()
            &&& forall|b: int|
                0 <= b < blocks.len() ==> (#[trigger] r.0[b]).label == blocks[b].label
                    && links::insts_linked(
                    sized(links::sizes(p), r.1.names),
                    all,
                    r.0[b].instrs,
                )
        }),
    decreases blocks.len(),
{
    let n = links::sizes(p);
    if blocks.len() > 0 {
        let front = blocks.drop_last();
        assert forall|b: int| 0 <= b < front.len() implies (#[trigger] front[b]).label < n.labels
            && links::insts_linked(n, all, front[b].instrs) by {
            assert(blocks[b].label < n.labels);
        }
        expanded_blocks_linked(p, all, front, limit, z);
        let before = opt::inline::expanded_blocks(p, front, limit, z);
        let last = blocks[blocks.len() - 1];
        assert(last.label < n.labels);
        expanded_insts_linked(p, all, last.instrs, limit, before.1);
        let r = opt::inline::expanded_blocks(p, blocks, limit, z);
        assert forall|b: int| 0 <= b < blocks.len() implies (#[trigger] r.0[b]).label
            == blocks[b].label && links::insts_linked(
            sized(n, r.1.names),
            all,
            r.0[b].instrs,
        ) by {
            if b < front.len() {
                assert(r.0[b] == before.0[b]);
                assert(front[b] == blocks[b]);
                insts_linked_more(
                    sized(n, before.1.names),
                    sized(n, r.1.names),
                    all,
                    before.0[b].instrs,
                );
            }
        }
    }
}

proof fn expanded_funcs_linked(p: ProgV, funcs: Seq<FuncV>, limit: usize, z: StockV)
    requires
        names_of(p, z),
        links::funcs_linked(links::sizes(p), funcs),
    ensures
        ({
            let r = opt::inline::expanded_funcs(p, funcs, limit, z);
            &&& z.names.len() <= r.1.names.len()
            &&& r.0.len() == funcs.len()
            &&& links::funcs_linked(sized(links::sizes(p), r.1.names), r.0)
        }),
    decreases funcs.len(),
{
    let n = links::sizes(p);
    if funcs.len() > 0 {
        let front = funcs.drop_last();
        assert forall|k: int| 0 <= k < front.len() implies links::func_linked(
            n,
            #[trigger] front[k],
        ) by {
            assert(links::func_linked(n, funcs[k]));
        }
        expanded_funcs_linked(p, front, limit, z);
        let before = opt::inline::expanded_funcs(p, front, limit, z);
        let f = funcs[funcs.len() - 1];
        assert(links::func_linked(n, f));
        let r = opt::inline::expanded_func(p, f, limit, before.1);
        let base = promotion::fresh_base(f.blocks);
        if base <= usize::MAX {
            expanded_blocks_linked(
                p,
                f.blocks,
                f.blocks,
                limit,
                StockV { local: base, ..before.1 },
            );
        }
        let m = sized(n, r.1.names);
        links::func_linked_more(n, m, f);
        if base <= usize::MAX {
            relinked(m, f, r.0);
        }
        let all = opt::inline::expanded_funcs(p, funcs, limit, z);
        assert forall|k: int| 0 <= k < all.0.len() implies links::func_linked(
            m,
            #[trigger] all.0[k],
        ) by {
            if k < before.0.len() {
                assert(all.0[k] == before.0[k]);
                links::func_linked_more(sized(n, before.1.names), m, before.0[k]);
            }
        }
    }
}

/// Inlining leaves a program that refers only to what is there.
pub proof fn inlining_keeps_links(p: ProgV, limit: usize)
    requires
        links::linked(p),
        links::entries_not_targets(p.funcs),
    ensures
        links::linked(opt::inline::expanded(p, limit)),
{
    let q = opt::inline::expanded(p, limit);
    expanded_funcs_linked(p, p.funcs, limit, opt::inline::stock(p));
    assert(links::sizes(q) == sized(links::sizes(p), q.global_names));
}

// ── Folding, elimination and numbering ───────────────────────────────────────

proof fn folded_linked(n: SizesV, blocks: Seq<BlockV>, i: InstV)
    requires
        links::inst_linked(n, blocks, i),
    ensures
        links::inst_linked(n, blocks, const_fold::folded(i)),
{
    let h = const_fold::folded(i);
    match i {
        InstV::Arith { dest, op, lhs, rhs } => {
            assert(links::op_fits(n, ir::inst_operands(i)[0]));
            assert(links::op_fits(n, ir::inst_operands(i)[1]));
            copy_linked(n, blocks, dest, rhs);
            copy_linked(n, blocks, dest, IrOperand::Int(0));
            if let (IrOperand::Int(l), IrOperand::Int(r)) = (lhs, rhs) {
                copy_linked(
                    n,
                    blocks,
                    dest,
                    IrOperand::Int(const_fold::arith_value(op, l, r)),
                );
            }
        },
        InstV::Icmp { dest, op, lhs: IrOperand::Int(l), rhs: IrOperand::Int(r) } => {
            copy_linked(n, blocks, dest, IrOperand::Int(const_fold::compare_value(op, l, r)));
        },
        InstV::Br { cond: IrOperand::Int(v), then_bb, else_bb } => {
            assert(links::goes_to(i, then_bb));
            assert(links::goes_to(i, else_bb));
        },
        _ => {},
    }
}

proof fn folding_keeps(n: SizesV, f: FuncV)
    requires
        links::func_linked(n, f),
    ensures
        links::func_linked(n, const_fold::folded_func(f)),
{
    let h = const_fold::folded_func(f);
    assert forall|b: int| 0 <= b < f.blocks.len() implies (#[trigger] h.blocks[b]).label
        == f.blocks[b].label && links::insts_linked(n, f.blocks, h.blocks[b].instrs) by {
        let instrs = f.blocks[b].instrs;
        assert(links::insts_linked(n, f.blocks, instrs));
        let new = h.blocks[b].instrs;
        assert forall|i: int| 0 <= i < new.len() implies links::inst_linked(
            n,
            f.blocks,
            #[trigger] new[i],
        ) by {
            assert(links::inst_linked(n, f.blocks, instrs[i]));
            folded_linked(n, f.blocks, instrs[i]);
        }
    }
    relinked(n, f, h);
}

/// The instructions that a filter leaves were there before.
proof fn filter_linked(
    n: SizesV,
    blocks: Seq<BlockV>,
    instrs: Seq<InstV>,
    keep: spec_fn(InstV) -> bool,
)
    requires
        links::insts_linked(n, blocks, instrs),
    ensures
        links::insts_linked(n, blocks, instrs.filter(keep)),
    decreases instrs.len(),
{
    reveal(Seq::filter);
    if instrs.len() > 0 {
        let front = instrs.drop_last();
        assert forall|i: int| 0 <= i < front.len() implies links::inst_linked(
            n,
            blocks,
            #[trigger] front[i],
        ) by {
            assert(links::inst_linked(n, blocks, instrs[i]));
        }
        filter_linked(n, blocks, front, keep);
        let before = front.filter(keep);
        let all = instrs.filter(keep);
        assert(links::inst_linked(n, blocks, instrs[instrs.len() - 1]));
        assert forall|i: int| 0 <= i < all.len() implies links::inst_linked(
            n,
            blocks,
            #[trigger] all[i],
        ) by {
            if i < before.len() {
                assert(all[i] == before[i]);
            }
        }
    }
}

proof fn elimination_keeps(n: SizesV, f: FuncV)
    requires
        links::func_linked(n, f),
    ensures
        links::func_linked(n, dce::live_func(f)),
{
    let h = dce::live_func(f);
    assert forall|b: int| 0 <= b < f.blocks.len() implies (#[trigger] h.blocks[b]).label
        == f.blocks[b].label && links::insts_linked(n, f.blocks, h.blocks[b].instrs) by {
        let instrs = f.blocks[b].instrs;
        assert(links::insts_linked(n, f.blocks, instrs));
        filter_linked(n, f.blocks, instrs, |i: InstV| dce::needed(f.blocks, i));
    }
    relinked(n, f, h);
}

proof fn numbered_linked(n: SizesV, blocks: Seq<BlockV>, instrs: Seq<InstV>, keep: Set<usize>)
    requires
        links::insts_linked(n, blocks, instrs),
    ensures
        links::insts_linked(n, blocks, gvn::numbered(instrs, keep).out),
        map_fits(n, gvn::numbered(instrs, keep).replacements),
    decreases instrs.len(),
{
    if instrs.len() > 0 {
        let front = instrs.drop_last();
        assert forall|i: int| 0 <= i < front.len() implies links::inst_linked(
            n,
            blocks,
            #[trigger] front[i],
        ) by {
            assert(links::inst_linked(n, blocks, instrs[i]));
        }
        numbered_linked(n, blocks, front, keep);
        let before = gvn::numbered(front, keep);
        let after = gvn::numbered(instrs, keep);
        let last = instrs[instrs.len() - 1];
        assert(links::inst_linked(n, blocks, last));
        substituted_fits(n, last, before.replacements);
        assert forall|t: usize| #[trigger]
            links::goes_to(opt::substituted(last, before.replacements), t) implies links::has_label(
            blocks,
            t,
        ) by {
            assert(links::goes_to(last, t));
        }
        assert forall|i: int| 0 <= i < after.out.len() implies links::inst_linked(
            n,
            blocks,
            #[trigger] after.out[i],
        ) by {
            if i < before.out.len() {
                assert(after.out[i] == before.out[i]);
            }
        }
    }
}

proof fn numbering_keeps(n: SizesV, f: FuncV)
    requires
        links::func_linked(n, f),
    ensures
        links::func_linked(n, gvn::numbered_func(f)),
{
    let h = gvn::numbered_func(f);
    assert forall|b: int| 0 <= b < f.blocks.len() implies (#[trigger] h.blocks[b]).label
        == f.blocks[b].label && links::insts_linked(n, f.blocks, h.blocks[b].instrs) by {
        let instrs = f.blocks[b].instrs;
        assert(links::insts_linked(n, f.blocks, instrs));
        let keep = gvn::needed(f.blocks, b);
        numbered_linked(n, f.blocks, instrs, keep);
        if gvn::repeats(f.blocks[b], keep) {
            let s = gvn::numbered(instrs, keep);
            let new = h.blocks[b].instrs;
            assert forall|i: int| 0 <= i < new.len() implies links::inst_linked(
                n,
                f.blocks,
                #[trigger] new[i],
            ) by {
                assert(links::inst_linked(n, f.blocks, s.out[i]));
                substituted_fits(n, s.out[i], s.replacements);
                assert(new[i] == opt::substituted(s.out[i], s.replacements));
                assert forall|t: usize| #[trigger]
                    links::goes_to(new[i], t) implies links::has_label(f.blocks, t) by {
                    assert(links::goes_to(s.out[i], t));
                }
            }
        }
    }
    relinked(n, f, h);
}

proof fn pass_keeps(n: SizesV, pass: StandardPass, f: FuncV)
    requires
        links::func_linked(n, f),
    ensures
        links::func_linked(n, pass.applied(f)),
{
    match pass {
        StandardPass::ConstFold => folding_keeps(n, f),
        StandardPass::DeadCodeElim => elimination_keeps(n, f),
        StandardPass::Gvn => numbering_keeps(n, f),
    }
}

proof fn func_round_keeps(n: SizesV, ps: Seq<StandardPass>, k: int, s: (FuncV, bool))
    requires
        links::func_linked(n, s.0),
    ensures
        links::func_linked(n, opt::func_round(ps, k, s).0),
    decreases ps.len() - k,
{
    if 0 <= k < ps.len() {
        pass_keeps(n, ps[k], s.0);
        func_round_keeps(n, ps, k + 1, (ps[k].applied(s.0), s.1 || ps[k].changes(s.0)));
    }
}

proof fn funcs_round_keeps(n: SizesV, ps: Seq<StandardPass>, i: int, s: (Seq<FuncV>, bool))
    requires
        links::funcs_linked(n, s.0),
    ensures
        links::funcs_linked(n, opt::funcs_round(ps, i, s).0),
    decreases s.0.len() - i,
{
    if 0 <= i < s.0.len() {
        assert(links::func_linked(n, s.0[i]));
        func_round_keeps(n, ps, 0, (s.0[i], s.1));
        let r = opt::func_round(ps, 0, (s.0[i], s.1));
        let next = s.0.update(i, r.0);
        assert forall|k: int| 0 <= k < next.len() implies links::func_linked(
            n,
            #[trigger] next[k],
        ) by {
            if k != i {
                assert(next[k] == s.0[k]);
            }
        }
        funcs_round_keeps(n, ps, i + 1, (next, r.1));
    }
}

/// Rounds of the function passes leave a program that refers only to what is there.
pub proof fn rounds_keep_links(ps: Seq<StandardPass>, p: ProgV, n: nat)
    requires
        links::linked(p),
    ensures
        links::linked(opt::rounds(ps, Seq::<Inline>::empty(), p, n)),
    decreases n,
{
    if n > 0 {
        let none = Seq::<Inline>::empty();
        assert(opt::program_round(none, 0, (p, false)) == (p, false));
        funcs_round_keeps(links::sizes(p), ps, 0, (p.funcs, false));
        let r = opt::round(ps, none, p);
        if r.1 {
            rounds_keep_links(ps, r.0, (n - 1) as nat);
        }
    }
}

// ── Promotion ────────────────────────────────────────────────────────────────

proof fn forwarded_linked(n: SizesV, blocks: Seq<BlockV>, g: usize, instrs: Seq<InstV>)
    requires
        links::insts_linked(n, blocks, instrs),
    ensures
        links::insts_linked(n, blocks, promotion::forwarded(g, instrs).1),
        promotion::forwarded(g, instrs).0 matches Some(v) ==> links::op_fits(n, v),
    decreases instrs.len(),
{
    if instrs.len() > 0 {
        let front = instrs.drop_last();
        assert forall|i: int| 0 <= i < front.len() implies links::inst_linked(
            n,
            blocks,
            #[trigger] front[i],
        ) by {
            assert(links::inst_linked(n, blocks, instrs[i]));
        }
        forwarded_linked(n, blocks, g, front);
        let before = promotion::forwarded(g, front);
        let after = promotion::forwarded(g, instrs);
        let last = instrs[instrs.len() - 1];
        assert(links::inst_linked(n, blocks, last));
        if last is Store {
            assert(links::op_fits(n, ir::inst_operands(last)[0]));
        }
        if let InstV::Load { dest, .. } = last {
            let v = match before.0 {
                Some(v) => v,
                None => IrOperand::Int(0),
            };
            copy_linked(n, blocks, dest, v);
        }
        assert forall|i: int| 0 <= i < after.1.len() implies links::inst_linked(
            n,
            blocks,
            #[trigger] after.1[i],
        ) by {
            if i < before.1.len() {
                assert(after.1[i] == before.1[i]);
            }
        }
    }
}

proof fn forwarding_keeps(n: SizesV, f: FuncV, names: Seq<usize>, k: int)
    requires
        links::func_linked(n, f),
    ensures
        links::func_linked(
            n,
            FuncV { blocks: promotion::forwarded_all(names, k, f.blocks), ..f },
        ),
    decreases names.len() - k,
{
    if 0 <= k < names.len() {
        let h = FuncV { blocks: promotion::forwarded_blocks(names[k], f.blocks), ..f };
        assert forall|b: int| 0 <= b < f.blocks.len() implies (#[trigger] h.blocks[b]).label
            == f.blocks[b].label && links::insts_linked(n, f.blocks, h.blocks[b].instrs) by {
            assert(links::insts_linked(n, f.blocks, f.blocks[b].instrs));
            forwarded_linked(n, f.blocks, names[k], f.blocks[b].instrs);
        }
        relinked(n, f, h);
        forwarding_keeps(n, h, names, k + 1);
    }
}

/// The values of variables have names.
spec fn env_fits(n: SizesV, env: Env) -> bool {
    forall|k: int| 0 <= k < env.len() ==> links::op_fits(n, (#[trigger] env[k]).1)
}

proof fn value_fits(n: SizesV, env: Env, g: usize)
    requires
        env_fits(n, env),
    ensures
        links::op_fits(n, promotion::value_of(env, g)),
    decreases env.len(),
{
    if env.len() > 0 {
        assert(links::op_fits(n, env[env.len() - 1].1));
        let front = env.drop_last();
        assert forall|k: int| 0 <= k < front.len() implies links::op_fits(
            n,
            (#[trigger] front[k]).1,
        ) by {
            assert(front[k] == env[k]);
        }
        value_fits(n, front, g);
    }
}

proof fn renamed_linked(
    n: SizesV,
    blocks: Seq<BlockV>,
    promoted: Seq<usize>,
    instrs: Seq<InstV>,
    s: (Env, Seq<InstV>),
)
    requires
        links::insts_linked(n, blocks, instrs),
        env_fits(n, s.0),
        links::insts_linked(n, blocks, s.1),
    ensures
        env_fits(n, promotion::renamed(promoted, instrs, s).0),
        links::insts_linked(n, blocks, promotion::renamed(promoted, instrs, s).1),
    decreases instrs.len(),
{
    if instrs.len() > 0 {
        let front = instrs.drop_last();
        assert forall|i: int| 0 <= i < front.len() implies links::inst_linked(
            n,
            blocks,
            #[trigger] front[i],
        ) by {
            assert(links::inst_linked(n, blocks, instrs[i]));
        }
        renamed_linked(n, blocks, promoted, front, s);
        let before = promotion::renamed(promoted, front, s);
        let after = promotion::renamed(promoted, instrs, s);
        let last = instrs[instrs.len() - 1];
        assert(links::inst_linked(n, blocks, last));
        if last is Store {
            assert(links::op_fits(n, ir::inst_operands(last)[0]));
        }
        if let InstV::Load { dest, src: IrOperand::Global(g) } = last {
            value_fits(n, before.0, g);
            copy_linked(n, blocks, dest, promotion::value_of(before.0, g));
        }
        assert forall|i: int| 0 <= i < after.1.len() implies links::inst_linked(
            n,
            blocks,
            #[trigger] after.1[i],
        ) by {
            if i < before.1.len() {
                assert(after.1[i] == before.1[i]);
            }
        }
        assert forall|k: int| 0 <= k < after.0.len() implies links::op_fits(
            n,
            (#[trigger] after.0[k]).1,
        ) by {
            if k < before.0.len() {
                assert(after.0[k] == before.0[k]);
            }
        }
    }
}

proof fn incoming_linked(
    n: SizesV,
    blocks: Seq<BlockV>,
    instrs: Seq<InstV>,
    dest: usize,
    v: IrOperand,
    from: usize,
)
    requires
        links::insts_linked(n, blocks, instrs),
        links::op_fits(n, v),
    ensures
        links::insts_linked(n, blocks, promotion::with_incoming(instrs, dest, v, from)),
    decreases instrs.len(),
{
    if instrs.len() > 0 {
        let rest = instrs.drop_first();
        assert forall|i: int| 0 <= i < rest.len() implies links::inst_linked(
            n,
            blocks,
            #[trigger] rest[i],
        ) by {
            assert(links::inst_linked(n, blocks, instrs[i + 1]));
        }
        incoming_linked(n, blocks, rest, dest, v, from);
        let after = promotion::with_incoming(instrs, dest, v, from);
        let below = promotion::with_incoming(rest, dest, v, from);
        assert(links::inst_linked(n, blocks, instrs[0]));
        if let InstV::Phi { dest: d, incoming } = instrs[0] {
            let more = InstV::Phi { dest: d, incoming: incoming.push((v, from)) };
            let ops = ir::inst_operands(more);
            assert forall|k: int| 0 <= k < ops.len() implies links::op_fits(
                n,
                #[trigger] ops[k],
            ) by {
                if k < incoming.len() {
                    assert(ops[k] == ir::inst_operands(instrs[0])[k]);
                }
            }
            assert(links::inst_linked(n, blocks, more));
        }
        assert forall|i: int| 0 <= i < after.len() implies links::inst_linked(
            n,
            blocks,
            #[trigger] after[i],
        ) by {
            if i == 0 {
            } else if after == seq![instrs[0]] + below {
                assert(after[i] == below[i - 1]);
            } else {
                assert(after[i] == instrs[i]);
            }
        }
    }
}

proof fn values_linked(
    n: SizesV,
    blocks: Seq<BlockV>,
    b: BlockV,
    phis: Phis,
    k: int,
    env: Env,
    from: usize,
)
    requires
        links::insts_linked(n, blocks, b.instrs),
        env_fits(n, env),
    ensures
        links::insts_linked(n, blocks, promotion::with_values(b, phis, k, env, from).instrs),
        promotion::with_values(b, phis, k, env, from).label == b.label,
    decreases phis.len() - k,
{
    if 0 <= k < phis.len() {
        let v = promotion::value_of(env, phis[k].0);
        value_fits(n, env, phis[k].0);
        incoming_linked(n, blocks, b.instrs, phis[k].1, v, from);
        values_linked(
            n,
            blocks,
            BlockV {
                instrs: promotion::with_incoming(b.instrs, phis[k].1, v, from),
                ..b
            },
            phis,
            k + 1,
            env,
            from,
        );
    }
}

/// Blocks with the labels of others, whose instructions refer to what is there.
spec fn like(n: SizesV, all: Seq<BlockV>, new: Seq<BlockV>) -> bool {
    &&& new.len() == all.len()
    &&& forall|b: int|
        0 <= b < new.len() ==> (#[trigger] new[b]).label == all[b].label && links::insts_linked(
            n,
            all,
            new[b].instrs,
        )
}

/// What renaming works from refers to what is there.
spec fn plan_fits(n: SizesV, all: Seq<BlockV>, r: RenameV) -> bool {
    &&& r.blocks.len() == all.len()
    &&& r.children.len() == all.len()
    &&& r.succ.len() == all.len()
    &&& forall|b: int|
        0 <= b < all.len() ==> links::insts_linked(n, all, (#[trigger] r.blocks[b]).instrs)
    &&& forall|b: int, k: int|
        #![trigger r.children[b][k]]
        0 <= b < all.len() && 0 <= k < r.children[b].len() ==> r.children[b][k] < all.len()
    &&& forall|b: int, k: int|
        #![trigger r.succ[b][k]]
        0 <= b < all.len() && 0 <= k < r.succ[b].len() ==> r.succ[b][k] < all.len()
}

/// An update of a block that keeps its label.
proof fn like_update(n: SizesV, all: Seq<BlockV>, new: Seq<BlockV>, b: int, block: BlockV)
    requires
        like(n, all, new),
        0 <= b < all.len(),
        block.label == all[b].label,
        links::insts_linked(n, all, block.instrs),
    ensures
        like(n, all, new.update(b, block)),
{
    let h = new.update(b, block);
    assert forall|k: int| 0 <= k < h.len() implies (#[trigger] h[k]).label == all[k].label
        && links::insts_linked(n, all, h[k].instrs) by {
        if k != b {
            assert(h[k] == new[k]);
        }
    }
}

proof fn filled_like(
    n: SizesV,
    all: Seq<BlockV>,
    r: RenameV,
    b: int,
    k: int,
    env: Env,
    new: Seq<BlockV>,
)
    requires
        plan_fits(n, all, r),
        like(n, all, new),
        env_fits(n, env),
        0 <= b < all.len(),
    ensures
        like(n, all, promotion::filled(r, b, k, env, new)),
    decreases r.succ[b].len() - k,
{
    if 0 <= k < r.succ[b].len() {
        let s = r.succ[b][k] as int;
        assert(links::insts_linked(n, all, new[s].instrs));
        values_linked(n, all, new[s], r.phis[s], 0, env, b as usize);
        let block = promotion::with_values(new[s], r.phis[s], 0, env, b as usize);
        like_update(n, all, new, s, block);
        filled_like(n, all, r, b, k + 1, env, new.update(s, block));
    }
}

proof fn rename_like(
    n: SizesV,
    all: Seq<BlockV>,
    r: RenameV,
    b: int,
    env: Env,
    new: Seq<BlockV>,
    fuel: nat,
)
    requires
        plan_fits(n, all, r),
        like(n, all, new),
        env_fits(n, env),
        0 <= b < all.len(),
    ensures
        like(n, all, promotion::rename(r, b, env, new, fuel)),
    decreases fuel, 1int, 0int,
{
    if fuel > 0 {
        let start = env + promotion::phi_values(r.phis[b]);
        assert forall|k: int| 0 <= k < start.len() implies links::op_fits(
            n,
            (#[trigger] start[k]).1,
        ) by {
            if k < env.len() {
                assert(start[k] == env[k]);
            } else {
                assert(start[k] == promotion::phi_values(r.phis[b])[k - env.len()]);
            }
        }
        assert(links::insts_linked(n, all, r.blocks[b].instrs));
        assert(links::insts_linked(n, all, new[b].instrs));
        renamed_linked(n, all, r.promoted, r.blocks[b].instrs, (start, new[b].instrs));
        let (after, out) = promotion::renamed(
            r.promoted,
            r.blocks[b].instrs,
            (start, new[b].instrs),
        );
        let block = BlockV { instrs: out, ..new[b] };
        like_update(n, all, new, b, block);
        filled_like(n, all, r, b, 0, after, new.update(b, block));
        let mid = promotion::filled(r, b, 0, after, new.update(b, block));
        rename_children_like(n, all, r, b, 0, after, mid, (fuel - 1) as nat);
    }
}

proof fn rename_children_like(
    n: SizesV,
    all: Seq<BlockV>,
    r: RenameV,
    b: int,
    k: int,
    env: Env,
    new: Seq<BlockV>,
    fuel: nat,
)
    requires
        plan_fits(n, all, r),
        like(n, all, new),
        env_fits(n, env),
        0 <= b < all.len(),
    ensures
        like(n, all, promotion::rename_children(r, b, k, env, new, fuel)),
    decreases fuel, 2int, r.children[b].len() - k,
{
    if 0 <= k < r.children[b].len() {
        let c = r.children[b][k] as int;
        rename_like(n, all, r, c, env, new, fuel);
        rename_children_like(
            n,
            all,
            r,
            b,
            k + 1,
            env,
            promotion::rename(r, c, env, new, fuel),
            fuel,
        );
    }
}

/// The values of variables that have one have names.
spec fn simple_fits(n: SizesV, simple: Seq<(usize, IrOperand)>) -> bool {
    forall|k: int| 0 <= k < simple.len() ==> links::op_fits(n, (#[trigger] simple[k]).1)
}

proof fn first_stored_fits(n: SizesV, blocks: Seq<BlockV>, instrs: Seq<InstV>, g: usize)
    requires
        links::insts_linked(n, blocks, instrs),
    ensures
        promotion::first_stored(instrs, g) matches Some(v) ==> links::op_fits(n, v),
    decreases instrs.len(),
{
    if instrs.len() > 0 {
        let front = instrs.drop_last();
        assert forall|i: int| 0 <= i < front.len() implies links::inst_linked(
            n,
            blocks,
            #[trigger] front[i],
        ) by {
            assert(links::inst_linked(n, blocks, instrs[i]));
        }
        first_stored_fits(n, blocks, front, g);
        let last = instrs[instrs.len() - 1];
        assert(links::inst_linked(n, blocks, last));
        if last is Store {
            assert(links::op_fits(n, ir::inst_operands(last)[0]));
        }
    }
}

proof fn simple_vars_fit(
    n: SizesV,
    all: Seq<BlockV>,
    blocks: Seq<BlockV>,
    idom: Seq<usize>,
    names: Seq<usize>,
)
    requires
        links::insts_linked(n, all, blocks[0].instrs),
    ensures
        simple_fits(n, promotion::simple_vars(blocks, idom, names)),
    decreases names.len(),
{
    if names.len() > 0 {
        simple_vars_fit(n, all, blocks, idom, names.drop_last());
        first_stored_fits(n, all, blocks[0].instrs, names.last());
        let before = promotion::simple_vars(blocks, idom, names.drop_last());
        let after = promotion::simple_vars(blocks, idom, names);
        assert forall|k: int| 0 <= k < after.len() implies links::op_fits(
            n,
            (#[trigger] after[k]).1,
        ) by {
            if k < before.len() {
                assert(after[k] == before[k]);
            }
        }
    }
}

proof fn loads_linked(
    n: SizesV,
    blocks: Seq<BlockV>,
    instrs: Seq<InstV>,
    simple: Seq<(usize, IrOperand)>,
    k: int,
)
    requires
        links::insts_linked(n, blocks, instrs),
        simple_fits(n, simple),
    ensures
        links::insts_linked(n, blocks, promotion::loads_of(instrs, simple, k)),
    decreases simple.len() - k,
{
    if 0 <= k < simple.len() {
        let (g, v) = simple[k];
        let new = instrs.map_values(|i: InstV| promotion::load_of(i, simple[k].0, simple[k].1));
        assert(links::op_fits(n, simple[k].1));
        assert forall|i: int| 0 <= i < new.len() implies links::inst_linked(
            n,
            blocks,
            #[trigger] new[i],
        ) by {
            assert(links::inst_linked(n, blocks, instrs[i]));
            if let InstV::Load { dest, .. } = instrs[i] {
                copy_linked(n, blocks, dest, v);
            }
        }
        loads_linked(n, blocks, new, simple, k + 1);
    }
}

proof fn promoted_blocks_linked(
    n: SizesV,
    f: FuncV,
    phi: Seq<usize>,
    simple: Seq<(usize, IrOperand)>,
)
    requires
        links::func_linked(n, f),
        f.blocks.len() > 0,
        simple_fits(n, simple),
    ensures
        links::func_linked(n, FuncV { blocks: promotion::promoted_blocks(f, phi, simple), ..f }),
{
    let all = f.blocks;
    let len = all.len();
    let blocks = cfg::with_preds(f).blocks;
    let preds = promotion::func_preds(all);
    let idom = promotion::func_idom(all);
    let (phis, _) = promotion::place_all(
        blocks,
        preds,
        idom,
        phi,
        0,
        Seq::new(len, |i: int| Seq::empty()),
        promotion::fresh_base(all) as usize,
    );
    let r = RenameV {
        blocks,
        children: Seq::new(len, |p: int| crate::ssa::children_below(idom, len as int, p)),
        succ: Seq::new(len, |p: int| promotion::succ_from(preds, p, len as int)),
        phis,
        promoted: phi + promotion::firsts(simple),
    };
    assert forall|b: int| 0 <= b < all.len() implies links::insts_linked(
        n,
        all,
        (#[trigger] r.blocks[b]).instrs,
    ) by {
        assert(links::insts_linked(n, all, all[b].instrs));
    }
    assert forall|b: int, k: int|
        #![trigger r.children[b][k]]
        0 <= b < all.len() && 0 <= k < r.children[b].len() implies r.children[b][k] < all.len() by {
        crate::ssa::children_in_range(idom, len as int, b);
    }
    assert forall|b: int, k: int|
        #![trigger r.succ[b][k]]
        0 <= b < all.len() && 0 <= k < r.succ[b].len() implies r.succ[b][k] < all.len() by {
        crate::ssa::succ_in_range(preds, b, len as int);
    }
    let first = promotion::with_phis(blocks, phis);
    assert forall|b: int| 0 <= b < first.len() implies (#[trigger] first[b]).label == all[b].label
        && links::insts_linked(n, all, first[b].instrs) by {
        let instrs = first[b].instrs;
        assert forall|i: int| 0 <= i < instrs.len() implies links::inst_linked(
            n,
            all,
            #[trigger] instrs[i],
        ) by {
            assert(instrs[i] == (InstV::Phi { dest: phis[b][i].1, incoming: Seq::empty() }));
            assert(ir::inst_operands(instrs[i]).len() == 0);
        }
    }
    rename_like(n, all, r, 0, Seq::empty(), first, len);
    let new = promotion::rename(r, 0, Seq::empty(), first, len);
    let h = FuncV { blocks: promotion::promoted_blocks(f, phi, simple), ..f };
    assert(h.blocks == new.map_values(
        |b: BlockV| promotion::cleaned(b, simple, r.promoted),
    ));
    assert forall|b: int| 0 <= b < all.len() implies (#[trigger] h.blocks[b]).label == all[b].label
        && links::insts_linked(n, all, h.blocks[b].instrs) by {
        assert(links::insts_linked(n, all, new[b].instrs));
        loads_linked(n, all, new[b].instrs, simple, 0);
        filter_linked(
            n,
            all,
            promotion::loads_of(new[b].instrs, simple, 0),
            |i: InstV| promotion::remains(i, r.promoted),
        );
    }
    relinked(n, f, h);
}

proof fn promotion_keeps(n: SizesV, f: FuncV)
    requires
        links::func_linked(n, f),
    ensures
        links::func_linked(n, promotion::promoted(f).0),
{
    let names = promotion::promotable(f.blocks);
    if names.len() == 0 {
    } else if f.blocks.len() == 1 {
        forwarding_keeps(n, f, names, 0);
    } else {
        let h = cfg::with_preds(f);
        assert forall|b: int| 0 <= b < f.blocks.len() implies (#[trigger] h.blocks[b]).label
            == f.blocks[b].label && links::insts_linked(n, f.blocks, h.blocks[b].instrs) by {
            assert(links::insts_linked(n, f.blocks, f.blocks[b].instrs));
        }
        relinked(n, f, h);
        if f.blocks.len() == 0 {
            assert(promotion::block_vars(f.blocks, 0) =~= Seq::empty());
            reveal(Seq::filter);
        } else {
            assert(links::insts_linked(n, f.blocks, f.blocks[0].instrs));
            assert(h.blocks[0].instrs == f.blocks[0].instrs);
            let idom = promotion::func_idom(f.blocks);
            let phi = promotion::phi_vars(h.blocks, idom, names);
            let simple = promotion::simple_vars(h.blocks, idom, names);
            simple_vars_fit(n, f.blocks, h.blocks, idom, names);
            promoted_blocks_linked(n, f, phi, simple);
        }
    }
}

/// Promotion leaves functions that refer only to what is there.
pub proof fn promotion_keeps_links(n: SizesV, funcs: Seq<FuncV>)
    requires
        links::funcs_linked(n, funcs),
    ensures
        links::funcs_linked(n, crate::codegen::promoted_funcs(funcs)),
{
    let new = crate::codegen::promoted_funcs(funcs);
    assert forall|i: int| 0 <= i < new.len() implies links::func_linked(n, #[trigger] new[i]) by {
        assert(links::func_linked(n, funcs[i]));
        promotion_keeps(n, funcs[i]);
    }
}

// ── Phi lowering ─────────────────────────────────────────────────────────────

/// The values of copies have names.
spec fn moves_fit(n: SizesV, moves: Seq<MoveV>) -> bool {
    forall|k: int| 0 <= k < moves.len() ==> links::op_fits(n, (#[trigger] moves[k]).value)
}

proof fn insts_moves_fit(n: SizesV, blocks: Seq<BlockV>, instrs: Seq<InstV>)
    requires
        links::insts_linked(n, blocks, instrs),
    ensures
        moves_fit(n, ir_to_koopa::insts_moves(instrs)),
    decreases instrs.len(),
{
    if instrs.len() > 0 {
        let front = instrs.drop_last();
        assert forall|i: int| 0 <= i < front.len() implies links::inst_linked(
            n,
            blocks,
            #[trigger] front[i],
        ) by {
            assert(links::inst_linked(n, blocks, instrs[i]));
        }
        insts_moves_fit(n, blocks, front);
        let last = instrs[instrs.len() - 1];
        assert(links::inst_linked(n, blocks, last));
        let before = ir_to_koopa::insts_moves(front);
        let added = ir_to_koopa::inst_moves(last);
        let all = ir_to_koopa::insts_moves(instrs);
        assert forall|k: int| 0 <= k < all.len() implies links::op_fits(
            n,
            (#[trigger] all[k]).value,
        ) by {
            if k < before.len() {
                assert(all[k] == before[k]);
            } else {
                let j = k - before.len();
                assert(all[k] == added[j]);
                assert(added[j].value == ir::inst_operands(last)[j]);
            }
        }
    }
}

proof fn blocks_moves_fit(n: SizesV, all: Seq<BlockV>, blocks: Seq<BlockV>)
    requires
        links::blocks_linked(n, all, blocks),
    ensures
        moves_fit(n, ir_to_koopa::blocks_moves(blocks)),
    decreases blocks.len(),
{
    if blocks.len() > 0 {
        let front = blocks.drop_last();
        assert forall|b: int| 0 <= b < front.len() implies (#[trigger] front[b]).label < n.labels
            && links::insts_linked(n, all, front[b].instrs) by {
            assert(front[b] == blocks[b]);
        }
        blocks_moves_fit(n, all, front);
        let last = blocks[blocks.len() - 1];
        assert(links::insts_linked(n, all, last.instrs));
        insts_moves_fit(n, all, last.instrs);
        let before = ir_to_koopa::blocks_moves(front);
        let added = ir_to_koopa::insts_moves(last.instrs);
        let moves = ir_to_koopa::blocks_moves(blocks);
        assert forall|k: int| 0 <= k < moves.len() implies links::op_fits(
            n,
            (#[trigger] moves[k]).value,
        ) by {
            if k < before.len() {
                assert(moves[k] == before[k]);
            } else {
                assert(moves[k] == added[k - before.len()]);
            }
        }
    }
}

proof fn copies_linked(n: SizesV, blocks: Seq<BlockV>, moves: Seq<MoveV>, k: int)
    requires
        moves_fit(n, moves),
    ensures
        links::insts_linked(n, blocks, promotion::copies_to(moves, k)),
    decreases moves.len(),
{
    if moves.len() > 0 {
        let front = moves.drop_last();
        assert forall|j: int| 0 <= j < front.len() implies links::op_fits(
            n,
            (#[trigger] front[j]).value,
        ) by {
            assert(front[j] == moves[j]);
        }
        copies_linked(n, blocks, front, k);
        let last = moves[moves.len() - 1];
        assert(links::op_fits(n, last.value));
        copy_linked(n, blocks, last.dest, last.value);
        let before = promotion::copies_to(front, k);
        let all = promotion::copies_to(moves, k);
        assert forall|i: int| 0 <= i < all.len() implies links::inst_linked(
            n,
            blocks,
            #[trigger] all[i],
        ) by {
            if i < before.len() {
                assert(all[i] == before[i]);
            }
        }
    }
}

proof fn saves_linked(n: SizesV, blocks: Seq<BlockV>, copies: Seq<InstV>, k: int, base: int)
    requires
        links::insts_linked(n, blocks, copies),
        k <= copies.len(),
    ensures
        links::insts_linked(n, blocks, promotion::saves(copies, k, base)),
    decreases k,
{
    if k > 0 {
        saves_linked(n, blocks, copies, k - 1, base);
        let before = promotion::saves(copies, k - 1, base);
        let all = promotion::saves(copies, k, base);
        if promotion::needs_saving(copies, k - 1) {
            let v = copies[k - 1]->Arith_lhs;
            assert(links::inst_linked(n, blocks, copies[k - 1]));
            copy_linked(n, blocks, (base + k - 1) as usize, v);
        }
        assert forall|i: int| 0 <= i < all.len() implies links::inst_linked(
            n,
            blocks,
            #[trigger] all[i],
        ) by {
            if i < before.len() {
                assert(all[i] == before[i]);
            }
        }
    }
}

proof fn at_once_linked(n: SizesV, blocks: Seq<BlockV>, copies: Seq<InstV>, base: int)
    requires
        links::insts_linked(n, blocks, copies),
    ensures
        links::insts_linked(n, blocks, promotion::at_once(copies, base)),
{
    saves_linked(n, blocks, copies, copies.len() as int, base);
    let first = promotion::saves(copies, copies.len() as int, base);
    let all = promotion::at_once(copies, base);
    assert forall|i: int| 0 <= i < all.len() implies links::inst_linked(
        n,
        blocks,
        #[trigger] all[i],
    ) by {
        if i < first.len() {
            assert(all[i] == first[i]);
        } else {
            let k = i - first.len();
            assert(links::inst_linked(n, blocks, copies[k]));
            if promotion::needs_saving(copies, k) {
                copy_linked(
                    n,
                    blocks,
                    copies[k]->Arith_dest,
                    IrOperand::Local((base + k) as usize),
                );
            }
        }
    }
}

proof fn lowering_keeps(n: SizesV, f: FuncV)
    requires
        links::func_linked(n, f),
    ensures
        links::func_linked(n, promotion::lowered(f)),
{
    let h = promotion::lowered(f);
    let moves = ir_to_koopa::blocks_moves(f.blocks);
    blocks_moves_fit(n, f.blocks, f.blocks);
    assert forall|b: int| 0 <= b < f.blocks.len() implies (#[trigger] h.blocks[b]).label
        == f.blocks[b].label && links::insts_linked(n, f.blocks, h.blocks[b].instrs) by {
        let instrs = f.blocks[b].instrs;
        assert(links::insts_linked(n, f.blocks, instrs));
        let at = promotion::split_at(instrs);
        split_in_range(instrs);
        let head = instrs.take(at);
        let tail = instrs.skip(at);
        assert forall|i: int| 0 <= i < head.len() implies links::inst_linked(
            n,
            f.blocks,
            #[trigger] head[i],
        ) by {
            assert(links::inst_linked(n, f.blocks, instrs[i]));
        }
        assert forall|i: int| 0 <= i < tail.len() implies links::inst_linked(
            n,
            f.blocks,
            #[trigger] tail[i],
        ) by {
            assert(links::inst_linked(n, f.blocks, instrs[at + i]));
        }
        filter_linked(n, f.blocks, head, |i: InstV| !(i is Phi));
        filter_linked(n, f.blocks, tail, |i: InstV| !(i is Phi));
        copies_linked(n, f.blocks, moves, b);
        at_once_linked(
            n,
            f.blocks,
            promotion::copies_to(moves, b),
            promotion::fresh_base(f.blocks),
        );
        let x = ir_to_koopa::without_phis(head);
        let y = promotion::copies_at(f.blocks, b);
        let z = ir_to_koopa::without_phis(tail);
        let all = h.blocks[b].instrs;
        assert(all == x + y + z);
        assert forall|i: int| 0 <= i < all.len() implies links::inst_linked(
            n,
            f.blocks,
            #[trigger] all[i],
        ) by {
            if i < x.len() {
                assert(all[i] == x[i]);
            } else if i < x.len() + y.len() {
                assert(all[i] == y[i - x.len()]);
            } else {
                assert(all[i] == z[i - x.len() - y.len()]);
            }
        }
    }
    relinked(n, f, h);
}

proof fn split_in_range(instrs: Seq<InstV>)
    ensures
        0 <= promotion::split_at(instrs) <= instrs.len(),
    decreases instrs.len(),
{
    if instrs.len() > 0 {
        split_in_range(instrs.drop_last());
    }
}

/// Lowering leaves functions that refer only to what is there.
pub proof fn lowering_keeps_links(n: SizesV, funcs: Seq<FuncV>)
    requires
        links::funcs_linked(n, funcs),
    ensures
        links::funcs_linked(n, crate::codegen::lowered_funcs(funcs)),
{
    let new = crate::codegen::lowered_funcs(funcs);
    assert forall|i: int| 0 <= i < new.len() implies links::func_linked(n, #[trigger] new[i]) by {
        assert(links::func_linked(n, funcs[i]));
        lowering_keeps(n, funcs[i]);
    }
}

} // verus!

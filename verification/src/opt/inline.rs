//! Inlining of small functions that do not call themselves.

use crate::ir::{
    self, BlockV, FuncDeclIrV, FuncV, InstV, IrArithOp, IrBlock, IrFunc, IrFuncDecl, IrInst,
    IrOperand, IrProgram, IrType, ProgV,
};
use crate::opt::{const_fold, IrProgramPass};
use crate::promotion;
use crate::ssa;
use crate::text::{self, cat3, dec_usize};
use std::collections::{HashMap, HashSet};
use vstd::prelude::*;

verus! {

broadcast use {
    vstd::std_specs::hash::group_hash_axioms,
    crate::ir::insts_push,
    crate::ir::blocks_push,
    crate::ir::funcs_push,
};

pub struct Inline {
    /// The most instructions that an inlined function has.
    pub max_instrs: usize,
}

/// The number of instructions of some blocks.
pub open spec fn size(blocks: Seq<BlockV>) -> nat
    decreases blocks.len(),
{
    if blocks.len() == 0 {
        0
    } else {
        size(blocks.drop_last()) + blocks.last().instrs.len()
    }
}

/// Whether an instruction calls a function.
pub open spec fn is_call_to(i: InstV, name: usize) -> bool {
    i matches InstV::Call { func, .. } && func == name
}

/// Whether an instruction of a list calls a function.
pub open spec fn insts_call(instrs: Seq<InstV>, name: usize) -> bool {
    exists|i: int| 0 <= i < instrs.len() && is_call_to(#[trigger] instrs[i], name)
}

/// Whether some blocks call a function.
pub open spec fn blocks_call(blocks: Seq<BlockV>, name: usize) -> bool {
    exists|b: int| 0 <= b < blocks.len() && insts_call((#[trigger] blocks[b]).instrs, name)
}

/// Whether the last function with a name calls that name.
pub open spec fn calls_itself(funcs: Seq<FuncV>, name: usize) -> bool
    decreases funcs.len(),
{
    if funcs.len() == 0 {
        false
    } else if funcs.last().name == name {
        blocks_call(funcs.last().blocks, name)
    } else {
        calls_itself(funcs.drop_last(), name)
    }
}

/// Whether a name is that of a declared library function.
pub open spec fn is_declared(decls: Seq<FuncDeclIrV>, name: usize) -> bool {
    exists|i: int| 0 <= i < decls.len() && (#[trigger] decls[i]).name == name
}

/// Whether a function may be inlined: small, defined by the program, not recursive.
pub open spec fn suits(p: ProgV, f: FuncV, limit: usize) -> bool {
    !is_declared(p.func_decls, f.name) && size(f.blocks) <= limit && !calls_itself(p.funcs, f.name)
}

/// Whether a name is that of a function that may be inlined.
pub open spec fn inlinable(p: ProgV, name: usize, limit: usize) -> bool {
    exists|i: int| 0 <= i < p.funcs.len() && p.funcs[i].name == name && suits(
        p,
        #[trigger] p.funcs[i],
        limit,
    )
}

/// What the parameters of a function stand for in a call; missing arguments count as zero.
pub open spec fn bound(params: Seq<(usize, IrType)>, args: Seq<IrOperand>) -> Map<usize, IrOperand>
    decreases params.len(),
{
    if params.len() == 0 {
        Map::empty()
    } else {
        bound(params.drop_last(), args).insert(
            params.last().0,
            if params.len() <= args.len() {
                args[params.len() - 1]
            } else {
                IrOperand::Int(0)
            },
        )
    }
}

/// What the names of an inlined body stand for where it is inlined.
#[verifier::ext_equal]
pub struct RenamesV {
    /// For SSA values.
    pub locals: Map<usize, IrOperand>,
    /// For variables and parameters.
    pub globals: Map<usize, IrOperand>,
}

/// What new names are taken from.
#[verifier::ext_equal]
pub struct StockV {
    /// The next SSA value.
    pub local: int,
    /// The names of variables.
    pub names: Seq<Seq<char>>,
    /// Whether a call has been inlined.
    pub changed: bool,
}

/// A body on its way into a caller.
#[verifier::ext_equal]
pub struct BodyV {
    pub out: Seq<InstV>,
    pub renames: RenamesV,
    pub stock: StockV,
}

/// What an operand of an inlined body stands for.
pub open spec fn renamed(op: IrOperand, r: RenamesV) -> IrOperand {
    match op {
        IrOperand::Local(l) => if r.locals.contains_key(l) {
            r.locals[l]
        } else {
            op
        },
        IrOperand::Global(g) => if r.globals.contains_key(g) {
            r.globals[g]
        } else {
            op
        },
        _ => op,
    }
}

/// What operands of an inlined body stand for.
pub open spec fn renamed_all(ops: Seq<IrOperand>, r: RenamesV) -> Seq<IrOperand> {
    ops.map_values(|op: IrOperand| renamed(op, r))
}

/// An instruction with its operands renamed.
pub open spec fn renamed_inst(i: InstV, r: RenamesV) -> InstV {
    match i {
        InstV::Load { dest, src } => InstV::Load { dest, src: renamed(src, r) },
        InstV::Store { value, ptr } => InstV::Store {
            value: renamed(value, r),
            ptr: renamed(ptr, r),
        },
        InstV::Arith { dest, op, lhs, rhs } => InstV::Arith {
            dest,
            op,
            lhs: renamed(lhs, r),
            rhs: renamed(rhs, r),
        },
        InstV::Icmp { dest, op, lhs, rhs } => InstV::Icmp {
            dest,
            op,
            lhs: renamed(lhs, r),
            rhs: renamed(rhs, r),
        },
        InstV::GetPtr { dest, ptr, index, elem_size } => InstV::GetPtr {
            dest,
            ptr: renamed(ptr, r),
            index: renamed(index, r),
            elem_size,
        },
        InstV::GetElemPtr { dest, ptr, index, elem_size } => InstV::GetElemPtr {
            dest,
            ptr: renamed(ptr, r),
            index: renamed(index, r),
            elem_size,
        },
        InstV::Call { dest, func, args } => InstV::Call { dest, func, args: renamed_all(args, r) },
        InstV::Br { cond, then_bb, else_bb } => InstV::Br {
            cond: renamed(cond, r),
            then_bb,
            else_bb,
        },
        _ => i,
    }
}

/// The name of a variable that stands for variable `g` of an inlined body.
pub open spec fn variable_name(names: Seq<Seq<char>>, g: usize) -> Seq<char> {
    (if g < names.len() {
        names[g as int]
    } else {
        "@v"@
    }) + "_in"@ + text::dec_nat(names.len())
}

/// A body with one instruction more: values and variables that it defines are new ones, and a
/// return becomes a copy to the destination of the call.
pub open spec fn body_step(s: BodyV, i: InstV, dest: Option<usize>) -> BodyV {
    match i {
        InstV::Ret { value } => BodyV {
            out: match dest {
                Some(d) => s.out.push(
                    const_fold::copy_of(
                        d,
                        match value {
                            Some(v) => renamed(v, s.renames),
                            None => IrOperand::Int(0),
                        },
                    ),
                ),
                None => s.out,
            },
            ..s
        },
        InstV::Alloc { dest: g, ty } => {
            let n = s.stock.names.len() as usize;
            BodyV {
                out: s.out.push(InstV::Alloc { dest: n, ty }),
                renames: RenamesV {
                    globals: s.renames.globals.insert(g, IrOperand::Global(n)),
                    ..s.renames
                },
                stock: StockV {
                    names: s.stock.names.push(variable_name(s.stock.names, g)),
                    ..s.stock
                },
            }
        },
        _ => {
            let l = s.stock.local as usize;
            let out = s.out.push(ir::with_dest(renamed_inst(i, s.renames), l));
            match ir::inst_dest(i) {
                Some(d) => BodyV {
                    out,
                    renames: RenamesV {
                        locals: s.renames.locals.insert(d, IrOperand::Local(l)),
                        ..s.renames
                    },
                    stock: StockV { local: s.stock.local + 1, ..s.stock },
                },
                None => BodyV { out, ..s },
            }
        },
    }
}

/// A body with some instructions more.
pub open spec fn inlined_body(s: BodyV, instrs: Seq<InstV>, dest: Option<usize>) -> BodyV
    decreases instrs.len(),
{
    if instrs.len() == 0 {
        s
    } else {
        body_step(inlined_body(s, instrs.drop_last(), dest), instrs.last(), dest)
    }
}

/// The start of the body that stands for a call.
pub open spec fn body_start(
    params: Seq<(usize, IrType)>,
    args: Seq<IrOperand>,
    z: StockV,
) -> BodyV {
    let m = bound(params, args);
    BodyV {
        out: Seq::empty(),
        renames: RenamesV { locals: m, globals: m },
        stock: StockV { changed: true, ..z },
    }
}

/// Whether there are new names for the instructions of a body.
pub open spec fn suffices(z: StockV, count: nat) -> bool {
    z.local + count <= usize::MAX && z.names.len() + count <= usize::MAX
}

/// The function that a call is replaced by, where it is: an inlinable one of a single block.
pub open spec fn callee(p: ProgV, i: InstV, limit: usize, z: StockV) -> Option<FuncV> {
    match i {
        InstV::Call { func, .. } => if inlinable(p, func, limit) {
            match ir::func_position(p.funcs, func) {
                Some(k) => if p.funcs[k].blocks.len() == 1 && suffices(
                    z,
                    p.funcs[k].blocks[0].instrs.len(),
                ) {
                    Some(p.funcs[k])
                } else {
                    None
                },
                None => None,
            }
        } else {
            None
        },
        _ => None,
    }
}

/// What an instruction is replaced by.
pub open spec fn expanded_inst(p: ProgV, i: InstV, limit: usize, z: StockV) -> (
    Seq<InstV>,
    StockV,
) {
    match (callee(p, i, limit, z), i) {
        (Some(f), InstV::Call { dest, args, .. }) => {
            let s = inlined_body(body_start(f.params, args, z), f.blocks[0].instrs, dest);
            (s.out, s.stock)
        },
        _ => (seq![i], z),
    }
}

/// A list of instructions with its calls inlined.
pub open spec fn expanded_insts(p: ProgV, instrs: Seq<InstV>, limit: usize, z: StockV) -> (
    Seq<InstV>,
    StockV,
)
    decreases instrs.len(),
{
    if instrs.len() == 0 {
        (Seq::empty(), z)
    } else {
        let before = expanded_insts(p, instrs.drop_last(), limit, z);
        let r = expanded_inst(p, instrs.last(), limit, before.1);
        (before.0 + r.0, r.1)
    }
}

/// Blocks with their calls inlined.
pub open spec fn expanded_blocks(p: ProgV, blocks: Seq<BlockV>, limit: usize, z: StockV) -> (
    Seq<BlockV>,
    StockV,
)
    decreases blocks.len(),
{
    if blocks.len() == 0 {
        (Seq::empty(), z)
    } else {
        let before = expanded_blocks(p, blocks.drop_last(), limit, z);
        let r = expanded_insts(p, blocks.last().instrs, limit, before.1);
        (before.0.push(BlockV { instrs: r.0, ..blocks.last() }), r.1)
    }
}

/// A function with its calls inlined; its new values are above those it has.
pub open spec fn expanded_func(p: ProgV, f: FuncV, limit: usize, z: StockV) -> (FuncV, StockV) {
    let base = promotion::fresh_base(f.blocks);
    if base > usize::MAX {
        (f, z)
    } else {
        let r = expanded_blocks(p, f.blocks, limit, StockV { local: base, ..z });
        (FuncV { blocks: r.0, ..f }, r.1)
    }
}

/// Functions with their calls inlined.
pub open spec fn expanded_funcs(p: ProgV, funcs: Seq<FuncV>, limit: usize, z: StockV) -> (
    Seq<FuncV>,
    StockV,
)
    decreases funcs.len(),
{
    if funcs.len() == 0 {
        (Seq::empty(), z)
    } else {
        let before = expanded_funcs(p, funcs.drop_last(), limit, z);
        let r = expanded_func(p, funcs.last(), limit, before.1);
        (before.0.push(r.0), r.1)
    }
}

/// What inlining starts with.
pub open spec fn stock(p: ProgV) -> StockV {
    StockV { local: 0, names: p.global_names, changed: false }
}

/// A program with its calls inlined.
pub open spec fn expanded(p: ProgV, limit: usize) -> ProgV {
    let r = expanded_funcs(p, p.funcs, limit, stock(p));
    ProgV { funcs: r.0, global_names: r.1.names, ..p }
}

/// Whether a call of a program is inlined.
pub open spec fn expands(p: ProgV, limit: usize) -> bool {
    expanded_funcs(p, p.funcs, limit, stock(p)).1.changed
}

// ── Where there is nothing to inline ─────────────────────────────────────────

/// Whether no call of a list has the index of a function of a program.
pub open spec fn no_calls_in(p: ProgV, instrs: Seq<InstV>) -> bool {
    forall|i: int, k: int|
        #![trigger instrs[i], p.funcs[k]]
        0 <= i < instrs.len() && 0 <= k < p.funcs.len() ==> !is_call_to(instrs[i], p.funcs[k].name)
}

/// Whether no call of some blocks has the index of a function of a program.
pub open spec fn no_calls(p: ProgV, blocks: Seq<BlockV>) -> bool {
    forall|b: int| 0 <= b < blocks.len() ==> no_calls_in(p, (#[trigger] blocks[b]).instrs)
}

proof fn insts_stay(p: ProgV, instrs: Seq<InstV>, limit: usize, z: StockV)
    requires
        no_calls_in(p, instrs),
    ensures
        expanded_insts(p, instrs, limit, z) == (instrs, z),
    decreases instrs.len(),
{
    if instrs.len() > 0 {
        let front = instrs.drop_last();
        let n = instrs.len() - 1;
        assert forall|i: int, k: int|
            #![trigger front[i], p.funcs[k]]
            0 <= i < front.len() && 0 <= k < p.funcs.len() implies !is_call_to(
            front[i],
            p.funcs[k].name,
        ) by {
            assert(front[i] == instrs[i]);
        }
        insts_stay(p, front, limit, z);
        assert(callee(p, instrs[n], limit, z) is None) by {
            if let InstV::Call { func, .. } = instrs[n] {
                if inlinable(p, func, limit) {
                    let k = choose|k: int|
                        0 <= k < p.funcs.len() && p.funcs[k].name == func && suits(
                            p,
                            #[trigger] p.funcs[k],
                            limit,
                        );
                    assert(is_call_to(instrs[n], p.funcs[k].name));
                }
            }
        }
        assert(front + seq![instrs[n]] =~= instrs);
    } else {
        assert(instrs =~= Seq::empty());
    }
}

proof fn blocks_stay(p: ProgV, blocks: Seq<BlockV>, limit: usize, z: StockV)
    requires
        no_calls(p, blocks),
    ensures
        expanded_blocks(p, blocks, limit, z) == (blocks, z),
    decreases blocks.len(),
{
    if blocks.len() > 0 {
        let front = blocks.drop_last();
        let n = blocks.len() - 1;
        assert forall|b: int| 0 <= b < front.len() implies no_calls_in(
            p,
            (#[trigger] front[b]).instrs,
        ) by {
            assert(front[b] == blocks[b]);
        }
        blocks_stay(p, front, limit, z);
        assert(no_calls_in(p, blocks[n].instrs));
        insts_stay(p, blocks[n].instrs, limit, z);
        assert(front.push(blocks[n]) =~= blocks);
    } else {
        assert(blocks =~= Seq::empty());
    }
}

proof fn funcs_stay(p: ProgV, funcs: Seq<FuncV>, limit: usize, z: StockV)
    requires
        forall|i: int| 0 <= i < funcs.len() ==> no_calls(p, (#[trigger] funcs[i]).blocks),
    ensures
        expanded_funcs(p, funcs, limit, z).0 == funcs,
        expanded_funcs(p, funcs, limit, z).1.names == z.names,
        expanded_funcs(p, funcs, limit, z).1.changed == z.changed,
    decreases funcs.len(),
{
    if funcs.len() > 0 {
        let front = funcs.drop_last();
        let n = funcs.len() - 1;
        assert forall|i: int| 0 <= i < front.len() implies no_calls(
            p,
            (#[trigger] front[i]).blocks,
        ) by {
            assert(front[i] == funcs[i]);
        }
        funcs_stay(p, front, limit, z);
        let before = expanded_funcs(p, front, limit, z).1;
        assert(no_calls(p, funcs[n].blocks));
        blocks_stay(
            p,
            funcs[n].blocks,
            limit,
            StockV { local: promotion::fresh_base(funcs[n].blocks), ..before },
        );
        assert(front.push(funcs[n]) =~= funcs);
    } else {
        assert(funcs =~= Seq::empty());
    }
}

/// A program of which no call has the index of a function stays as it is.
pub proof fn nothing_to_inline(p: ProgV, limit: usize)
    requires
        forall|i: int| 0 <= i < p.funcs.len() ==> no_calls(p, (#[trigger] p.funcs[i]).blocks),
    ensures
        expanded(p, limit) == p,
        !expands(p, limit),
{
    funcs_stay(p, p.funcs, limit, stock(p));
}

// ── Which functions may be inlined ───────────────────────────────────────────

fn call_target(inst: &IrInst) -> (r: Option<usize>)
    ensures
        forall|name: usize| #[trigger] is_call_to(inst@, name) <==> r == Some(name),
{
    match inst {
        IrInst::Call { func, .. } => Some(*func),
        _ => None,
    }
}

fn block_calls(block: &IrBlock, name: usize) -> (r: bool)
    ensures
        r == insts_call(block@.instrs, name),
{
    let ghost all = block@.instrs;
    let mut i: usize = 0;
    while i < block.instrs.len()
        invariant
            i <= block.instrs.len(),
            all == block@.instrs,
            forall|k: int| 0 <= k < i ==> !is_call_to(#[trigger] all[k], name),
        decreases block.instrs.len() - i,
    {
        assert(all[i as int] == block.instrs@[i as int]@);
        if call_target(&block.instrs[i]) == Some(name) {
            assert(is_call_to(all[i as int], name));
            return true;
        }
        i = i + 1;
    }
    false
}

fn func_calls(func: &IrFunc, name: usize) -> (r: bool)
    ensures
        r == blocks_call(func@.blocks, name),
{
    let ghost all = func@.blocks;
    let mut b: usize = 0;
    while b < func.blocks.len()
        invariant
            b <= func.blocks.len(),
            all == func@.blocks,
            forall|k: int| 0 <= k < b ==> !insts_call((#[trigger] all[k]).instrs, name),
        decreases func.blocks.len() - b,
    {
        assert(all[b as int] == func.blocks@[b as int]@);
        if block_calls(&func.blocks[b], name) {
            assert(insts_call(all[b as int].instrs, name));
            return true;
        }
        b = b + 1;
    }
    false
}

fn is_recursive(funcs: &Vec<IrFunc>, name: usize) -> (r: bool)
    ensures
        r == calls_itself(ir::funcs_view(funcs@), name),
{
    let ghost all = ir::funcs_view(funcs@);
    let mut i: usize = funcs.len();
    assert(all.take(i as int) =~= all);
    while i > 0
        invariant
            i <= funcs.len(),
            all == ir::funcs_view(funcs@),
            calls_itself(all, name) == calls_itself(all.take(i as int), name),
        decreases i,
    {
        assert(all.take(i as int).drop_last() =~= all.take(i - 1));
        i = i - 1;
        assert(all[i as int] == funcs@[i as int]@);
        if funcs[i].name == name {
            return func_calls(&funcs[i], name);
        }
    }
    false
}

fn declares(decls: &Vec<IrFuncDecl>, name: usize) -> (r: bool)
    ensures
        r == is_declared(ir::decls_view(decls@), name),
{
    let ghost all = ir::decls_view(decls@);
    let mut i: usize = 0;
    while i < decls.len()
        invariant
            i <= decls.len(),
            all == ir::decls_view(decls@),
            forall|k: int| 0 <= k < i ==> (#[trigger] all[k]).name != name,
        decreases decls.len() - i,
    {
        assert(all[i as int].name == decls@[i as int].name);
        if decls[i].name == name {
            return true;
        }
        i = i + 1;
    }
    false
}

proof fn size_grows(blocks: Seq<BlockV>, k: int)
    requires
        0 <= k <= blocks.len(),
    ensures
        size(blocks.take(k)) <= size(blocks),
    decreases blocks.len() - k,
{
    if k == blocks.len() {
        assert(blocks.take(k) =~= blocks);
    } else {
        assert(blocks.take(k + 1).drop_last() =~= blocks.take(k));
        size_grows(blocks, k + 1);
    }
}

/// Whether a function has at most a number of instructions.
fn is_small(func: &IrFunc, limit: usize) -> (r: bool)
    ensures
        r == (size(func@.blocks) <= limit),
{
    let ghost all = func@.blocks;
    let mut count: usize = 0;
    let mut b: usize = 0;
    assert(all.take(0) =~= Seq::empty());
    while b < func.blocks.len()
        invariant
            b <= func.blocks.len(),
            all == func@.blocks,
            count == size(all.take(b as int)),
            count <= limit,
        decreases func.blocks.len() - b,
    {
        assert(all.take(b + 1).drop_last() =~= all.take(b as int));
        assert(all[b as int] == func.blocks@[b as int]@);
        let n = func.blocks[b].instrs.len();
        if n > limit - count {
            proof {
                size_grows(all, b + 1);
            }
            return false;
        }
        count = count + n;
        b = b + 1;
    }
    assert(all.take(b as int) =~= all);
    true
}

/// The names of the functions that may be inlined.
#[verifier::loop_isolation(false)]
fn find_inlinable(program: &IrProgram, limit: usize) -> (r: HashSet<usize>)
    ensures
        forall|name: usize| #[trigger] r@.contains(name) <==> inlinable(program@, name, limit),
{
    let mut names: HashSet<usize> = HashSet::new();
    let ghost p = program@;
    let mut i: usize = 0;
    while i < program.funcs.len()
        invariant
            i <= program.funcs.len(),
            forall|name: usize| #[trigger]
                names@.contains(name) <==> exists|k: int|
                    0 <= k < i && p.funcs[k].name == name && suits(p, #[trigger] p.funcs[k], limit),
        decreases program.funcs.len() - i,
    {
        let func = &program.funcs[i];
        assert(p.funcs[i as int] == func@);
        let ok = !declares(&program.func_decls, func.name) && is_small(func, limit)
            && !is_recursive(&program.funcs, func.name);
        assert(ok == suits(p, p.funcs[i as int], limit));
        let ghost before = names@;
        if ok {
            names.insert(func.name);
        }
        proof {
            assert forall|name: usize| #[trigger]
                names@.contains(name) <==> exists|k: int|
                    0 <= k < i + 1 && p.funcs[k].name == name && suits(
                        p,
                        #[trigger] p.funcs[k],
                        limit,
                    ) by {
                assert(before.contains(name) || !before.contains(name));
                if before.contains(name) {
                    let k = choose|k: int|
                        0 <= k < i && p.funcs[k].name == name && suits(
                            p,
                            #[trigger] p.funcs[k],
                            limit,
                        );
                    assert(suits(p, p.funcs[k], limit));
                }
            }
        }
        i = i + 1;
    }
    names
}

// ── Inlining ─────────────────────────────────────────────────────────────────

/// What the parameters of a function stand for in a call.
fn bind_params(params: &Vec<(usize, IrType)>, args: &Vec<IrOperand>) -> (r: HashMap<
    usize,
    IrOperand,
>)
    ensures
        r@ == bound(params@, args@),
{
    let mut map: HashMap<usize, IrOperand> = HashMap::new();
    let mut i: usize = 0;
    assert(params@.take(0) =~= Seq::empty());
    assert(map@ =~= bound(params@.take(0), args@));
    while i < params.len()
        invariant
            i <= params.len(),
            map@ == bound(params@.take(i as int), args@),
        decreases params.len() - i,
    {
        assert(params@.take(i + 1).drop_last() =~= params@.take(i as int));
        let arg = if i < args.len() {
            args[i]
        } else {
            IrOperand::Int(0)
        };
        map.insert(params[i].0, arg);
        i = i + 1;
    }
    assert(params@.take(i as int) =~= params@);
    map
}

/// What the names of an inlined body stand for.
struct Renames {
    locals: HashMap<usize, IrOperand>,
    globals: HashMap<usize, IrOperand>,
}

impl View for Renames {
    type V = RenamesV;

    closed spec fn view(&self) -> RenamesV {
        RenamesV { locals: self.locals@, globals: self.globals@ }
    }
}

/// What new names are taken from.
struct Stock {
    local: usize,
    names: Vec<String>,
    changed: bool,
}

impl View for Stock {
    type V = StockV;

    closed spec fn view(&self) -> StockV {
        StockV { local: self.local as int, names: text::texts(self.names@), changed: self.changed }
    }
}

fn rename(op: IrOperand, r: &Renames) -> (res: IrOperand)
    ensures
        res == renamed(op, r@),
{
    match op {
        IrOperand::Local(l) => match r.locals.get(&l) {
            Some(new) => *new,
            None => op,
        },
        IrOperand::Global(g) => match r.globals.get(&g) {
            Some(new) => *new,
            None => op,
        },
        _ => op,
    }
}

fn rename_list(ops: &Vec<IrOperand>, r: &Renames) -> (res: Vec<IrOperand>)
    ensures
        res@ == renamed_all(ops@, r@),
{
    let mut out: Vec<IrOperand> = Vec::new();
    let mut i: usize = 0;
    while i < ops.len()
        invariant
            i <= ops.len(),
            out@ =~= renamed_all(ops@.take(i as int), r@),
        decreases ops.len() - i,
    {
        out.push(rename(ops[i], r));
        i = i + 1;
        assert(ops@.take(i as int) =~= ops@.take(i - 1).push(ops@[i - 1]));
    }
    assert(ops@.take(i as int) =~= ops@);
    out
}

/// An instruction with its operands renamed, that defines a value, where it defines one, as `l`.
fn rename_inst(inst: &IrInst, r: &Renames, l: usize) -> (res: IrInst)
    requires
        !(inst@ is Alloc),
        !(inst@ is Ret),
    ensures
        res@ == ir::with_dest(renamed_inst(inst@, r@), l),
{
    match inst {
        IrInst::Load { src, .. } => IrInst::Load { dest: l, src: rename(*src, r) },
        IrInst::Store { value, ptr } => IrInst::Store {
            value: rename(*value, r),
            ptr: rename(*ptr, r),
        },
        IrInst::Arith { op, lhs, rhs, .. } => IrInst::Arith {
            dest: l,
            op: *op,
            lhs: rename(*lhs, r),
            rhs: rename(*rhs, r),
        },
        IrInst::Icmp { op, lhs, rhs, .. } => IrInst::Icmp {
            dest: l,
            op: *op,
            lhs: rename(*lhs, r),
            rhs: rename(*rhs, r),
        },
        IrInst::GetPtr { ptr, index, elem_size, .. } => IrInst::GetPtr {
            dest: l,
            ptr: rename(*ptr, r),
            index: rename(*index, r),
            elem_size: *elem_size,
        },
        IrInst::GetElemPtr { ptr, index, elem_size, .. } => IrInst::GetElemPtr {
            dest: l,
            ptr: rename(*ptr, r),
            index: rename(*index, r),
            elem_size: *elem_size,
        },
        IrInst::Call { dest, func, args } => IrInst::Call {
            dest: match dest {
                Some(_) => Some(l),
                None => None,
            },
            func: *func,
            args: rename_list(args, r),
        },
        IrInst::Br { cond, then_bb, else_bb } => IrInst::Br {
            cond: rename(*cond, r),
            then_bb: *then_bb,
            else_bb: *else_bb,
        },
        IrInst::Phi { incoming, .. } => IrInst::Phi {
            dest: l,
            incoming: ir::copy_incoming(incoming),
        },
        IrInst::Asm { dest, code } => IrInst::Asm {
            dest: match dest {
                Some(_) => Some(l),
                None => None,
            },
            code: code.clone(),
        },
        _ => inst.clone(),
    }
}

/// Adds a name for a variable of an inlined body.
fn add_variable(names: &mut Vec<String>, g: usize) -> (r: usize)
    ensures
        r == old(names)@.len(),
        text::texts(final(names)@) == text::texts(old(names)@).push(
            variable_name(text::texts(old(names)@), g),
        ),
{
    let n = names.len();
    let number = dec_usize(n);
    let name = if g < n {
        cat3(names[g].as_str(), "_in", number.as_str())
    } else {
        cat3("@v", "_in", number.as_str())
    };
    names.push(name);
    assert(text::texts(names@) =~= text::texts(old(names)@).push(name@));
    n
}

/// Adds the body of a function in place of a call.
#[verifier::loop_isolation(false)]
fn inline_call(
    callee: &IrFunc,
    out_instrs: &mut Vec<IrInst>,
    dest: Option<usize>,
    args: &Vec<IrOperand>,
    stock: &mut Stock,
)
    requires
        callee@.blocks.len() == 1,
        suffices(old(stock)@, callee@.blocks[0].instrs.len()),
    ensures
        ({
            let s = inlined_body(
                body_start(callee@.params, args@, old(stock)@),
                callee@.blocks[0].instrs,
                dest,
            );
            &&& ir::insts(final(out_instrs)@) == ir::insts(old(out_instrs)@) + s.out
            &&& final(stock)@ == s.stock
        }),
{
    let body = &callee.blocks[0].instrs;
    let ghost start = ir::insts(out_instrs@);
    let ghost first = body_start(callee@.params, args@, stock@);
    let mut renames = Renames {
        locals: bind_params(&callee.params, args),
        globals: bind_params(&callee.params, args),
    };
    stock.changed = true;
    let ghost z = stock@;
    let ghost all = callee@.blocks[0].instrs;
    assert(all == ir::insts(body@));
    let mut i: usize = 0;
    assert(all.take(0) =~= Seq::empty());
    assert(start + first.out =~= start);
    while i < body.len()
        invariant
            i <= body.len(),
            ({
                let s = inlined_body(first, all.take(i as int), dest);
                &&& ir::insts(out_instrs@) == start + s.out
                &&& renames@ == s.renames
                &&& stock@ == s.stock
            }),
            stock.local <= z.local + i,
            stock@.names.len() <= z.names.len() + i,
        decreases body.len() - i,
    {
        assert(all.take(i + 1).drop_last() =~= all.take(i as int));
        let ghost s = inlined_body(first, all.take(i as int), dest);
        let ghost next = inlined_body(first, all.take(i + 1), dest);
        let inst = &body[i];
        assert(all[i as int] == inst@);
        assert(next == body_step(s, inst@, dest));
        match inst {
            IrInst::Ret { value } => {
                if let Some(d) = dest {
                    let ret_val = match value {
                        Some(v) => rename(*v, &renames),
                        None => IrOperand::Int(0),
                    };
                    out_instrs.push(
                        IrInst::Arith {
                            dest: d,
                            op: IrArithOp::Add,
                            lhs: ret_val,
                            rhs: IrOperand::Int(0),
                        },
                    );
                }
            },
            IrInst::Alloc { dest: g, ty } => {
                let n = add_variable(&mut stock.names, *g);
                out_instrs.push(IrInst::Alloc { dest: n, ty: ty.clone() });
                renames.globals.insert(*g, IrOperand::Global(n));
            },
            _ => {
                out_instrs.push(rename_inst(inst, &renames, stock.local));
                if let Some(d) = inst.dest() {
                    renames.locals.insert(d, IrOperand::Local(stock.local));
                    stock.local = stock.local + 1;
                }
            },
        }
        assert(ir::insts(out_instrs@) =~= start + next.out);
        i = i + 1;
    }
    assert(all.take(i as int) =~= all);
}

/// The function that a call is replaced by.
fn find_callee<'a>(
    program: &'a IrProgram,
    inst: &IrInst,
    names: &HashSet<usize>,
    limit: usize,
    stock: &Stock,
) -> (r: Option<&'a IrFunc>)
    requires
        forall|name: usize| #[trigger] names@.contains(name) <==> inlinable(program@, name, limit),
    ensures
        match callee(program@, inst@, limit, stock@) {
            Some(f) => r matches Some(x) && x@ == f,
            None => r is None,
        },
{
    match call_target(inst) {
        Some(name) => {
            assert(is_call_to(inst@, name));
            if names.contains(&name) {
                match program.find_func(name) {
                    Some(f) => {
                        assert(f@.blocks.len() == f.blocks@.len());
                        if f.blocks.len() == 1 {
                            assert(f@.blocks[0] == f.blocks@[0]@);
                            let n = f.blocks[0].instrs.len();
                            if n <= usize::MAX - stock.local && n <= usize::MAX
                                - stock.names.len() {
                                Some(f)
                            } else {
                                None
                            }
                        } else {
                            None
                        }
                    },
                    None => None,
                }
            } else {
                None
            }
        },
        None => {
            proof {
                if let InstV::Call { func, .. } = inst@ {
                    assert(is_call_to(inst@, func));
                }
            }
            None
        },
    }
}

/// A list of instructions with its calls inlined.
#[verifier::loop_isolation(false)]
fn expand_insts(
    program: &IrProgram,
    instrs: &Vec<IrInst>,
    names: &HashSet<usize>,
    limit: usize,
    stock: &mut Stock,
) -> (r: Vec<IrInst>)
    requires
        forall|name: usize| #[trigger] names@.contains(name) <==> inlinable(program@, name, limit),
    ensures
        (ir::insts(r@), final(stock)@) == expanded_insts(
            program@,
            ir::insts(instrs@),
            limit,
            old(stock)@,
        ),
{
    let mut out: Vec<IrInst> = Vec::new();
    let ghost all = ir::insts(instrs@);
    let ghost p = program@;
    let ghost z = stock@;
    let mut i: usize = 0;
    assert(all.take(0) =~= Seq::empty());
    assert(ir::insts(out@) =~= Seq::<InstV>::empty());
    while i < instrs.len()
        invariant
            i <= instrs.len(),
            (ir::insts(out@), stock@) == expanded_insts(p, all.take(i as int), limit, z),
        decreases instrs.len() - i,
    {
        assert(all.take(i + 1).drop_last() =~= all.take(i as int));
        let ghost before = ir::insts(out@);
        let ghost had = stock@;
        let inst = &instrs[i];
        assert(all[i as int] == inst@);
        match find_callee(program, inst, names, limit, stock) {
            Some(f) => {
                if let IrInst::Call { dest, args, .. } = inst {
                    inline_call(f, &mut out, *dest, args, stock);
                }
            },
            None => {
                out.push(inst.clone());
                assert(ir::insts(out@) =~= before + seq![inst@]);
            },
        }
        assert((ir::insts(out@), stock@) == (
            before + expanded_inst(p, inst@, limit, had).0,
            expanded_inst(p, inst@, limit, had).1,
        ));
        i = i + 1;
    }
    assert(all.take(i as int) =~= all);
    out
}

/// A function with its calls inlined.
#[verifier::loop_isolation(false)]
fn expand_func(
    program: &IrProgram,
    func: &IrFunc,
    names: &HashSet<usize>,
    limit: usize,
    stock: &mut Stock,
) -> (r: IrFunc)
    requires
        forall|name: usize| #[trigger] names@.contains(name) <==> inlinable(program@, name, limit),
    ensures
        (r@, final(stock)@) == expanded_func(program@, func@, limit, old(stock)@),
{
    match ssa::fresh_base(&func.blocks) {
        Some(base) => {
            stock.local = base;
        },
        None => {
            return func.clone();
        },
    }
    let mut blocks: Vec<IrBlock> = Vec::new();
    let ghost p = program@;
    let ghost all = func@.blocks;
    let ghost z = stock@;
    let mut b: usize = 0;
    assert(all.take(0) =~= Seq::empty());
    assert(ir::blocks_view(blocks@) =~= Seq::<BlockV>::empty());
    while b < func.blocks.len()
        invariant
            b <= func.blocks.len(),
            (ir::blocks_view(blocks@), stock@) == expanded_blocks(
                p,
                all.take(b as int),
                limit,
                z,
            ),
        decreases func.blocks.len() - b,
    {
        assert(all.take(b + 1).drop_last() =~= all.take(b as int));
        let block = &func.blocks[b];
        assert(all[b as int] == block@);
        let instrs = expand_insts(program, &block.instrs, names, limit, stock);
        blocks.push(
            IrBlock { label: block.label, instrs, preds: ir::copy_indices(&block.preds) },
        );
        b = b + 1;
    }
    assert(all.take(b as int) =~= all);
    IrFunc {
        name: func.name,
        params: ir::copy_named_types(&func.params),
        ret_type: func.ret_type.clone(),
        allocas: ir::copy_named_types(&func.allocas),
        blocks,
    }
}

/// A copy of a table of names.
fn copy_names(names: &Vec<String>) -> (r: Vec<String>)
    ensures
        text::texts(r@) == text::texts(names@),
{
    let mut out: Vec<String> = Vec::new();
    let mut i: usize = 0;
    while i < names.len()
        invariant
            i <= names.len(),
            text::texts(out@) =~= text::texts(names@.take(i as int)),
        decreases names.len() - i,
    {
        out.push(names[i].clone());
        i = i + 1;
        assert(names@.take(i as int) =~= names@.take(i - 1).push(names@[i - 1]));
        assert(text::texts(out@) =~= text::texts(names@.take(i - 1)).push(names@[i - 1]@));
    }
    assert(names@.take(i as int) =~= names@);
    out
}

impl Inline {
    pub fn new() -> (r: Self)
        ensures
            r.max_instrs == 50,
    {
        Inline { max_instrs: 50 }
    }

    pub fn with_limit(max_instrs: usize) -> (r: Self)
        ensures
            r.max_instrs == max_instrs,
    {
        Inline { max_instrs }
    }
}

impl IrProgramPass for Inline {
    open spec fn applied(&self, p: ProgV) -> ProgV {
        expanded(p, self.max_instrs)
    }

    open spec fn changes(&self, p: ProgV) -> bool {
        expands(p, self.max_instrs)
    }

    open spec fn title(&self) -> Seq<char> {
        "inline"@
    }

    fn name(&self) -> (r: &str) {
        "inline"
    }

    #[verifier::loop_isolation(false)]
    fn run(&self, program: &mut IrProgram) -> (r: bool) {
        let ghost p = program@;
        let names = find_inlinable(program, self.max_instrs);
        let mut funcs: Vec<IrFunc> = Vec::new();
        let mut stock = Stock {
            local: 0,
            names: copy_names(&program.global_names),
            changed: false,
        };
        let mut i: usize = 0;
        assert(p.funcs.take(0) =~= Seq::empty());
        assert(ir::funcs_view(funcs@) =~= Seq::<FuncV>::empty());
        while i < program.funcs.len()
            invariant
                i <= program.funcs.len(),
                (ir::funcs_view(funcs@), stock@) == expanded_funcs(
                    p,
                    p.funcs.take(i as int),
                    self.max_instrs,
                    self::stock(p),
                ),
            decreases program.funcs.len() - i,
        {
            assert(p.funcs[i as int] == program.funcs@[i as int]@);
            assert(p.funcs.take(i + 1).drop_last() =~= p.funcs.take(i as int));
            let func = expand_func(
                program,
                &program.funcs[i],
                &names,
                self.max_instrs,
                &mut stock,
            );
            funcs.push(func);
            i = i + 1;
        }
        assert(p.funcs.take(i as int) =~= p.funcs);
        program.funcs = funcs;
        program.global_names = stock.names;
        stock.changed
    }
}

} // verus!

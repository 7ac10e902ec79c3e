//! The stack frame of a function.
//!
//! From the stack pointer up: the variables, a slot for each SSA value, room for the arguments of a
//! call, the parameters that have no variable, and the return address.

use crate::ir::{self, BlockV, FuncV, InstV, IrBlock, IrFunc, IrInst, IrType};
use std::collections::HashMap;
use vstd::prelude::*;

verus! {

broadcast use vstd::std_specs::hash::group_hash_axioms;

/// The number of arguments that are passed in registers.
pub const REG_ARGS: usize = 8;

/// The size of a value of a type in bytes, where it can be counted.
pub open spec fn type_size(ty: IrType) -> Option<usize>
    decreases ty,
{
    match ty {
        IrType::Array(inner, n) => match type_size(*inner) {
            Some(s) => if s * n <= usize::MAX {
                Some((s * n) as usize)
            } else {
                None
            },
            None => None,
        },
        _ => Some(4usize),
    }
}

/// The size of a value of a type in bytes, where it can be counted.
pub fn size_of_type(ty: &IrType) -> (r: Option<usize>)
    ensures
        r == type_size(*ty),
    decreases ty,
{
    match ty {
        IrType::Array(inner, n) => {
            let inner: &IrType = &*inner;
            match size_of_type(inner) {
                Some(s) => s.checked_mul(*n as usize),
                None => None,
            }
        },
        _ => Some(4),
    }
}

/// The next multiple of 16.
pub open spec fn align16(x: int) -> int {
    (x + 15) / 16 * 16
}

// ── Layout ───────────────────────────────────────────────────────────────────

/// Offsets, and where they end.
pub type Offsets = (Map<usize, i32>, i32);

/// The offsets after one more instruction: a variable gets as many bytes as its type has.
pub open spec fn alloc_at(s: Option<Offsets>, i: InstV) -> Option<Offsets> {
    match (s, i) {
        (Some(o), InstV::Alloc { dest, ty }) => match type_size(ty) {
            Some(n) => if o.1 + n <= i32::MAX {
                Some((o.0.insert(dest, o.1), (o.1 + n) as i32))
            } else {
                None
            },
            None => None,
        },
        _ => s,
    }
}

/// The offsets after one more instruction: an SSA value gets a word where it is first defined.
pub open spec fn local_at(s: Option<Offsets>, i: InstV) -> Option<Offsets> {
    match (s, ir::inst_dest(i)) {
        (Some(o), Some(d)) => if i is Alloc || o.0.contains_key(d) {
            s
        } else if o.1 + 4 <= i32::MAX {
            Some((o.0.insert(d, o.1), (o.1 + 4) as i32))
        } else {
            None
        },
        _ => s,
    }
}

/// The offsets of the variables of a list of instructions.
pub open spec fn allocs_in(instrs: Seq<InstV>, s: Option<Offsets>) -> Option<Offsets>
    decreases instrs.len(),
{
    if instrs.len() == 0 {
        s
    } else {
        alloc_at(allocs_in(instrs.drop_last(), s), instrs.last())
    }
}

/// The offsets of the variables of some blocks.
pub open spec fn allocs(blocks: Seq<BlockV>) -> Option<Offsets>
    decreases blocks.len(),
{
    if blocks.len() == 0 {
        Some((Map::empty(), 0i32))
    } else {
        allocs_in(blocks.last().instrs, allocs(blocks.drop_last()))
    }
}

/// The offsets of the SSA values of a list of instructions.
pub open spec fn locals_in(instrs: Seq<InstV>, s: Option<Offsets>) -> Option<Offsets>
    decreases instrs.len(),
{
    if instrs.len() == 0 {
        s
    } else {
        local_at(locals_in(instrs.drop_last(), s), instrs.last())
    }
}

/// The offsets of the SSA values of some blocks, from an offset on.
pub open spec fn locals(blocks: Seq<BlockV>, start: i32) -> Option<Offsets>
    decreases blocks.len(),
{
    if blocks.len() == 0 {
        Some((Map::empty(), start))
    } else {
        locals_in(blocks.last().instrs, locals(blocks.drop_last(), start))
    }
}

/// The number of arguments of a call.
pub open spec fn arg_count(i: InstV) -> nat {
    match i {
        InstV::Call { args, .. } => args.len(),
        _ => 0,
    }
}

/// The greatest number of arguments of a call in a list of instructions, or `least`.
pub open spec fn max_args_in(instrs: Seq<InstV>, least: nat) -> nat
    decreases instrs.len(),
{
    if instrs.len() == 0 {
        least
    } else {
        let before = max_args_in(instrs.drop_last(), least);
        if arg_count(instrs.last()) > before {
            arg_count(instrs.last())
        } else {
            before
        }
    }
}

/// The greatest number of arguments of a call in some blocks.
pub open spec fn max_args(blocks: Seq<BlockV>) -> nat
    decreases blocks.len(),
{
    if blocks.len() == 0 {
        0
    } else {
        max_args_in(blocks.last().instrs, max_args(blocks.drop_last()))
    }
}

/// The slots of those among the first `n` parameters that have no variable, and where they end.
pub open spec fn param_spills(
    vars: Map<usize, i32>,
    params: Seq<(usize, IrType)>,
    n: int,
    start: int,
) -> (Map<usize, i32>, int)
    decreases n,
{
    if n <= 0 {
        (Map::empty(), start)
    } else {
        let before = param_spills(vars, params, n - 1, start);
        if vars.contains_key(params[n - 1].0) {
            before
        } else {
            (before.0.insert(params[n - 1].0, before.1 as i32), before.1 + 4)
        }
    }
}

/// The numbers of the argument registers of the first `n` parameters.
pub open spec fn param_regs(params: Seq<(usize, IrType)>, n: int) -> Map<usize, usize>
    decreases n,
{
    if n <= 0 {
        Map::empty()
    } else {
        param_regs(params, n - 1).insert(params[n - 1].0, (n - 1) as usize)
    }
}

/// The offsets of those among the first `n` parameters that the caller has left on the stack.
pub open spec fn stack_params(params: Seq<(usize, IrType)>, n: int, size: int) -> Map<usize, i32>
    decreases n,
{
    if n <= REG_ARGS {
        Map::empty()
    } else {
        stack_params(params, n - 1, size).insert(
            params[n - 1].0,
            (size + (n - 1 - REG_ARGS) * 4) as i32,
        )
    }
}

/// The number of parameters that come in registers.
pub open spec fn reg_params(f: FuncV) -> int {
    if f.params.len() < REG_ARGS {
        f.params.len() as int
    } else {
        REG_ARGS as int
    }
}

/// The stack frame of a function.
#[verifier::ext_equal]
pub struct FrameV {
    /// The offsets of variables.
    pub vars: Map<usize, i32>,
    /// The offsets of SSA values.
    pub locals: Map<usize, i32>,
    /// Where the arguments of a call are kept.
    pub args: i32,
    /// The registers of parameters.
    pub regs: Map<usize, usize>,
    /// The offsets of parameters that come in registers and have no variable.
    pub spills: Map<usize, i32>,
    /// The offsets of parameters that the caller has left on the stack.
    pub stack: Map<usize, i32>,
    /// The size of the frame.
    pub size: i32,
    /// The offset of the return address.
    pub ra: i32,
    /// Whether the function calls another, so that the return address has to be kept.
    pub calls: bool,
}

/// Whether an instruction of some blocks is a call.
pub open spec fn has_calls(blocks: Seq<BlockV>) -> bool {
    exists|b: int, i: int|
        #![trigger blocks[b].instrs[i]]
        0 <= b < blocks.len() && 0 <= i < blocks[b].instrs.len() && blocks[b].instrs[i] is Call
}

/// The size of a frame without slots for parameters.
pub open spec fn base_size(blocks: Seq<BlockV>, locals_end: i32) -> int {
    align16(align16(locals_end + 4 * max_args(blocks)) + 4)
}

/// The size of a frame whose slots for parameters end at an offset.
pub open spec fn full_size(base: int, spills_end: int) -> int {
    if spills_end > base {
        align16(spills_end + 4)
    } else {
        base
    }
}

/// The stack frame of a function, where its offsets fit machine words.
pub open spec fn frame(f: FuncV) -> Option<FrameV> {
    match allocs(f.blocks) {
        Some((vars, vars_end)) => match locals(f.blocks, vars_end) {
            Some((slots, locals_end)) => {
                let base = base_size(f.blocks, locals_end);
                let (spills, spills_end) = param_spills(vars, f.params, reg_params(f), base);
                let size = full_size(base, spills_end);
                if size + 4 * f.params.len() <= i32::MAX {
                    Some(
                        FrameV {
                            vars,
                            locals: slots,
                            args: locals_end,
                            regs: param_regs(f.params, reg_params(f)),
                            spills,
                            stack: stack_params(f.params, f.params.len() as int, size),
                            size: size as i32,
                            ra: (size - 4) as i32,
                            calls: has_calls(f.blocks),
                        },
                    )
                } else {
                    None
                }
            },
            None => None,
        },
        None => None,
    }
}

/// The offset of an SSA value; zero for one that is not defined.
pub open spec fn slot(fr: FrameV, l: usize) -> i32 {
    if fr.locals.contains_key(l) {
        fr.locals[l]
    } else {
        0
    }
}

/// The stack frame of a function.
pub struct FrameInfo {
    pub vars: HashMap<usize, i32>,
    pub locals: HashMap<usize, i32>,
    pub args: i32,
    pub regs: HashMap<usize, usize>,
    pub spills: HashMap<usize, i32>,
    pub stack: HashMap<usize, i32>,
    pub size: i32,
    pub ra: i32,
    pub calls: bool,
}

impl View for FrameInfo {
    type V = FrameV;

    open spec fn view(&self) -> FrameV {
        FrameV {
            vars: self.vars@,
            locals: self.locals@,
            args: self.args,
            regs: self.regs@,
            spills: self.spills@,
            stack: self.stack@,
            size: self.size,
            ra: self.ra,
            calls: self.calls,
        }
    }
}

// ── Computing the layout ─────────────────────────────────────────────────────

/// Gives a variable its offset. Returns where the offsets end then.
fn add_alloc(vars: &mut HashMap<usize, i32>, end: i32, inst: &IrInst) -> (r: Option<i32>)
    requires
        end >= 0,
    ensures
        match r {
            Some(e) => e >= 0 && alloc_at(Some((old(vars)@, end)), inst@) == Some(
                (final(vars)@, e),
            ),
            None => alloc_at(Some((old(vars)@, end)), inst@) is None,
        },
{
    if let IrInst::Alloc { dest, ty } = inst {
        match size_of_type(ty) {
            Some(n) => {
                if n <= (i32::MAX - end) as usize {
                    vars.insert(*dest, end);
                    Some(end + n as i32)
                } else {
                    None
                }
            },
            None => None,
        }
    } else {
        Some(end)
    }
}

proof fn no_allocs_from_none(instrs: Seq<InstV>)
    ensures
        allocs_in(instrs, None) is None,
    decreases instrs.len(),
{
    if instrs.len() > 0 {
        no_allocs_from_none(instrs.drop_last());
    }
}

proof fn no_allocs_in_prefix(instrs: Seq<InstV>, s: Option<Offsets>, k: int)
    requires
        0 <= k <= instrs.len(),
        allocs_in(instrs.take(k), s) is None,
    ensures
        allocs_in(instrs, s) is None,
    decreases instrs.len() - k,
{
    if k == instrs.len() {
        assert(instrs.take(k) =~= instrs);
    } else {
        assert(instrs.take(k + 1).drop_last() =~= instrs.take(k));
        no_allocs_in_prefix(instrs, s, k + 1);
    }
}

proof fn no_allocs_after(blocks: Seq<BlockV>, k: int)
    requires
        0 <= k <= blocks.len(),
        allocs(blocks.take(k)) is None,
    ensures
        allocs(blocks) is None,
    decreases blocks.len() - k,
{
    if k == blocks.len() {
        assert(blocks.take(k) =~= blocks);
    } else {
        assert(blocks.take(k + 1).drop_last() =~= blocks.take(k));
        no_allocs_from_none(blocks[k].instrs);
        no_allocs_after(blocks, k + 1);
    }
}

/// The offsets of variables, and where they end.
#[verifier::loop_isolation(false)]
fn lay_out_vars(blocks: &Vec<IrBlock>) -> (r: Option<(HashMap<usize, i32>, i32)>)
    ensures
        match r {
            Some(o) => o.1 >= 0 && allocs(ir::blocks_view(blocks@)) == Some((o.0@, o.1)),
            None => allocs(ir::blocks_view(blocks@)) is None,
        },
{
    let ghost all = ir::blocks_view(blocks@);
    let mut vars: HashMap<usize, i32> = HashMap::new();
    let mut end: i32 = 0;
    let mut b: usize = 0;
    while b < blocks.len()
        invariant
            b <= blocks.len(),
            end >= 0,
            allocs(all.take(b as int)) == Some((vars@, end)),
        decreases blocks.len() - b,
    {
        let block = &blocks[b];
        let ghost list = block@.instrs;
        let ghost start = Some((vars@, end));
        assert(all[b as int] == block@);
        assert(all.take(b + 1).drop_last() =~= all.take(b as int));
        let mut i: usize = 0;
        while i < block.instrs.len()
            invariant
                i <= block.instrs.len(),
                end >= 0,
                allocs_in(list.take(i as int), start) == Some((vars@, end)),
            decreases block.instrs.len() - i,
        {
            assert(list[i as int] == block.instrs@[i as int]@);
            assert(list.take(i + 1).drop_last() =~= list.take(i as int));
            match add_alloc(&mut vars, end, &block.instrs[i]) {
                Some(e) => {
                    end = e;
                },
                None => {
                    proof {
                        no_allocs_in_prefix(list, start, i + 1);
                        no_allocs_after(all, b + 1);
                    }
                    return None;
                },
            }
            i = i + 1;
        }
        assert(list.take(i as int) =~= list);
        b = b + 1;
    }
    assert(all.take(b as int) =~= all);
    Some((vars, end))
}

/// Gives an SSA value its slot. Returns where the slots end then.
fn add_local(slots: &mut HashMap<usize, i32>, end: i32, inst: &IrInst) -> (r: Option<i32>)
    requires
        end >= 0,
    ensures
        match r {
            Some(e) => e >= 0 && local_at(Some((old(slots)@, end)), inst@) == Some(
                (final(slots)@, e),
            ),
            None => local_at(Some((old(slots)@, end)), inst@) is None,
        },
{
    if matches!(inst, IrInst::Alloc { .. }) {
        return Some(end);
    }
    match inst.dest() {
        Some(d) => {
            if slots.contains_key(&d) {
                Some(end)
            } else if end <= i32::MAX - 4 {
                slots.insert(d, end);
                Some(end + 4)
            } else {
                None
            }
        },
        None => Some(end),
    }
}

proof fn no_locals_from_none(instrs: Seq<InstV>)
    ensures
        locals_in(instrs, None) is None,
    decreases instrs.len(),
{
    if instrs.len() > 0 {
        no_locals_from_none(instrs.drop_last());
    }
}

proof fn no_locals_in_prefix(instrs: Seq<InstV>, s: Option<Offsets>, k: int)
    requires
        0 <= k <= instrs.len(),
        locals_in(instrs.take(k), s) is None,
    ensures
        locals_in(instrs, s) is None,
    decreases instrs.len() - k,
{
    if k == instrs.len() {
        assert(instrs.take(k) =~= instrs);
    } else {
        assert(instrs.take(k + 1).drop_last() =~= instrs.take(k));
        no_locals_in_prefix(instrs, s, k + 1);
    }
}

proof fn no_locals_after(blocks: Seq<BlockV>, start: i32, k: int)
    requires
        0 <= k <= blocks.len(),
        locals(blocks.take(k), start) is None,
    ensures
        locals(blocks, start) is None,
    decreases blocks.len() - k,
{
    if k == blocks.len() {
        assert(blocks.take(k) =~= blocks);
    } else {
        assert(blocks.take(k + 1).drop_last() =~= blocks.take(k));
        no_locals_from_none(blocks[k].instrs);
        no_locals_after(blocks, start, k + 1);
    }
}

/// The slots of SSA values, and where they end.
#[verifier::loop_isolation(false)]
fn lay_out_locals(blocks: &Vec<IrBlock>, from: i32) -> (r: Option<(HashMap<usize, i32>, i32)>)
    requires
        from >= 0,
    ensures
        match r {
            Some(o) => o.1 >= 0 && locals(ir::blocks_view(blocks@), from) == Some((o.0@, o.1)),
            None => locals(ir::blocks_view(blocks@), from) is None,
        },
{
    let ghost all = ir::blocks_view(blocks@);
    let mut slots: HashMap<usize, i32> = HashMap::new();
    let mut end = from;
    let mut b: usize = 0;
    while b < blocks.len()
        invariant
            b <= blocks.len(),
            end >= 0,
            locals(all.take(b as int), from) == Some((slots@, end)),
        decreases blocks.len() - b,
    {
        let block = &blocks[b];
        let ghost list = block@.instrs;
        let ghost start = Some((slots@, end));
        assert(all[b as int] == block@);
        assert(all.take(b + 1).drop_last() =~= all.take(b as int));
        let mut i: usize = 0;
        while i < block.instrs.len()
            invariant
                i <= block.instrs.len(),
                end >= 0,
                locals_in(list.take(i as int), start) == Some((slots@, end)),
            decreases block.instrs.len() - i,
        {
            assert(list[i as int] == block.instrs@[i as int]@);
            assert(list.take(i + 1).drop_last() =~= list.take(i as int));
            match add_local(&mut slots, end, &block.instrs[i]) {
                Some(e) => {
                    end = e;
                },
                None => {
                    proof {
                        no_locals_in_prefix(list, start, i + 1);
                        no_locals_after(all, from, b + 1);
                    }
                    return None;
                },
            }
            i = i + 1;
        }
        assert(list.take(i as int) =~= list);
        b = b + 1;
    }
    assert(all.take(b as int) =~= all);
    Some((slots, end))
}

/// The greatest number of arguments of a call.
#[verifier::loop_isolation(false)]
fn most_args(blocks: &Vec<IrBlock>) -> (r: usize)
    ensures
        r == max_args(ir::blocks_view(blocks@)),
{
    let ghost all = ir::blocks_view(blocks@);
    let mut m: usize = 0;
    let mut b: usize = 0;
    while b < blocks.len()
        invariant
            b <= blocks.len(),
            m == max_args(all.take(b as int)),
        decreases blocks.len() - b,
    {
        let block = &blocks[b];
        let ghost list = block@.instrs;
        let ghost least = m as nat;
        assert(all[b as int] == block@);
        assert(all.take(b + 1).drop_last() =~= all.take(b as int));
        let mut i: usize = 0;
        while i < block.instrs.len()
            invariant
                i <= block.instrs.len(),
                m == max_args_in(list.take(i as int), least),
            decreases block.instrs.len() - i,
        {
            assert(list[i as int] == block.instrs@[i as int]@);
            assert(list.take(i + 1).drop_last() =~= list.take(i as int));
            if let IrInst::Call { args, .. } = &block.instrs[i] {
                if args.len() > m {
                    m = args.len();
                }
            }
            i = i + 1;
        }
        assert(list.take(i as int) =~= list);
        b = b + 1;
    }
    assert(all.take(b as int) =~= all);
    m
}

pub(crate) fn round_up(x: i64) -> (r: i64)
    requires
        0 <= x <= 0x1000_0000_0000,
    ensures
        r == align16(x as int),
        x <= r <= x + 15,
{
    (x + 15) / 16 * 16
}

/// The slots of the parameters that have no variable, and where they end.
#[verifier::loop_isolation(false)]
fn lay_out_spills(
    vars: &HashMap<usize, i32>,
    params: &Vec<(usize, IrType)>,
    n: usize,
    start: i64,
) -> (r: (HashMap<usize, i32>, i64))
    requires
        n <= params@.len(),
        n <= REG_ARGS,
        0 <= start <= i32::MAX,
    ensures
        (r.0@, r.1 as int) == param_spills(vars@, params@, n as int, start as int),
        start <= r.1 <= start + 4 * n,
{
    let mut spills: HashMap<usize, i32> = HashMap::new();
    let mut end = start;
    let mut i: usize = 0;
    while i < n
        invariant
            i <= n,
            start <= end <= start + 4 * i,
            (spills@, end as int) == param_spills(vars@, params@, i as int, start as int),
        decreases n - i,
    {
        if !vars.contains_key(&params[i].0) {
            #[verifier::truncate]
            let slot = end as i32;
            spills.insert(params[i].0, slot);
            end = end + 4;
        }
        i = i + 1;
    }
    (spills, end)
}

/// The stack frame of a function, where its offsets fit machine words.
#[verifier::loop_isolation(false)]
pub fn compute_frame(func: &IrFunc) -> (r: Option<FrameInfo>)
    ensures
        match r {
            Some(x) => frame(func@) == Some(x@),
            None => frame(func@) is None,
        },
{
    let (vars, vars_end) = lay_out_vars(&func.blocks)?;
    let (slots, locals_end) = lay_out_locals(&func.blocks, vars_end)?;
    let most = most_args(&func.blocks);
    let count = func.params.len();
    let ghost base_s = base_size(func@.blocks, locals_end);
    let ghost spills_s = param_spills(vars@, func@.params, reg_params(func@), base_s);
    proof {
        spills_end(vars@, func@.params, reg_params(func@), base_s);
    }
    if most > 0x1fff_ffff || count > 0x1fff_ffff {
        return None;
    }
    let base = round_up(round_up(locals_end as i64 + 4 * most as i64) + 4);
    if base > i32::MAX as i64 {
        return None;
    }
    let in_regs = if count < REG_ARGS {
        count
    } else {
        REG_ARGS
    };
    let (spills, spills_end) = lay_out_spills(&vars, &func.params, in_regs, base);
    let size = if spills_end > base {
        round_up(spills_end + 4)
    } else {
        base
    };
    if size + 4 * count as i64 > i32::MAX as i64 {
        return None;
    }
    let mut regs: HashMap<usize, usize> = HashMap::new();
    let mut i: usize = 0;
    while i < in_regs
        invariant
            i <= in_regs,
            regs@ == param_regs(func@.params, i as int),
        decreases in_regs - i,
    {
        regs.insert(func.params[i].0, i);
        i = i + 1;
    }
    let mut stack: HashMap<usize, i32> = HashMap::new();
    let mut k = in_regs;
    while k < count
        invariant
            in_regs <= k <= count,
            stack@ == stack_params(func@.params, k as int, size as int),
        decreases count - k,
    {
        stack.insert(func.params[k].0, size as i32 + (k - REG_ARGS) as i32 * 4);
        k = k + 1;
    }
    Some(
        FrameInfo {
            vars,
            locals: slots,
            args: locals_end,
            regs,
            spills,
            stack,
            size: size as i32,
            ra: size as i32 - 4,
            calls: find_call(&func.blocks),
        },
    )
}

/// Whether an instruction of some blocks is a call.
#[verifier::loop_isolation(false)]
fn find_call(blocks: &Vec<IrBlock>) -> (r: bool)
    ensures
        r == has_calls(ir::blocks_view(blocks@)),
{
    let ghost all = ir::blocks_view(blocks@);
    let mut b: usize = 0;
    while b < blocks.len()
        invariant
            b <= blocks.len(),
            forall|x: int, i: int|
                #![trigger all[x].instrs[i]]
                0 <= x < b && 0 <= i < all[x].instrs.len() ==> !(all[x].instrs[i] is Call),
        decreases blocks.len() - b,
    {
        assert(all[b as int] == blocks@[b as int]@);
        let mut i: usize = 0;
        while i < blocks[b].instrs.len()
            invariant
                i <= blocks@[b as int].instrs@.len(),
                forall|k: int| 0 <= k < i ==> !(#[trigger] all[b as int].instrs[k] is Call),
            decreases blocks@[b as int].instrs@.len() - i,
        {
            assert(all[b as int].instrs[i as int] == blocks@[b as int].instrs@[i as int]@);
            if matches!(blocks[b].instrs[i], IrInst::Call { .. }) {
                return true;
            }
            i = i + 1;
        }
        b = b + 1;
    }
    false
}

proof fn spills_end(vars: Map<usize, i32>, params: Seq<(usize, IrType)>, n: int, start: int)
    ensures
        param_spills(vars, params, n, start).1 >= start,
    decreases n,
{
    if n > 0 {
        spills_end(vars, params, n - 1, start);
    }
}

// ── What the layout guarantees ───────────────────────────────────────────────

/// The sizes of variables after one more instruction.
pub open spec fn size_at(sizes: Map<usize, int>, i: InstV) -> Map<usize, int> {
    match i {
        InstV::Alloc { dest, ty } => match type_size(ty) {
            Some(n) => sizes.insert(dest, n as int),
            None => sizes,
        },
        _ => sizes,
    }
}

/// The sizes of the variables of a list of instructions.
pub open spec fn sizes_in(instrs: Seq<InstV>, sizes: Map<usize, int>) -> Map<usize, int>
    decreases instrs.len(),
{
    if instrs.len() == 0 {
        sizes
    } else {
        size_at(sizes_in(instrs.drop_last(), sizes), instrs.last())
    }
}

/// The sizes of the variables of some blocks.
pub open spec fn var_sizes(blocks: Seq<BlockV>) -> Map<usize, int>
    decreases blocks.len(),
{
    if blocks.len() == 0 {
        Map::empty()
    } else {
        sizes_in(blocks.last().instrs, var_sizes(blocks.drop_last()))
    }
}

/// The ranges of bytes at given offsets lie from `start` to `end`, and no two of them overlap.
pub open spec fn apart(
    offsets: Map<usize, i32>,
    sizes: spec_fn(usize) -> int,
    start: int,
    end: int,
) -> bool {
    &&& start <= end
    &&& forall|d: usize| #[trigger]
        offsets.contains_key(d) ==> start <= offsets[d] && 0 <= sizes(d) && offsets[d] + sizes(d)
            <= end
    &&& forall|d: usize, e: usize| #[trigger]
        offsets.contains_key(d) && #[trigger] offsets.contains_key(e) && d != e ==> offsets[d]
            + sizes(d) <= offsets[e] || offsets[e] + sizes(e) <= offsets[d]
}

/// The size of a variable among given sizes.
pub open spec fn size_among(sizes: Map<usize, int>) -> spec_fn(usize) -> int {
    |d: usize| sizes[d]
}

/// The size of a word.
pub open spec fn word() -> spec_fn(usize) -> int {
    |d: usize| 4int
}

proof fn allocs_in_apart(instrs: Seq<InstV>, o: Offsets, sizes: Map<usize, int>)
    requires
        apart(o.0, size_among(sizes), 0, o.1 as int),
        allocs_in(instrs, Some(o)) is Some,
    ensures
        apart(
            (allocs_in(instrs, Some(o))->0).0,
            size_among(sizes_in(instrs, sizes)),
            0,
            (allocs_in(instrs, Some(o))->0).1 as int,
        ),
    decreases instrs.len(),
{
    if instrs.len() > 0 {
        allocs_in_apart(instrs.drop_last(), o, sizes);
    }
}

proof fn allocs_apart(blocks: Seq<BlockV>)
    requires
        allocs(blocks) is Some,
    ensures
        apart(
            (allocs(blocks)->0).0,
            size_among(var_sizes(blocks)),
            0,
            (allocs(blocks)->0).1 as int,
        ),
    decreases blocks.len(),
{
    if blocks.len() > 0 {
        if allocs(blocks.drop_last()) is None {
            no_allocs_from_none(blocks.last().instrs);
        }
        allocs_apart(blocks.drop_last());
        allocs_in_apart(
            blocks.last().instrs,
            allocs(blocks.drop_last())->0,
            var_sizes(blocks.drop_last()),
        );
    }
}

proof fn locals_in_apart(instrs: Seq<InstV>, o: Offsets, start: int)
    requires
        apart(o.0, word(), start, o.1 as int),
        locals_in(instrs, Some(o)) is Some,
    ensures
        apart(
            (locals_in(instrs, Some(o))->0).0,
            word(),
            start,
            (locals_in(instrs, Some(o))->0).1 as int,
        ),
    decreases instrs.len(),
{
    if instrs.len() > 0 {
        locals_in_apart(instrs.drop_last(), o, start);
    }
}

proof fn locals_apart(blocks: Seq<BlockV>, start: i32)
    requires
        locals(blocks, start) is Some,
    ensures
        apart((locals(blocks, start)->0).0, word(), start as int, (locals(blocks, start)->0).1 as int),
    decreases blocks.len(),
{
    if blocks.len() > 0 {
        if locals(blocks.drop_last(), start) is None {
            no_locals_from_none(blocks.last().instrs);
        }
        locals_apart(blocks.drop_last(), start);
        locals_in_apart(
            blocks.last().instrs,
            locals(blocks.drop_last(), start)->0,
            start as int,
        );
    }
}

proof fn spills_apart(vars: Map<usize, i32>, params: Seq<(usize, IrType)>, n: int, start: int)
    requires
        0 <= start,
        param_spills(vars, params, n, start).1 <= i32::MAX,
    ensures
        apart(
            param_spills(vars, params, n, start).0,
            word(),
            start,
            param_spills(vars, params, n, start).1,
        ),
    decreases n,
{
    if n > 0 {
        spills_end(vars, params, n - 1, start);
        spills_apart(vars, params, n - 1, start);
    }
}

/// A frame is a multiple of sixteen bytes, and the return address is its last word. Variables,
/// the slots of SSA values, the arguments of calls, and the slots of parameters follow one another
/// below it, and within each of these areas no two overlap.
pub proof fn frame_is_laid_out(f: FuncV)
    requires
        frame(f) is Some,
    ensures
        ({
            let fr = frame(f)->0;
            let vars_end = (allocs(f.blocks)->0).1;
            let args_end = fr.args + 4 * max_args(f.blocks);
            &&& fr.size % 16 == 0
            &&& fr.ra == fr.size - 4
            &&& apart(fr.vars, size_among(var_sizes(f.blocks)), 0, vars_end as int)
            &&& apart(fr.locals, word(), vars_end as int, fr.args as int)
            &&& apart(fr.spills, word(), args_end, fr.ra as int)
        }),
{
    let fr = frame(f)->0;
    let vars_end = (allocs(f.blocks)->0).1;
    let base = base_size(f.blocks, fr.args);
    allocs_apart(f.blocks);
    locals_apart(f.blocks, vars_end);
    spills_end(fr.vars, f.params, reg_params(f), base);
    spills_apart(fr.vars, f.params, reg_params(f), base);
}

proof fn max_args_in_grows(instrs: Seq<InstV>, least: nat)
    ensures
        max_args_in(instrs, least) >= least,
        forall|i: int|
            0 <= i < instrs.len() ==> arg_count(#[trigger] instrs[i]) <= max_args_in(instrs, least),
    decreases instrs.len(),
{
    if instrs.len() > 0 {
        max_args_in_grows(instrs.drop_last(), least);
        assert forall|i: int| 0 <= i < instrs.len() implies arg_count(#[trigger] instrs[i])
            <= max_args_in(instrs, least) by {
            if i < instrs.len() - 1 {
                assert(instrs.drop_last()[i] == instrs[i]);
            }
        }
    }
}

/// No call has more arguments than the greatest number.
pub proof fn max_args_is_most(blocks: Seq<BlockV>, b: int, i: int)
    requires
        0 <= b < blocks.len(),
        0 <= i < blocks[b].instrs.len(),
    ensures
        arg_count(blocks[b].instrs[i]) <= max_args(blocks),
    decreases blocks.len(),
{
    max_args_in_grows(blocks.last().instrs, max_args(blocks.drop_last()));
    if b < blocks.len() - 1 {
        assert(blocks.drop_last()[b] == blocks[b]);
        max_args_is_most(blocks.drop_last(), b, i);
    }
}

} // verus!

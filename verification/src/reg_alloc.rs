//! The registers that hold the SSA values of a block.
//!
//! The last use of each value in a block is computed beforehand. When it has passed, the register
//! that holds the value is free again.

use crate::ir::{self, InstV, IrArithOp, IrBlock, IrInst, IrOperand};
use crate::names::NameMap;
use crate::text;
use std::collections::HashMap;
use vstd::prelude::*;

verus! {

broadcast use {vstd::std_specs::hash::group_hash_axioms, crate::ir::insts_push};

/// The keys of a table, each once.
fn keys_of<V>(m: &HashMap<usize, V>) -> (r: Vec<usize>)
    ensures
        r@.no_duplicates(),
        forall|k: usize| r@.contains(k) <==> m@.contains_key(k),
{
    let mut out: Vec<usize> = Vec::new();
    for k in it: m.keys()
        invariant
            out@ =~= it.seq().unref().take(it.index()),
    {
        out.push(*k);
    }
    proof {
        let all = vstd::std_specs::iter::IteratorSpec::remaining(&m.keys());
        assert(out@ =~= all.unref());
        assert forall|k: usize| out@.contains(k) <==> m@.contains_key(k) by {
            assert(all.unref().to_set().contains(k) <==> m@.dom().contains(k));
        }
    }
    out
}

// ── Live ranges ──────────────────────────────────────────────────────────────

/// The last uses after those of some operands at a position.
pub open spec fn uses_of(uses: Map<usize, usize>, ops: Seq<IrOperand>, at: usize) -> Map<
    usize,
    usize,
>
    decreases ops.len(),
{
    if ops.len() == 0 {
        uses
    } else {
        match ops.last() {
            IrOperand::Local(l) => uses_of(uses, ops.drop_last(), at).insert(l, at),
            _ => uses_of(uses, ops.drop_last(), at),
        }
    }
}

/// The position of the last use of each value in the first `n` instructions.
pub open spec fn last_uses(instrs: Seq<InstV>, n: int) -> Map<usize, usize>
    decreases n,
{
    if n <= 0 {
        Map::empty()
    } else {
        uses_of(
            last_uses(instrs, n - 1),
            ir::inst_operands(instrs[n - 1]),
            (n - 1) as usize,
        )
    }
}

/// The position of the first definition of each value in the first `n` instructions.
pub open spec fn first_defs(instrs: Seq<InstV>, n: int) -> Map<usize, usize>
    decreases n,
{
    if n <= 0 {
        Map::empty()
    } else {
        let before = first_defs(instrs, n - 1);
        match ir::inst_dest(instrs[n - 1]) {
            Some(d) => if before.contains_key(d) {
                before
            } else {
                before.insert(d, (n - 1) as usize)
            },
            None => before,
        }
    }
}

/// Whether an instruction copies a parameter.
pub open spec fn copies_param(i: InstV) -> bool {
    i matches InstV::Arith { op, lhs, rhs, .. } && op == IrArithOp::Add && rhs == IrOperand::Int(0)
        && lhs is Global
}

/// Whether the result of an instruction needs a register of the pool. The copy of a parameter
/// stays in the register of the parameter.
pub open spec fn needs_register(i: InstV) -> bool {
    !copies_param(i) && (i is Arith || i is Icmp || i is GetPtr || i is GetElemPtr || i is Load
        || i is Call)
}

/// Whether the value that an instruction defines for the first time is alive at a position, in a
/// register of the pool.
pub open spec fn alive_at(instrs: Seq<InstV>, i: int, at: int) -> bool {
    match ir::inst_dest(instrs[i]) {
        Some(d) => {
            let uses = last_uses(instrs, instrs.len() as int);
            let end = if uses.contains_key(d) {
                uses[d] as int
            } else {
                i
            };
            !first_defs(instrs, i).contains_key(d) && needs_register(instrs[i]) && i <= at <= end
        },
        None => false,
    }
}

/// How many of the values that the first `n` instructions define are alive at a position.
pub open spec fn pressure_at(instrs: Seq<InstV>, at: int, n: int) -> nat
    decreases n,
{
    if n <= 0 {
        0
    } else {
        pressure_at(instrs, at, n - 1) + if alive_at(instrs, n - 1, at) {
            1nat
        } else {
            0
        }
    }
}

/// The most values that are alive at one of the first `n` positions.
pub open spec fn max_pressure(instrs: Seq<InstV>, n: int) -> nat
    decreases n,
{
    if n <= 0 {
        0
    } else {
        let here = pressure_at(instrs, n - 1, instrs.len() as int);
        let before = max_pressure(instrs, n - 1);
        if here > before {
            here
        } else {
            before
        }
    }
}

// ── The state ────────────────────────────────────────────────────────────────

/// Which values are in which registers.
pub struct RegTracker {
    /// Each value that is in a register, with the register and whether the stack lacks the value.
    pub locals: HashMap<usize, (String, bool)>,
    /// The value that each register in use holds.
    pub reg_to_local: NameMap<usize>,
    /// The registers that are free, the next one to be taken last.
    pub pool: Vec<String>,
    /// The position of the last use of each value.
    pub last_use: HashMap<usize, usize>,
    /// The position of the first definition of each value.
    pub first_def: HashMap<usize, usize>,
    /// The current position in the block.
    pub pos: usize,
    /// The most values of the pool that are alive at once.
    pub max_pool_pressure: usize,
}

/// The view of a [`RegTracker`].
#[verifier::ext_equal]
pub struct TrackerV {
    pub locals: Map<usize, (Seq<char>, bool)>,
    pub regs: Map<Seq<char>, usize>,
    pub pool: Seq<Seq<char>>,
    pub last_use: Map<usize, usize>,
    pub first_def: Map<usize, usize>,
    pub pos: usize,
    pub max_pool_pressure: nat,
}

/// The views of the registers that hold values.
pub open spec fn held(m: Map<usize, (String, bool)>) -> Map<usize, (Seq<char>, bool)> {
    m.map_values(|e: (String, bool)| (e.0@, e.1))
}

impl View for RegTracker {
    type V = TrackerV;

    open spec fn view(&self) -> TrackerV {
        TrackerV {
            locals: held(self.locals@),
            regs: self.reg_to_local@,
            pool: text::texts(self.pool@),
            last_use: self.last_use@,
            first_def: self.first_def@,
            pos: self.pos,
            max_pool_pressure: self.max_pool_pressure as nat,
        }
    }
}

/// The registers of the pool, in the order in which they are taken.
pub open spec fn pool_regs() -> Seq<Seq<char>> {
    seq!["t2"@, "t1"@, "t0"@]
}

/// What a table has for a key.
pub open spec fn found<K, V>(m: Map<K, V>, k: K) -> Option<V> {
    if m.contains_key(k) {
        Some(m[k])
    } else {
        None
    }
}

/// The position of the last use of a value, the greatest one where none is known.
pub open spec fn end_of(t: TrackerV, l: usize) -> usize {
    if t.last_use.contains_key(l) {
        t.last_use[l]
    } else {
        usize::MAX
    }
}

/// Whether the last use of a value lies before a position.
pub open spec fn is_dead(t: TrackerV, p: usize, l: usize) -> bool {
    t.last_use.contains_key(l) ==> p > t.last_use[l]
}

/// Whether a value is in a register and not on the stack.
pub open spec fn dirty(t: TrackerV, l: usize) -> bool {
    t.locals.contains_key(l) && t.locals[l].1
}

/// The state without those values that are gone, and without the registers that hold them.
pub open spec fn without(t: TrackerV, gone: spec_fn(usize) -> bool) -> TrackerV {
    TrackerV {
        locals: Map::new(
            |l: usize| t.locals.contains_key(l) && !gone(l),
            |l: usize| t.locals[l],
        ),
        regs: Map::new(
            |r: Seq<char>|
                t.regs.contains_key(r) && forall|l: usize| #[trigger]
                    t.locals.contains_key(l) && gone(l) ==> t.locals[l].0 != r,
            |r: Seq<char>| t.regs[r],
        ),
        ..t
    }
}

/// The state without one value.
pub open spec fn evicted(t: TrackerV, l: usize) -> TrackerV {
    if t.locals.contains_key(l) {
        TrackerV { locals: t.locals.remove(l), regs: t.regs.remove(t.locals[l].0), ..t }
    } else {
        t
    }
}

/// The state without one register.
pub open spec fn reg_evicted(t: TrackerV, r: Seq<char>) -> TrackerV {
    if t.regs.contains_key(r) {
        TrackerV { locals: t.locals.remove(t.regs[r]), regs: t.regs.remove(r), ..t }
    } else {
        t
    }
}

/// The state with a value put in a register.
pub open spec fn put(t: TrackerV, l: usize, r: Seq<char>) -> TrackerV {
    let u = reg_evicted(t, r);
    TrackerV { locals: u.locals.insert(l, (r, true)), regs: u.regs.insert(r, l), ..u }
}

/// The state with a value that is in a register of something else.
pub open spec fn noted(t: TrackerV, l: usize, r: Seq<char>) -> TrackerV {
    TrackerV { locals: t.locals.insert(l, (r, false)), ..t }
}

/// The state without anything but the pool.
pub open spec fn cleared(t: TrackerV) -> TrackerV {
    TrackerV {
        locals: Map::empty(),
        regs: Map::empty(),
        last_use: Map::empty(),
        first_def: Map::empty(),
        pos: 0,
        max_pool_pressure: 0,
        ..t
    }
}

/// The state with a value that the stack has.
pub open spec fn cleaned(t: TrackerV, l: usize) -> TrackerV {
    if t.locals.contains_key(l) {
        TrackerV { locals: t.locals.insert(l, (t.locals[l].0, false)), ..t }
    } else {
        t
    }
}

/// The first register of the pool, from the `k`th on, that is free.
pub open spec fn free_reg(t: TrackerV, k: int) -> Option<Seq<char>>
    decreases t.pool.len() - k,
{
    if k < 0 || k >= t.pool.len() {
        None
    } else if t.regs.contains_key(t.pool[k]) {
        free_reg(t, k + 1)
    } else {
        Some(t.pool[k])
    }
}

/// The register that is taken while one is free: `a0`, then those of the pool.
pub open spec fn first_free(t: TrackerV) -> Option<Seq<char>> {
    if !t.regs.contains_key("a0"@) {
        Some("a0"@)
    } else {
        free_reg(t, 0)
    }
}

/// Which of the first `n` registers of the pool holds the value that is used last of all; the
/// later one of two.
pub open spec fn farthest(t: TrackerV, n: int) -> int
    decreases n,
{
    if n <= 1 {
        0
    } else {
        let before = farthest(t, n - 1);
        if end_of(t, t.regs[t.pool[n - 1]]) >= end_of(t, t.regs[t.pool[before]]) {
            n - 1
        } else {
            before
        }
    }
}

impl RegTracker {
    /// The pool is the one that the tracker was made with.
    pub open spec fn wf(self) -> bool {
        self@.pool == pool_regs()
    }

    pub fn new() -> (r: Self)
        ensures
            r.wf(),
            r@ == (TrackerV {
                locals: Map::empty(),
                regs: Map::empty(),
                pool: pool_regs(),
                last_use: Map::empty(),
                first_def: Map::empty(),
                pos: 0,
                max_pool_pressure: 0,
            }),
    {
        let mut pool: Vec<String> = Vec::new();
        pool.push("t2".to_owned());
        pool.push("t1".to_owned());
        pool.push("t0".to_owned());
        let r = RegTracker {
            locals: HashMap::new(),
            reg_to_local: NameMap::new(),
            pool,
            last_use: HashMap::new(),
            first_def: HashMap::new(),
            pos: 0,
            max_pool_pressure: 0,
        };
        assert(r@.pool =~= pool_regs());
        assert(r@.locals =~= Map::empty());
        r
    }

    /// The register that holds a value.
    pub fn get(&self, local: usize) -> (r: Option<String>)
        ensures
            match r {
                Some(s) => found(self@.locals, local) matches Some(e) && e.0 == s@,
                None => found(self@.locals, local) is None,
            },
    {
        match self.locals.get(&local) {
            Some(e) => Some(e.0.clone()),
            None => None,
        }
    }

    /// Whether a value is in a register and not on the stack.
    pub fn is_dirty(&self, local: usize) -> (r: bool)
        ensures
            r == dirty(self@, local),
    {
        match self.locals.get(&local) {
            Some(e) => e.1,
            None => false,
        }
    }

    /// Whether a register holds a value.
    pub fn reg_in_use(&self, reg: &str) -> (r: bool)
        ensures
            r == self@.regs.contains_key(reg@),
    {
        self.reg_to_local.contains_key(reg)
    }

    /// The value that a register holds.
    pub fn local_in_reg(&self, reg: &str) -> (r: Option<usize>)
        ensures
            r == found(self@.regs, reg@),
    {
        match self.reg_to_local.get(reg) {
            Some(l) => Some(*l),
            None => None,
        }
    }

    /// Forgets a value. Returns the register that held it.
    pub fn evict(&mut self, local: usize) -> (r: Option<String>)
        ensures
            final(self)@ == evicted(old(self)@, local),
            match r {
                Some(s) => found(old(self)@.locals, local) matches Some(e) && e.0 == s@,
                None => found(old(self)@.locals, local) is None,
            },
    {
        let ghost before = self@;
        match self.locals.remove(&local) {
            Some(e) => {
                self.reg_to_local.remove(e.0.as_str());
                assert(self@.locals =~= before.locals.remove(local));
                Some(e.0)
            },
            None => {
                assert(self@.locals =~= before.locals);
                None
            },
        }
    }

    /// Forgets what a register holds, and returns it.
    pub fn evict_reg(&mut self, reg: &str) -> (r: Option<usize>)
        ensures
            final(self)@ == reg_evicted(old(self)@, reg@),
            r == found(old(self)@.regs, reg@),
    {
        let ghost before = self@;
        match self.reg_to_local.remove(reg) {
            Some(l) => {
                self.locals.remove(&l);
                assert(self@.locals =~= before.locals.remove(l));
                Some(l)
            },
            None => {
                assert(self@.regs =~= before.regs);
                None
            },
        }
    }

    /// Records that a value is in a register now, and not on the stack. Returns the value that was
    /// there.
    pub fn set_dirty(&mut self, local: usize, reg: String) -> (r: Option<usize>)
        ensures
            final(self)@ == put(old(self)@, local, reg@),
            r == found(old(self)@.regs, reg@),
    {
        let evicted = self.evict_reg(reg.as_str());
        let ghost before = self@;
        self.locals.insert(local, (reg.clone(), true));
        assert(self@.locals =~= before.locals.insert(local, (reg@, true)));
        self.reg_to_local.insert(reg, local);
        evicted
    }

    /// Records that a value is in a register of something else.
    pub fn note(&mut self, local: usize, reg: String)
        ensures
            final(self)@ == noted(old(self)@, local, reg@),
    {
        let ghost before = self@;
        let ghost name = reg@;
        self.locals.insert(local, (reg, false));
        assert(self@.locals =~= before.locals.insert(local, (name, false)));
    }

    /// The most values of the pool that are alive at once.
    pub fn pressure(&self) -> (r: usize)
        ensures
            r == self@.max_pool_pressure,
    {
        self.max_pool_pressure
    }

    /// Records that the stack has a value.
    pub fn mark_clean(&mut self, local: usize)
        ensures
            final(self)@ == cleaned(old(self)@, local),
    {
        let ghost before = self@;
        match self.locals.remove(&local) {
            Some(e) => {
                let ghost name = e.0@;
                self.locals.insert(local, (e.0, false));
                assert(self@.locals =~= before.locals.insert(local, (name, false)));
            },
            None => {
                assert(self@.locals =~= before.locals);
            },
        }
    }

    /// Clears all state.
    pub fn clear(&mut self)
        ensures
            final(self)@ == cleared(old(self)@),
    {
        self.locals.clear();
        self.reg_to_local = NameMap::new();
        self.last_use.clear();
        self.first_def.clear();
        self.pos = 0;
        self.max_pool_pressure = 0;
        assert(self@.locals =~= Map::empty());
    }
}

// ── Computing live ranges ────────────────────────────────────────────────────

/// Adds the uses of an instruction at a position.
#[verifier::loop_isolation(false)]
fn add_uses(uses: &mut HashMap<usize, usize>, inst: &IrInst, at: usize)
    ensures
        final(uses)@ == uses_of(old(uses)@, ir::inst_operands(inst@), at),
{
    let ghost start = uses@;
    let ops = inst.operands();
    let ghost all = ir::inst_operands(inst@);
    let mut i: usize = 0;
    while i < ops.len()
        invariant
            i <= ops.len(),
            uses@ == uses_of(start, all.take(i as int), at),
        decreases ops.len() - i,
    {
        assert(all[i as int] == *ops@[i as int]);
        assert(all.take(i + 1).drop_last() =~= all.take(i as int));
        if let IrOperand::Local(l) = *ops[i] {
            uses.insert(l, at);
        }
        i = i + 1;
    }
    assert(all.take(i as int) =~= all);
}

fn does_need_register(inst: &IrInst) -> (r: bool)
    ensures
        r == needs_register(inst@),
{
    match inst {
        IrInst::Arith { op, lhs, rhs, .. } => !(*op == IrArithOp::Add && *rhs == IrOperand::Int(0)
            && matches!(lhs, IrOperand::Global(_))),
        IrInst::Icmp { .. } => true,
        IrInst::GetPtr { .. } => true,
        IrInst::GetElemPtr { .. } => true,
        IrInst::Load { .. } => true,
        IrInst::Call { .. } => true,
        _ => false,
    }
}

/// The value that is first defined at a position has its position as its first definition.
proof fn first_defs_keep(instrs: Seq<InstV>, i: int, n: int, d: usize)
    requires
        0 <= i <= n,
        n <= usize::MAX,
    ensures
        first_defs(instrs, i).contains_key(d) ==> first_defs(instrs, n).contains_key(d)
            && first_defs(instrs, n)[d] == first_defs(instrs, i)[d],
        first_defs(instrs, i).contains_key(d) ==> first_defs(instrs, i)[d] < i,
    decreases n,
{
    if i < n {
        first_defs_keep(instrs, i, n - 1, d);
    } else if n > 0 {
        first_defs_keep(instrs, n - 1, n - 1, d);
    }
}

impl RegTracker {
    /// Whether the value that the instruction at `i` defines for the first time is alive at a
    /// position.
    fn is_alive(&self, block: &IrBlock, i: usize, at: usize) -> (r: bool)
        requires
            i < block@.instrs.len(),
            self@.last_use == last_uses(block@.instrs, block@.instrs.len() as int),
            self@.first_def == first_defs(block@.instrs, block@.instrs.len() as int),
        ensures
            r == alive_at(block@.instrs, i as int, at as int),
    {
        let ghost list = block@.instrs;
        let n = block.instrs.len();
        let inst = &block.instrs[i];
        assert(list[i as int] == inst@);
        match inst.dest() {
            Some(d) => {
                proof {
                    first_defs_keep(list, i + 1, n as int, d);
                    first_defs_keep(list, i as int, n as int, d);
                }
                let first = match self.first_def.get(&d) {
                    Some(f) => *f == i,
                    None => false,
                };
                let end = match self.last_use.get(&d) {
                    Some(e) => *e,
                    None => i,
                };
                first && does_need_register(inst) && i <= at && at <= end
            },
            None => false,
        }
    }

    /// How many values are alive at a position.
    #[verifier::loop_isolation(false)]
    fn count_alive(&self, block: &IrBlock, at: usize) -> (r: usize)
        requires
            self@.last_use == last_uses(block@.instrs, block@.instrs.len() as int),
            self@.first_def == first_defs(block@.instrs, block@.instrs.len() as int),
        ensures
            r == pressure_at(block@.instrs, at as int, block@.instrs.len() as int),
    {
        let mut count: usize = 0;
        let mut i: usize = 0;
        while i < block.instrs.len()
            invariant
                i <= block.instrs.len(),
                count <= i,
                count == pressure_at(block@.instrs, at as int, i as int),
            decreases block.instrs.len() - i,
        {
            if self.is_alive(block, i, at) {
                count = count + 1;
            }
            i = i + 1;
        }
        count
    }

    /// Computes where the values of a block are used last, and how many are alive at once.
    #[verifier::loop_isolation(false)]
    pub fn build_intervals(&mut self, block: &IrBlock)
        ensures
            ({
                let n = block@.instrs.len() as int;
                final(self)@ == (TrackerV {
                    last_use: last_uses(block@.instrs, n),
                    first_def: first_defs(block@.instrs, n),
                    max_pool_pressure: max_pressure(block@.instrs, n + 1),
                    ..old(self)@
                })
            }),
    {
        let ghost before = self@;
        let ghost list = block@.instrs;
        let n = block.instrs.len();
        self.last_use.clear();
        self.first_def.clear();
        let mut i: usize = 0;
        while i < n
            invariant
                i <= n,
                self@ == (TrackerV {
                    last_use: last_uses(list, i as int),
                    first_def: first_defs(list, i as int),
                    ..before
                }),
            decreases n - i,
        {
            let inst = &block.instrs[i];
            assert(list[i as int] == inst@);
            if let Some(d) = inst.dest() {
                if !self.first_def.contains_key(&d) {
                    self.first_def.insert(d, i);
                }
            }
            add_uses(&mut self.last_use, inst, i);
            i = i + 1;
        }
        let mut max: usize = 0;
        let mut p: usize = 0;
        while p < n
            invariant
                p <= n,
                self@ == (TrackerV {
                    last_use: last_uses(list, n as int),
                    first_def: first_defs(list, n as int),
                    ..before
                }),
                max == max_pressure(list, p as int),
            decreases n - p,
        {
            let here = self.count_alive(block, p);
            if here > max {
                max = here;
            }
            p = p + 1;
        }
        let here = self.count_alive(block, n);
        if here > max {
            max = here;
        }
        self.max_pool_pressure = max;
    }

    /// Forgets the values of a list.
    #[verifier::loop_isolation(false)]
    fn evict_all(&mut self, list: &Vec<usize>)
        ensures
            final(self)@ == without(old(self)@, |l: usize| list@.contains(l)),
    {
        let ghost before = self@;
        let mut i: usize = 0;
        assert(self@ =~= without(before, |l: usize| list@.take(0).contains(l)));
        while i < list.len()
            invariant
                i <= list.len(),
                self@ == without(before, |l: usize| list@.take(i as int).contains(l)),
            decreases list.len() - i,
        {
            let ghost mid = self@;
            let l = list[i];
            self.evict(l);
            proof {
                let was = |x: usize| list@.take(i as int).contains(x);
                let now = |x: usize| list@.take(i + 1).contains(x);
                let short = list@.take(i as int);
                assert(list@.take(i + 1) =~= short.push(l));
                assert forall|x: usize| #[trigger] now(x) <==> was(x) || x == l by {
                    assert(short.push(l)[i as int] == l);
                    if was(x) {
                        let k = choose|k: int| 0 <= k < short.len() && short[k] == x;
                        assert(short.push(l)[k] == x);
                    }
                }
                assert(self@.locals =~= without(before, now).locals);
                assert(self@.regs =~= without(before, now).regs);
            }
            i = i + 1;
        }
        proof {
            assert(list@.take(i as int) =~= list@);
            assert(self@ =~= without(before, |l: usize| list@.contains(l)));
        }
    }
}

/// Where no register is free, each holds a value.
proof fn all_taken(t: TrackerV, k: int)
    requires
        0 <= k,
        free_reg(t, k) is None,
    ensures
        forall|i: int| k <= i < t.pool.len() ==> t.regs.contains_key(#[trigger] t.pool[i]),
    decreases t.pool.len() - k,
{
    if k < t.pool.len() {
        all_taken(t, k + 1);
    }
}

impl RegTracker {
    /// The values in registers whose last use lies before a position.
    #[verifier::loop_isolation(false)]
    fn dead_locals(&self, p: usize) -> (r: Vec<usize>)
        ensures
            forall|l: usize|
                r@.contains(l) <==> self@.locals.contains_key(l) && is_dead(self@, p, l),
    {
        let keys = keys_of(&self.locals);
        let mut out: Vec<usize> = Vec::new();
        let mut i: usize = 0;
        while i < keys.len()
            invariant
                i <= keys.len(),
                forall|l: usize|
                    out@.contains(l) <==> keys@.take(i as int).contains(l) && is_dead(
                        self@,
                        p,
                        l,
                    ),
            decreases keys.len() - i,
        {
            let ghost was = out@;
            let ghost short = keys@.take(i as int);
            let k = keys[i];
            let dead = match self.last_use.get(&k) {
                Some(end) => p > *end,
                None => true,
            };
            if dead {
                out.push(k);
            }
            proof {
                broadcast use vstd::seq_lib::group_seq_properties;

                assert(keys@.take(i + 1) =~= short.push(k));
                assert forall|l: usize|
                    out@.contains(l) <==> keys@.take(i + 1).contains(l) && is_dead(
                        self@,
                        p,
                        l,
                    ) by {
                    assert(short.push(k).contains(l) <==> short.contains(l) || l == k);
                    assert(was.push(k).contains(l) <==> was.contains(l) || l == k);
                }
            }
            i = i + 1;
        }
        assert(keys@.take(i as int) =~= keys@);
        out
    }

    /// Moves on to a position, and forgets the values whose last use has passed. They are not
    /// needed any more, so nothing is to be stored: the list is empty.
    pub fn advance(&mut self, p: usize) -> (r: Vec<(usize, String)>)
        ensures
            r@.len() == 0,
            final(self)@ == without(
                TrackerV { pos: p, ..old(self)@ },
                |l: usize| is_dead(old(self)@, p, l),
            ),
    {
        self.pos = p;
        let ghost before = self@;
        let dead = self.dead_locals(p);
        self.evict_all(&dead);
        proof {
            let listed = |l: usize| dead@.contains(l);
            let gone = |l: usize| is_dead(before, p, l);
            assert forall|l: usize| #[trigger] before.locals.contains_key(l) implies listed(l)
                == gone(l) by {}
            assert(without(before, listed).locals =~= without(before, gone).locals);
            assert(without(before, listed).regs =~= without(before, gone).regs);
        }
        Vec::new()
    }

    /// The first register of the pool that is free.
    #[verifier::loop_isolation(false)]
    pub fn free_pool_reg(&self) -> (r: Option<String>)
        ensures
            match free_reg(self@, 0) {
                Some(reg) => r matches Some(x) && x@ == reg,
                None => r is None,
            },
    {
        let ghost t = self@;
        let n = self.pool.len();
        assert(n == t.pool.len());
        let mut i: usize = 0;
        while i < n
            invariant
                i <= n,
                free_reg(t, 0) == free_reg(t, i as int),
            decreases n - i,
        {
            assert(t.pool[i as int] == self.pool@[i as int]@);
            if !self.reg_to_local.contains_key(self.pool[i].as_str()) {
                return Some(self.pool[i].clone());
            }
            i = i + 1;
        }
        None
    }

    /// A register: `a0` if it is free, then the first of the pool that is free, or else the one of
    /// the pool whose value is used last of all, with the value that it held.
    #[verifier::loop_isolation(false)]
    pub fn alloc_reg(&mut self) -> (r: (String, Option<usize>))
        requires
            old(self).wf(),
        ensures
            match first_free(old(self)@) {
                Some(reg) => r.0@ == reg && r.1 is None && final(self)@ == old(self)@,
                None => {
                    let reg = old(self)@.pool[farthest(old(self)@, old(self)@.pool.len() as int)];
                    r.0@ == reg && r.1 == Some(old(self)@.regs[reg]) && final(self)@ == reg_evicted(
                        old(self)@,
                        reg,
                    )
                },
            },
    {
        let ghost t = self@;
        if !self.reg_in_use("a0") {
            return ("a0".to_owned(), None);
        }
        if let Some(reg) = self.free_pool_reg() {
            return (reg, None);
        }
        let n = self.pool.len();
        assert(n == t.pool.len());
        proof {
            all_taken(t, 0);
        }
        let mut best: usize = 0;
        let mut k: usize = 1;
        while k < n
            invariant
                1 <= k <= n,
                best < k,
                best == farthest(t, k as int),
            decreases n - k,
        {
            if self.end_in(k) >= self.end_in(best) {
                best = k;
            }
            k = k + 1;
        }
        let reg = self.pool[best].clone();
        assert(t.pool[best as int] == self.pool@[best as int]@);
        let evicted = self.evict_reg(reg.as_str());
        (reg, evicted)
    }

    /// The position of the last use of the value in a register of the pool.
    fn end_in(&self, k: usize) -> (r: usize)
        requires
            k < self@.pool.len(),
            self@.regs.contains_key(self@.pool[k as int]),
        ensures
            r == end_of(self@, self@.regs[self@.pool[k as int]]),
    {
        assert(self@.pool[k as int] == self.pool@[k as int]@);
        match self.reg_to_local.get(self.pool[k].as_str()) {
            Some(l) => match self.last_use.get(l) {
                Some(end) => *end,
                None => usize::MAX,
            },
            None => usize::MAX,
        }
    }

    /// `a0`, if it is free or its value is used last at this position; then with that value and
    /// whether the stack lacks it.
    pub fn try_alloc_a0(&mut self) -> (r: Option<(String, Option<(usize, bool)>)>)
        ensures
            match found(old(self)@.regs, "a0"@) {
                Some(l) => if old(self)@.pos == end_of(old(self)@, l) {
                    &&& r matches Some(x) && x.0@ == "a0"@ && x.1 == Some(
                        (l, dirty(old(self)@, l)),
                    )
                    &&& final(self)@ == reg_evicted(old(self)@, "a0"@)
                } else {
                    r is None && final(self)@ == old(self)@
                },
                None => {
                    &&& r matches Some(x) && x.0@ == "a0"@ && x.1 is None
                    &&& final(self)@ == old(self)@
                },
            },
    {
        match self.local_in_reg("a0") {
            Some(l) => {
                let end = match self.last_use.get(&l) {
                    Some(end) => *end,
                    None => usize::MAX,
                };
                if self.pos != end {
                    return None;
                }
                let was_dirty = self.is_dirty(l);
                self.evict_reg("a0");
                Some(("a0".to_owned(), Some((l, was_dirty))))
            },
            None => Some(("a0".to_owned(), None)),
        }
    }

    /// Forgets the values that the stack lacks. Returns them with their registers.
    #[verifier::loop_isolation(false)]
    pub fn flush_dirty(&mut self) -> (r: Vec<(usize, String)>)
        ensures
            final(self)@ == without(old(self)@, |l: usize| dirty(old(self)@, l)),
            forall|i: int|
                0 <= i < r@.len() ==> dirty(old(self)@, (#[trigger] r@[i]).0) && r@[i].1@ == old(
                    self,
                )@.locals[r@[i].0].0,
            forall|i: int, j: int| 0 <= i < j < r@.len() ==> (#[trigger] r@[i]).0 != (
            #[trigger] r@[j]).0,
            forall|l: usize|
                dirty(old(self)@, l) ==> exists|i: int| 0 <= i < r@.len() && (#[trigger] r@[i]).0
                    == l,
    {
        let ghost before = self@;
        let keys = keys_of(&self.locals);
        let mut list: Vec<usize> = Vec::new();
        let mut out: Vec<(usize, String)> = Vec::new();
        let mut i: usize = 0;
        while i < keys.len()
            invariant
                i <= keys.len(),
                self@ == before,
                out@.len() == list@.len(),
                forall|k: int|
                    0 <= k < list@.len() ==> (#[trigger] list@[k]) == out@[k].0 && dirty(
                        before,
                        list@[k],
                    ) && out@[k].1@ == before.locals[list@[k]].0,
                forall|k: int, j: int| 0 <= k < j < list@.len() ==> list@[k] != list@[j],
                forall|l: usize|
                    list@.contains(l) <==> keys@.take(i as int).contains(l) && dirty(before, l),
            decreases keys.len() - i,
        {
            let ghost was = list@;
            let ghost short = keys@.take(i as int);
            let k = keys[i];
            assert(keys@.contains(k));
            assert(before.locals.contains_key(k));
            if self.is_dirty(k) {
                match self.locals.get(&k) {
                    Some(e) => {
                        proof {
                            if was.contains(k) {
                                let j = choose|j: int| 0 <= j < short.len() && short[j] == k;
                                assert(keys@[j] == keys@[i as int]);
                            }
                            assert forall|j: int| 0 <= j < was.len() implies was[j] != k by {
                                assert(was.contains(was[j]));
                            }
                        }
                        list.push(k);
                        out.push((k, e.0.clone()));
                    },
                    None => {},
                }
            }
            proof {
                broadcast use vstd::seq_lib::group_seq_properties;

                assert(keys@.take(i + 1) =~= short.push(k));
                assert forall|l: usize|
                    list@.contains(l) <==> keys@.take(i + 1).contains(l) && dirty(before, l) by {
                    assert(short.push(k).contains(l) <==> short.contains(l) || l == k);
                    assert(was.push(k).contains(l) <==> was.contains(l) || l == k);
                }
            }
            i = i + 1;
        }
        assert(keys@.take(i as int) =~= keys@);
        self.evict_all(&list);
        proof {
            let listed = |l: usize| list@.contains(l);
            let gone = |l: usize| dirty(before, l);
            assert forall|l: usize| #[trigger] before.locals.contains_key(l) implies listed(l)
                == gone(l) by {}
            assert(without(before, listed).locals =~= without(before, gone).locals);
            assert(without(before, listed).regs =~= without(before, gone).regs);
            assert forall|l: usize| dirty(before, l) implies exists|i: int|
                0 <= i < out@.len() && (#[trigger] out@[i]).0 == l by {
                assert(list@.contains(l));
                let j = choose|j: int| 0 <= j < list@.len() && list@[j] == l;
                assert(out@[j].0 == l);
            }
            assert forall|i: int| 0 <= i < out@.len() implies dirty(before, (#[trigger] out@[i]).0)
                && out@[i].1@ == before.locals[out@[i].0].0 by {
                assert(list@[i] == out@[i].0);
            }
            assert forall|i: int, j: int| 0 <= i < j < out@.len() implies (#[trigger] out@[i]).0
                != (#[trigger] out@[j]).0 by {
                assert(list@[i] != list@[j]);
                assert(list@[j] == out@[j].0);
            }
        }
        out
    }
}

// ── What holds of every state ────────────────────────────────────────────────

/// Each value that is in a register is the one that the register holds.
pub open spec fn consistent(t: TrackerV) -> bool {
    forall|l: usize| #[trigger]
        t.locals.contains_key(l) ==> found(t.regs, t.locals[l].0) == Some(l)
}

/// No register holds two values.
pub proof fn no_register_is_shared(t: TrackerV, a: usize, b: usize)
    requires
        consistent(t),
        t.locals.contains_key(a),
        t.locals.contains_key(b),
        a != b,
    ensures
        t.locals[a].0 != t.locals[b].0,
{
}

/// Putting a value in a register, writing it back, and forgetting a value, a register, any set of
/// values or all of them keep the registers consistent.
pub proof fn consistency_is_kept(
    t: TrackerV,
    l: usize,
    r: Seq<char>,
    gone: spec_fn(usize) -> bool,
)
    requires
        consistent(t),
    ensures
        consistent(put(t, l, r)),
        consistent(cleaned(t, l)),
        consistent(cleared(t)),
        consistent(evicted(t, l)),
        consistent(reg_evicted(t, r)),
        consistent(without(t, gone)),
{
    let w = without(t, gone);
    assert forall|x: usize| #[trigger] w.locals.contains_key(x) implies found(
        w.regs,
        w.locals[x].0,
    ) == Some(x) by {
        assert(t.locals.contains_key(x));
        assert forall|y: usize| #[trigger] t.locals.contains_key(y) && gone(y) implies t.locals[y].0
            != t.locals[x].0 by {}
    }
}

/// A value that was put in a register is found there until it is forgotten.
pub proof fn put_value_is_found(t: TrackerV, l: usize, r: Seq<char>)
    ensures
        found(put(t, l, r).locals, l) == Some((r, true)),
        found(put(t, l, r).regs, r) == Some(l),
        !evicted(put(t, l, r), l).locals.contains_key(l),
        !evicted(put(t, l, r), l).regs.contains_key(r),
{
}

} // verus!

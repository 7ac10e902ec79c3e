//! What the body that stands for a call does.

use crate::ir::{self, InstV, IrOperand, IrType};
use crate::live_lowering;
use crate::meaning::{self, MachineV, StateV};
use crate::numbering_meaning;
use crate::opt::inline::{body_start, body_step, bound, inlined_body, renamed, renamed_all};
use crate::opt::inline::{suffices, BodyV, RenamesV, StockV};
use vstd::prelude::*;

verus! {

// ── The function that is called ──────────────────────────────────────────────

/// Whether an instruction mentions a variable or a parameter.
pub open spec fn names(i: InstV, g: usize) -> bool {
    ir::inst_operands(i).contains(IrOperand::Global(g)) || (i matches InstV::Alloc { dest, .. }
        && dest == g)
}

/// Whether a body is as it is inlined: it returns at its end, takes parameters and what it has
/// defined before, and allocates each of its variables before anything else is done with it.
pub open spec fn self_contained(params: Seq<(usize, IrType)>, instrs: Seq<InstV>) -> bool {
    &&& instrs.len() > 0
    &&& instrs.last() is Ret
    &&& forall|i: int| 0 <= i < instrs.len() - 1 ==> !ir::terminator(#[trigger] instrs[i])
    &&& forall|i: int| 0 <= i < instrs.len() ==> !(#[trigger] instrs[i] is Phi)
    &&& forall|i: int, l: usize|
        0 <= i < instrs.len() && #[trigger] numbering_meaning::uses(instrs[i], l) ==> bound(
            params,
            Seq::empty(),
        ).contains_key(l) || live_lowering::gives(instrs, i, l)
    &&& forall|i: int, j: int, g: usize|
        #![trigger names(instrs[i], g), instrs[j]]
        0 <= i < j < instrs.len() && (instrs[j] matches InstV::Alloc { dest, .. } && dest == g)
            ==> !names(instrs[i], g)
    &&& forall|j: int, g: usize|
        #![trigger instrs[j], bound(params, Seq::empty()).contains_key(g)]
        0 <= j < instrs.len() && (instrs[j] matches InstV::Alloc { dest, .. } && dest == g)
            ==> !bound(params, Seq::empty()).contains_key(g)
}

/// The machine of a called function: its parameters and variables are where the caller has what
/// stands for them.
pub open spec fn callee_machine<W>(m: MachineV<W>, s: StateV<W>, e: RenamesV) -> MachineV<W> {
    MachineV {
        address: |g: usize| meaning::value(m, s, renamed(IrOperand::Global(g), e)),
        ..m
    }
}

/// The variables of a called function that nothing outside it reaches.
pub open spec fn callee_own(own: Set<usize>, e: RenamesV) -> Set<usize> {
    Set::new(
        |g: usize|
            e.globals.contains_key(g) && (e.globals[g] matches IrOperand::Global(h)
                && own.contains(h)),
    )
}

/// Whether a called function starts as a call in a state says: with the values of the arguments,
/// and with the variables as they are.
pub open spec fn begins<W>(
    m: MachineV<W>,
    own: Set<usize>,
    s: StateV<W>,
    b: BodyV,
    e: RenamesV,
    t: StateV<W>,
) -> bool {
    &&& t.world == s.world
    &&& forall|l: usize| #[trigger]
        b.renames.locals.contains_key(l) ==> t.locals[l] == meaning::value(
            m,
            s,
            b.renames.locals[l],
        )
    &&& forall|g: usize| #[trigger]
        callee_own(own, e).contains(g) ==> t.vars[g] == s.vars[e.globals[g]->Global_0]
}

/// What a function returns at its end.
pub open spec fn returned<W>(m: MachineV<W>, t: StateV<W>, i: InstV) -> i32 {
    match i {
        InstV::Ret { value: Some(v) } => meaning::value(m, t, v),
        _ => 0,
    }
}

// ── What stands for variables ────────────────────────────────────────────────

/// The body after the first instructions.
#[verifier::opaque]
spec fn after(b: BodyV, instrs: Seq<InstV>, dest: Option<usize>, k: int) -> BodyV {
    inlined_body(b, instrs.take(k), dest)
}

proof fn after_start(b: BodyV, instrs: Seq<InstV>, dest: Option<usize>)
    ensures
        after(b, instrs, dest, 0) == b,
        after(b, instrs, dest, instrs.len() as int) == inlined_body(b, instrs, dest),
{
    reveal(after);
    assert(instrs.take(0) =~= Seq::empty());
    assert(instrs.take(instrs.len() as int) =~= instrs);
}

proof fn after_step(b: BodyV, instrs: Seq<InstV>, dest: Option<usize>, k: int)
    requires
        0 <= k < instrs.len(),
    ensures
        after(b, instrs, dest, k + 1) == body_step(after(b, instrs, dest, k), instrs[k], dest),
{
    reveal(after);
    assert(instrs.take(k + 1).drop_last() =~= instrs.take(k));
    assert(instrs.take(k + 1).last() == instrs[k]);
}

/// What stands for a variable stays once no later instruction allocates it.
proof fn globals_stay(b: BodyV, instrs: Seq<InstV>, dest: Option<usize>, k: int, g: usize)
    requires
        0 <= k <= instrs.len(),
        forall|j: int|
            k <= j < instrs.len() ==> !(#[trigger] instrs[j] matches InstV::Alloc { dest: d, .. }
                && d == g),
    ensures
        ({
            let p = after(b, instrs, dest, k).renames.globals;
            let r = after(b, instrs, dest, instrs.len() as int).renames.globals;
            p.contains_key(g) == r.contains_key(g) && p[g] == r[g]
        }),
    decreases instrs.len() - k,
{
    if k < instrs.len() {
        globals_stay(b, instrs, dest, k + 1, g);
        after_step(b, instrs, dest, k);
        assert(!(instrs[k] matches InstV::Alloc { dest: d, .. } && d == g));
    }
}

/// Whether what stands for variables is what was bound, or new.
spec fn new_ones(b: BodyV, instrs: Seq<InstV>, dest: Option<usize>, k: int) -> bool {
    let c = after(b, instrs, dest, k);
    let least = b.stock.names.len();
    &&& b.stock.local <= c.stock.local <= b.stock.local + k
    &&& least <= c.stock.names.len() <= least + k
    &&& forall|g: usize| #[trigger]
        c.renames.globals.contains_key(g) ==> (b.renames.globals.contains_key(g)
            && c.renames.globals[g] == b.renames.globals[g]) || (c.renames.globals[g] is Global
            && least <= c.renames.globals[g]->Global_0 < c.stock.names.len())
    &&& forall|g: usize, h: usize|
        #![trigger c.renames.globals[g], c.renames.globals[h]]
        c.renames.globals.contains_key(g) && c.renames.globals.contains_key(h) && g != h
            && c.renames.globals[g] == c.renames.globals[h] && c.renames.globals[g] is Global
            ==> c.renames.globals[g]->Global_0 < least
}

proof fn names_are_new(b: BodyV, instrs: Seq<InstV>, dest: Option<usize>, k: int)
    requires
        0 <= k <= instrs.len(),
        b.stock.local + instrs.len() <= usize::MAX,
        b.stock.names.len() + instrs.len() <= usize::MAX,
        forall|g: usize| #[trigger]
            b.renames.globals.contains_key(g) ==> (b.renames.globals[g] matches IrOperand::Global(h)
                ==> h < b.stock.names.len()),
    ensures
        new_ones(b, instrs, dest, k),
    decreases k,
{
    if k > 0 {
        names_are_new(b, instrs, dest, k - 1);
        after_step(b, instrs, dest, k - 1);
        let p = after(b, instrs, dest, k - 1);
        let c = after(b, instrs, dest, k);
        let least = b.stock.names.len();
        assert forall|g: usize| #[trigger] c.renames.globals.contains_key(g) implies (
        b.renames.globals.contains_key(g) && c.renames.globals[g] == b.renames.globals[g]) || (
        c.renames.globals[g] is Global && least <= c.renames.globals[g]->Global_0
            < c.stock.names.len()) by {
            assert(p.renames.globals.contains_key(g) || !p.renames.globals.contains_key(g));
        }
        assert forall|g: usize, h: usize|
            #![trigger c.renames.globals[g], c.renames.globals[h]]
            c.renames.globals.contains_key(g) && c.renames.globals.contains_key(h) && g != h
                && c.renames.globals[g] == c.renames.globals[h]
                && c.renames.globals[g] is Global implies c.renames.globals[g]->Global_0 < least by {
            let x = p.renames.globals[g];
            let y = p.renames.globals[h];
            assert(p.renames.globals.contains_key(g) || p.renames.globals.contains_key(h));
        }
    } else {
        after_start(b, instrs, dest);
    }
}

// ── Steps ────────────────────────────────────────────────────────────────────

/// Whether an operand is no SSA value from an index on, and no variable out of reach.
pub open spec fn plain(op: IrOperand, least: int, own: Set<usize>) -> bool {
    match op {
        IrOperand::Local(x) => x < least,
        IrOperand::Global(h) => !own.contains(h),
        _ => true,
    }
}

/// Whether a called function and the body in its place have come to states that agree.
spec fn tied<W>(
    m: MachineV<W>,
    own: Set<usize>,
    s: StateV<W>,
    b: BodyV,
    e: RenamesV,
    c: BodyV,
    t: StateV<W>,
    u: StateV<W>,
) -> bool {
    &&& t.world == u.world
    &&& forall|l: usize| #[trigger]
        c.renames.locals.contains_key(l) ==> t.locals[l] == meaning::value(
            m,
            u,
            c.renames.locals[l],
        ) && plain(c.renames.locals[l], c.stock.local, own)
    &&& forall|x: usize| x < b.stock.local ==> #[trigger] u.locals[x] == s.locals[x]
    &&& forall|g: usize| #[trigger]
        callee_own(own, e).contains(g) ==> t.vars[g] == u.vars[e.globals[g]->Global_0]
    &&& forall|h: usize| h < b.stock.names.len() ==> #[trigger] u.vars[h] == s.vars[h]
}

/// What a call hands to a body, and what the body names.
spec fn fitting(own: Set<usize>, b: BodyV, params: Seq<(usize, IrType)>, instrs: Seq<InstV>) -> bool {
    &&& self_contained(params, instrs)
    &&& b.stock.local + instrs.len() <= usize::MAX
    &&& b.stock.local >= 0
    &&& b.stock.names.len() + instrs.len() <= usize::MAX
    &&& b.renames.locals == b.renames.globals
    &&& forall|g: usize|
        bound(params, Seq::empty()).contains_key(g) <==> #[trigger] b.renames.globals.contains_key(g)
    &&& forall|g: usize| #[trigger]
        b.renames.globals.contains_key(g) ==> plain(b.renames.globals[g], b.stock.local, own) && (
        b.renames.globals[g] matches IrOperand::Global(h) ==> h < b.stock.names.len())
    &&& forall|i: int, g: usize|
        0 <= i < instrs.len() && #[trigger] ir::inst_operands(instrs[i]).contains(
            IrOperand::Global(g),
        ) ==> !own.contains(g)
}

/// Whether all SSA values that an instruction may take have something that stands for them.
spec fn filled(params: Seq<(usize, IrType)>, instrs: Seq<InstV>, k: int, c: BodyV) -> bool {
    forall|l: usize| #[trigger]
        c.renames.locals.contains_key(l) <== bound(params, Seq::empty()).contains_key(l)
            || live_lowering::gives(instrs, k, l)
}

proof fn operand_tied<W>(
    m: MachineV<W>,
    own: Set<usize>,
    s: StateV<W>,
    b: BodyV,
    params: Seq<(usize, IrType)>,
    instrs: Seq<InstV>,
    dest: Option<usize>,
    k: int,
    t: StateV<W>,
    u: StateV<W>,
    x: int,
)
    requires
        fitting(own, b, params, instrs),
        0 <= k < instrs.len(),
        filled(params, instrs, k, after(b, instrs, dest, k)),
        0 <= x < ir::inst_operands(instrs[k]).len(),
        ({
            let e = after(b, instrs, dest, instrs.len() as int).renames;
            tied(m, own, s, b, e, after(b, instrs, dest, k), t, u)
        }),
    ensures
        ({
            let e = after(b, instrs, dest, instrs.len() as int).renames;
            let op = ir::inst_operands(instrs[k])[x];
            let o = renamed(op, after(b, instrs, dest, k).renames);
            &&& meaning::value(callee_machine(m, s, e), t, op) == meaning::value(m, u, o)
            &&& (op is Global && callee_own(own, e).contains(op->Global_0)) <==> (o is Global
                && own.contains(o->Global_0))
            &&& op is Global && callee_own(own, e).contains(op->Global_0) ==> o
                == e.globals[op->Global_0]
        }),
{
    let n = instrs.len() as int;
    let e = after(b, instrs, dest, n).renames;
    let c = after(b, instrs, dest, k);
    let op = ir::inst_operands(instrs[k])[x];
    match op {
        IrOperand::Local(l) => {
            assert(ir::inst_operands(instrs[k]).contains(IrOperand::Local(l)));
            assert(numbering_meaning::uses(instrs[k], l));
            assert(c.renames.locals.contains_key(l));
        },
        IrOperand::Global(g) => {
            assert(ir::inst_operands(instrs[k]).contains(IrOperand::Global(g)));
            assert(names(instrs[k], g));
            assert forall|j: int| k <= j < instrs.len() implies !(
            #[trigger] instrs[j] matches InstV::Alloc { dest: d, .. } && d == g) by {}
            globals_stay(b, instrs, dest, k, g);
            names_are_new(b, instrs, dest, n);
            assert(renamed(op, c.renames) == renamed(op, e));
            if e.globals.contains_key(g) {
                assert(b.renames.globals.contains_key(g) || !b.renames.globals.contains_key(g));
                if let IrOperand::Local(y) = e.globals[g] {
                    assert(u.locals[y] == s.locals[y]);
                }
            }
        },
        _ => {},
    }
}

/// One instruction of the function that is called, and of the body in its place.
#[verifier::rlimit(40)]
proof fn step_tied<W>(
    m: MachineV<W>,
    own: Set<usize>,
    s: StateV<W>,
    b: BodyV,
    params: Seq<(usize, IrType)>,
    instrs: Seq<InstV>,
    dest: Option<usize>,
    k: int,
    t: StateV<W>,
    u: StateV<W>,
)
    requires
        fitting(own, b, params, instrs),
        0 <= k < instrs.len() - 1,
        filled(params, instrs, k, after(b, instrs, dest, k)),
        ({
            let e = after(b, instrs, dest, instrs.len() as int).renames;
            tied(m, own, s, b, e, after(b, instrs, dest, k), t, u)
        }),
    ensures
        ({
            let e = after(b, instrs, dest, instrs.len() as int).renames;
            let c = after(b, instrs, dest, k + 1);
            let i = c.out.last();
            &&& c.out == after(b, instrs, dest, k).out.push(i)
            &&& filled(params, instrs, k + 1, c)
            &&& tied(
                m,
                own,
                s,
                b,
                e,
                c,
                meaning::step(callee_machine(m, s, e), callee_own(own, e), t, instrs[k]),
                meaning::step(m, own, u, i),
            )
        }),
{
    let n = instrs.len() as int;
    let e = after(b, instrs, dest, n).renames;
    let mc = callee_machine(m, s, e);
    let oc = callee_own(own, e);
    let p = after(b, instrs, dest, k);
    let c = after(b, instrs, dest, k + 1);
    let i = instrs[k];
    after_step(b, instrs, dest, k);
    names_are_new(b, instrs, dest, k);
    names_are_new(b, instrs, dest, n);
    assert(!ir::terminator(instrs[k]) && !(instrs[k] is Phi));
    let j = c.out.last();
    let t1 = meaning::step(mc, oc, t, i);
    let u1 = meaning::step(m, own, u, j);
    let ops = ir::inst_operands(i);
    if ops.len() > 0 {
        operand_tied(m, own, s, b, params, instrs, dest, k, t, u, 0);
    }
    if ops.len() > 1 {
        operand_tied(m, own, s, b, params, instrs, dest, k, t, u, 1);
    }
    if let InstV::Call { args, .. } = i {
        let new = renamed_all(args, p.renames);
        assert(meaning::values(mc, t, args) =~= meaning::values(m, u, new)) by {
            assert forall|x: int| 0 <= x < args.len() implies meaning::values(mc, t, args)[x]
                == meaning::values(m, u, new)[x] by {
                assert(ops[x] == args[x]);
                operand_tied(m, own, s, b, params, instrs, dest, k, t, u, x);
            }
        }
    }
    assert(t1.world == u1.world);
    assert forall|l: usize| #[trigger] c.renames.locals.contains_key(l) implies t1.locals[l]
        == meaning::value(m, u1, c.renames.locals[l]) && plain(
        c.renames.locals[l],
        c.stock.local,
        own,
    ) by {
        if !(i is Alloc) && ir::inst_dest(i) == Some(l) {
        } else {
            assert(p.renames.locals.contains_key(l));
        }
    }
    assert forall|x: usize| x < b.stock.local implies #[trigger] u1.locals[x] == s.locals[x] by {
        assert(u.locals[x] == s.locals[x]);
    }
    assert forall|g: usize| #[trigger] oc.contains(g) implies t1.vars[g]
        == u1.vars[e.globals[g]->Global_0] by {
        if let InstV::Store { ptr, .. } = i {
            assert(ops[1] == ptr);
            if ptr is Global && oc.contains(ptr->Global_0) && ptr->Global_0 != g {
                let h = ptr->Global_0;
                assert(e.globals.contains_key(h) && e.globals.contains_key(g));
                assert(e.globals[g] != e.globals[h]) by {
                    assert(b.renames.globals.contains_key(h) ==> plain(
                        b.renames.globals[h],
                        b.stock.local,
                        own,
                    ));
                }
            }
        }
    }
    assert forall|h: usize| h < b.stock.names.len() implies #[trigger] u1.vars[h] == s.vars[h] by {
        assert(u.vars[h] == s.vars[h]);
        if let InstV::Store { ptr, .. } = i {
            assert(ops[1] == ptr);
            if ptr is Global && oc.contains(ptr->Global_0) {
                let g = ptr->Global_0;
                assert(e.globals.contains_key(g));
                assert(b.renames.globals.contains_key(g) ==> plain(
                    b.renames.globals[g],
                    b.stock.local,
                    own,
                ));
            }
        }
    }
    assert forall|l: usize| #[trigger] c.renames.locals.contains_key(l) <== bound(
        params,
        Seq::empty(),
    ).contains_key(l) || live_lowering::gives(instrs, k + 1, l) by {
        if bound(params, Seq::empty()).contains_key(l) || live_lowering::gives(instrs, k + 1, l) {
            if !(p.renames.locals.contains_key(l)) {
                let y = choose|y: int|
                    0 <= y < k + 1 && #[trigger] live_lowering::makes(instrs[y], l);
                if y < k {
                    assert(live_lowering::gives(instrs, k, l));
                }
            }
        }
    }
}

/// The first instructions of the function that is called, and of the body in its place.
proof fn run_tied<W>(
    m: MachineV<W>,
    own: Set<usize>,
    s: StateV<W>,
    b: BodyV,
    params: Seq<(usize, IrType)>,
    instrs: Seq<InstV>,
    dest: Option<usize>,
    k: int,
    t: StateV<W>,
)
    requires
        fitting(own, b, params, instrs),
        b.out.len() == 0,
        0 <= k < instrs.len(),
        begins(m, own, s, b, after(b, instrs, dest, instrs.len() as int).renames, t),
    ensures
        ({
            let e = after(b, instrs, dest, instrs.len() as int).renames;
            let c = after(b, instrs, dest, k);
            &&& filled(params, instrs, k, c)
            &&& tied(
                m,
                own,
                s,
                b,
                e,
                c,
                meaning::run(callee_machine(m, s, e), callee_own(own, e), t, instrs.take(k)),
                meaning::run(m, own, s, c.out),
            )
        }),
    decreases k,
{
    let e = after(b, instrs, dest, instrs.len() as int).renames;
    if k > 0 {
        run_tied(m, own, s, b, params, instrs, dest, k - 1, t);
        let p = after(b, instrs, dest, k - 1);
        let c = after(b, instrs, dest, k);
        let t0 = meaning::run(callee_machine(m, s, e), callee_own(own, e), t, instrs.take(k - 1));
        let u0 = meaning::run(m, own, s, p.out);
        step_tied(m, own, s, b, params, instrs, dest, k - 1, t0, u0);
        assert(instrs.take(k).drop_last() =~= instrs.take(k - 1));
        assert(instrs.take(k).last() == instrs[k - 1]);
        assert(c.out.drop_last() =~= p.out);
    } else {
        after_start(b, instrs, dest);
        assert(instrs.take(0) =~= Seq::empty());
    }
}

/// The keys of what is bound are the parameters, whatever the arguments.
proof fn bound_keys(
    params: Seq<(usize, IrType)>,
    args: Seq<IrOperand>,
    least: int,
    own: Set<usize>,
    size: nat,
)
    requires
        forall|k: int|
            0 <= k < args.len() ==> plain(#[trigger] args[k], least, own) && (
            args[k] matches IrOperand::Global(h) ==> h < size),
    ensures
        forall|g: usize|
            bound(params, Seq::empty()).contains_key(g) <==> #[trigger] bound(
                params,
                args,
            ).contains_key(g),
        forall|g: usize| #[trigger]
            bound(params, args).contains_key(g) ==> plain(bound(params, args)[g], least, own) && (
            bound(params, args)[g] matches IrOperand::Global(h) ==> h < size),
    decreases params.len(),
{
    if params.len() > 0 {
        bound_keys(params.drop_last(), args, least, own, size);
    }
}

/// A body in place of a call does what the call does: if the call does what the function does that
/// is called, with the arguments for its parameters, then both lead to the same world, and leave
/// the same in the SSA values and variables that the caller has. The body takes its parameters
/// and what it has defined before; arguments are SSA values of the caller or come from outside,
/// and the body names no variable of the caller that is out of reach for others.
pub proof fn inlined_call_does_the_same<W>(
    m: MachineV<W>,
    own: Set<usize>,
    s: StateV<W>,
    params: Seq<(usize, IrType)>,
    instrs: Seq<InstV>,
    dest: Option<usize>,
    func: usize,
    args: Seq<IrOperand>,
    z: StockV,
    t: StateV<W>,
)
    requires
        self_contained(params, instrs),
        suffices(z, instrs.len()),
        0 <= z.local,
        forall|k: int|
            0 <= k < args.len() ==> plain(#[trigger] args[k], z.local, own) && (
            args[k] matches IrOperand::Global(h) ==> h < z.names.len()),
        forall|i: int, g: usize|
            0 <= i < instrs.len() && #[trigger] ir::inst_operands(instrs[i]).contains(
                IrOperand::Global(g),
            ) ==> !own.contains(g),
        ({
            let b = body_start(params, args, z);
            let e = inlined_body(b, instrs, dest).renames;
            let mc = callee_machine(m, s, e);
            let end = meaning::run(mc, callee_own(own, e), t, instrs);
            &&& begins(m, own, s, b, e, t)
            &&& (m.call)(s.world, func, meaning::values(m, s, args)) == (
                end.world,
                returned(mc, end, instrs.last()),
            )
        }),
    ensures
        ({
            let b = inlined_body(body_start(params, args, z), instrs, dest);
            let u = meaning::run(m, own, s, b.out);
            let c = meaning::step(m, own, s, InstV::Call { dest, func, args });
            &&& u.world == c.world
            &&& forall|x: usize| x < z.local ==> #[trigger] u.locals[x] == c.locals[x]
            &&& forall|h: usize| h < z.names.len() ==> #[trigger] u.vars[h] == c.vars[h]
        }),
{
    let b = body_start(params, args, z);
    let n = instrs.len() as int;
    bound_keys(params, args, z.local, own, z.names.len());
    after_start(b, instrs, dest);
    assert(fitting(own, b, params, instrs));
    let e = after(b, instrs, dest, n).renames;
    let mc = callee_machine(m, s, e);
    let oc = callee_own(own, e);
    run_tied(m, own, s, b, params, instrs, dest, n - 1, t);
    after_step(b, instrs, dest, n - 1);
    let p = after(b, instrs, dest, n - 1);
    let c = after(b, instrs, dest, n);
    let t0 = meaning::run(mc, oc, t, instrs.take(n - 1));
    let u0 = meaning::run(m, own, s, p.out);
    assert(instrs.drop_last() =~= instrs.take(n - 1));
    assert(meaning::run(mc, oc, t, instrs) == t0);
    if ir::inst_operands(instrs[n - 1]).len() > 0 {
        operand_tied(m, own, s, b, params, instrs, dest, n - 1, t0, u0, 0);
    }
    if let Some(d) = dest {
        assert(c.out.drop_last() =~= p.out);
        let v = returned(mc, t0, instrs.last());
        assert(v.wrapping_add(0) == v);
        assert(meaning::run(m, own, s, c.out) == meaning::with_local(u0, d, v));
    } else {
        assert(c.out == p.out);
    }
    assert forall|x: usize| x < z.local implies #[trigger] meaning::run(
        m,
        own,
        s,
        c.out,
    ).locals[x] == meaning::step(m, own, s, InstV::Call { dest, func, args }).locals[x] by {
        assert(u0.locals[x] == s.locals[x]);
    }
}

} // verus!

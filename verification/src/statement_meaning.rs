//! What the instructions of a statement do: branches are taken, loops go round and are left,
//! variables are declared, and values are assigned and returned as the statement says.

use crate::ast::{BlockItemV, ConstDefV, DeclV, ExprV, StmtV, VarDefV};
use crate::error::ErrorView;
use crate::ir::{BlockV, InstV, IrOperand, IrType};
use crate::meaning::{self, MachineV, StateV};
use crate::scopes;
use crate::translate::{self, GenV, SymV};
use crate::translation_blocks;
use crate::translation_meaning::{self, Calls, SpotV};
use vstd::prelude::*;

verus! {

// ── What statements do ───────────────────────────────────────────────────────

/// What a name of a function stands for while the function runs.
pub enum ThingV {
    /// An integer.
    Value(i32),
    /// A variable that nothing has been assigned to.
    Unset,
    /// An array, which lives where the machine has its name.
    Array(SymV),
}

/// The names of a function and what they stand for, scope by scope.
pub type Env = Seq<Map<Seq<char>, ThingV>>;

/// How a statement ends: with the values and the world after it, or with a returned value.
pub enum FlowV<W> {
    /// The next statement follows.
    Next(Env, W),
    /// The innermost loop is left.
    Broke(Env, W),
    /// The innermost loop goes round again.
    Continued(Env, W),
    /// The function returns.
    Returned(W, Option<i32>),
    /// A variable without a value is used.
    Undefined,
    /// Loops have gone round too often to tell.
    Running,
}

/// What a name of the function stands for.
pub open spec fn found(env: Env, name: Seq<char>) -> Option<ThingV> {
    scopes::lookup_in(env, Map::empty(), name)
}

/// The values after a name has been declared in the innermost scope.
pub open spec fn bound(env: Env, name: Seq<char>, v: ThingV) -> Env {
    env.update(env.len() - 1, env.last().insert(name, v))
}

/// The values after an assignment to a name, in the innermost scope that has it.
pub open spec fn assigned(env: Env, name: Seq<char>, v: i32) -> Env
    decreases env.len(),
{
    if env.len() == 0 {
        env
    } else if env.last().contains_key(name) {
        bound(env, name, ThingV::Value(v))
    } else {
        assigned(env.drop_last(), name, v).push(env.last())
    }
}

/// Whether the names in an expression have values.
pub open spec fn has_values(env: Env, e: ExprV) -> bool
    decreases e, 0int,
{
    match e {
        ExprV::LVal(name) => found(env, name) != Some(ThingV::Unset),
        ExprV::Unary { expr, .. } => has_values(env, *expr),
        ExprV::Binary { lhs, rhs, .. } => has_values(env, *lhs) && has_values(env, *rhs),
        ExprV::Call { args, .. } => all_have_values(env, args, 0),
        ExprV::Index { array, index } => has_values(env, *array) && has_values(env, *index),
        _ => true,
    }
}

/// Whether the names in the expressions of a list from the `k`th on have values.
pub open spec fn all_have_values(env: Env, es: Seq<ExprV>, k: int) -> bool
    decreases es, es.len() - k,
{
    if k < 0 || k >= es.len() {
        true
    } else {
        has_values(env, es[k]) && all_have_values(env, es, k + 1)
    }
}

/// What a name stands for, as a constant or an array.
pub open spec fn symbol(v: ThingV) -> SymV {
    match v {
        ThingV::Value(v) => SymV::Const(v),
        ThingV::Unset => SymV::Const(0),
        ThingV::Array(sym) => sym,
    }
}

/// The names of a scope as constants and arrays.
pub open spec fn constants(scope: Map<Seq<char>, ThingV>) -> Map<Seq<char>, SymV> {
    scope.map_values(|v: ThingV| symbol(v))
}

/// A state of a translation where the names of the function stand for their values.
pub open spec fn valued(g: GenV, env: Env) -> GenV {
    GenV {
        scopes: env.map_values(|scope: Map<Seq<char>, ThingV>| constants(scope)),
        ..g
    }
}

/// The world after an expression, and its value, where its names have values. Names of no scope
/// stand for what they do globally in `g`.
pub open spec fn worth<W>(
    m: MachineV<W>,
    calls: Calls<W>,
    g: GenV,
    env: Env,
    w: W,
    e: ExprV,
) -> Option<(W, i32)> {
    if has_values(env, e) {
        Some(
            translation_meaning::evaluated(
                m,
                Set::empty(),
                calls,
                valued(g, env),
                Map::empty(),
                w,
                e,
            ),
        )
    } else {
        None
    }
}

/// What is left of an end when a scope is left.
pub open spec fn scope_left<W>(f: FlowV<W>) -> FlowV<W> {
    match f {
        FlowV::Next(env, w) => FlowV::Next(env.drop_last(), w),
        FlowV::Broke(env, w) => FlowV::Broke(env.drop_last(), w),
        FlowV::Continued(env, w) => FlowV::Continued(env.drop_last(), w),
        _ => f,
    }
}

/// An array that is declared: the state after it has been made up, the index of its name, and its
/// dimensions.
pub open spec fn array_made(g: GenV, name: Seq<char>, dims: Seq<ExprV>) -> Option<
    (GenV, usize, Seq<i32>),
> {
    match g.local_name(name) {
        Err(_) => None,
        Ok((g1, mangled)) => match translate::const_values(g1, dims) {
            Err(_) => None,
            Ok(sizes) => match translate::new_array(g1, name, mangled, sizes) {
                Err(_) => None,
                Ok((g2, n)) => Some((g2, n, sizes)),
            },
        },
    }
}

/// The items that an array of given dimensions is initialized with, one for each element.
pub open spec fn items_of(sizes: Seq<i32>, init: ExprV) -> Option<Seq<ExprV>> {
    match (translate::local_flat(sizes, init, Seq::empty()), translate::total(sizes)) {
        (Ok(flat), Some(t)) => Some(translate::fill(flat, t as int).take(t as int)),
        _ => None,
    }
}

/// The world after the items from the `i`th on have been computed, each stored in its element of
/// the array at an address.
pub open spec fn filled<W>(
    m: MachineV<W>,
    calls: Calls<W>,
    g: GenV,
    env: Env,
    w: W,
    at: i32,
    items: Seq<ExprV>,
    i: int,
) -> Option<W>
    decreases items.len() - i,
{
    if i < 0 || i >= items.len() {
        Some(w)
    } else {
        match worth(m, calls, g, env, w, items[i]) {
            None => None,
            Some((w1, v)) => filled(
                m,
                calls,
                g,
                env,
                (m.store)(w1, (m.element)(at, (i as usize) as i32, 4), v),
                at,
                items,
                i + 1,
            ),
        }
    }
}

/// How the definition of an array ends, where `g` is the state of the translation before it.
pub open spec fn array_defined<W>(
    m: MachineV<W>,
    calls: Calls<W>,
    g0: GenV,
    g: GenV,
    env: Env,
    w: W,
    name: Seq<char>,
    dims: Seq<ExprV>,
    init: Option<ExprV>,
) -> FlowV<W> {
    match array_made(g, name, dims) {
        None => FlowV::Undefined,
        Some((_, n, sizes)) => {
            let env1 = bound(env, name, ThingV::Array(SymV::Array(n, sizes)));
            match init {
                None => FlowV::Next(env1, w),
                Some(e) => match items_of(sizes, e) {
                    None => FlowV::Undefined,
                    Some(items) => match filled(
                        m,
                        calls,
                        g0,
                        env1,
                        w,
                        (m.address)(n),
                        items,
                        0,
                    ) {
                        None => FlowV::Undefined,
                        Some(w1) => FlowV::Next(env1, w1),
                    },
                },
            }
        },
    }
}

/// How a constant definition ends.
pub open spec fn constant_defined<W>(
    m: MachineV<W>,
    calls: Calls<W>,
    g0: GenV,
    g: GenV,
    env: Env,
    w: W,
    d: ConstDefV,
) -> FlowV<W> {
    if d.dims.len() > 0 {
        array_defined(m, calls, g0, g, env, w, d.name, d.dims, Some(d.init))
    } else {
        match worth(m, calls, g0, env, w, d.init) {
            None => FlowV::Undefined,
            Some((w1, v)) => FlowV::Next(bound(env, d.name, ThingV::Value(v)), w1),
        }
    }
}

/// How constant definitions from the `k`th on end.
pub open spec fn constants_defined<W>(
    m: MachineV<W>,
    calls: Calls<W>,
    g0: GenV,
    g: GenV,
    env: Env,
    w: W,
    defs: Seq<ConstDefV>,
    k: int,
) -> FlowV<W>
    decreases defs.len() - k,
{
    if k < 0 || k >= defs.len() {
        FlowV::Next(env, w)
    } else {
        match constant_defined(m, calls, g0, g, env, w, defs[k]) {
            FlowV::Next(env1, w1) => constants_defined(
                m,
                calls,
                g0,
                translate::const_def(g, defs[k])->Ok_0,
                env1,
                w1,
                defs,
                k + 1,
            ),
            f => f,
        }
    }
}

/// How a variable definition ends.
pub open spec fn variable_defined<W>(
    m: MachineV<W>,
    calls: Calls<W>,
    g0: GenV,
    g: GenV,
    env: Env,
    w: W,
    d: VarDefV,
) -> FlowV<W> {
    if d.dims.len() > 0 {
        array_defined(m, calls, g0, g, env, w, d.name, d.dims, d.init)
    } else {
        match d.init {
            None => FlowV::Next(bound(env, d.name, ThingV::Unset), w),
            Some(init) => match worth(m, calls, g0, env, w, init) {
                None => FlowV::Undefined,
                Some((w1, v)) => FlowV::Next(bound(env, d.name, ThingV::Value(v)), w1),
            },
        }
    }
}

/// How variable definitions from the `k`th on end.
pub open spec fn variables_defined<W>(
    m: MachineV<W>,
    calls: Calls<W>,
    g0: GenV,
    g: GenV,
    env: Env,
    w: W,
    defs: Seq<VarDefV>,
    k: int,
) -> FlowV<W>
    decreases defs.len() - k,
{
    if k < 0 || k >= defs.len() {
        FlowV::Next(env, w)
    } else {
        match variable_defined(m, calls, g0, g, env, w, defs[k]) {
            FlowV::Next(env1, w1) => variables_defined(
                m,
                calls,
                g0,
                translate::var_def(g, defs[k])->Ok_0,
                env1,
                w1,
                defs,
                k + 1,
            ),
            f => f,
        }
    }
}

/// How a declaration ends.
pub open spec fn declared<W>(
    m: MachineV<W>,
    calls: Calls<W>,
    g0: GenV,
    g: GenV,
    env: Env,
    w: W,
    d: DeclV,
) -> FlowV<W> {
    match d {
        DeclV::Const(defs) => constants_defined(m, calls, g0, g, env, w, defs, 0),
        DeclV::Var(defs) => variables_defined(m, calls, g0, g, env, w, defs, 0),
    }
}

/// How an assignment of a value to an element ends. The indices are evaluated from the first on.
pub open spec fn element_assigned<W>(
    m: MachineV<W>,
    calls: Calls<W>,
    g0: GenV,
    env: Env,
    w: W,
    name: Seq<char>,
    index: Seq<ExprV>,
    v: i32,
) -> FlowV<W> {
    match valued(g0, env).lookup(name) {
        None => FlowV::Undefined,
        Some(sym) => if all_have_values(env, index, 0) {
            let (w1, p) = translation_meaning::target(
                m,
                Set::empty(),
                calls,
                valued(g0, env),
                Map::empty(),
                w,
                sym,
                (m.address)(translation_meaning::array_index(sym)),
                index,
                0,
            );
            FlowV::Next(env, (m.store)(w1, p, v))
        } else {
            FlowV::Undefined
        },
    }
}

/// How a statement ends, where each loop goes round less than `fuel` times. Names of no scope stand
/// for what they do globally in `g0`; `g` is the state of the translation before the statement, and
/// gives the arrays that are declared their places.
pub open spec fn carried_out<W>(
    m: MachineV<W>,
    calls: Calls<W>,
    g0: GenV,
    g: GenV,
    env: Env,
    w: W,
    s: StmtV,
    fuel: nat,
) -> FlowV<W>
    decreases fuel, s, 0int,
{
    match s {
        StmtV::Return(None) => FlowV::Returned(w, None),
        StmtV::Return(Some(e)) => match worth(m, calls, g0, env, w, e) {
            None => FlowV::Undefined,
            Some((w1, v)) => FlowV::Returned(w1, Some(v)),
        },
        StmtV::Assign { name, index, expr } => match worth(m, calls, g0, env, w, expr) {
            None => FlowV::Undefined,
            Some((w1, v)) => if index.len() > 0 {
                element_assigned(m, calls, g0, env, w1, name, index, v)
            } else if found(env, name) is Some {
                FlowV::Next(assigned(env, name, v), w1)
            } else if g0.globals.contains_key(name) && g0.globals[name] is Var {
                FlowV::Next(env, (m.store)(w1, (m.address)(g0.globals[name]->Var_0), v))
            } else {
                FlowV::Next(env, w1)
            },
        },
        StmtV::Expr(e) => match worth(m, calls, g0, env, w, e) {
            None => FlowV::Undefined,
            Some((w1, _)) => FlowV::Next(env, w1),
        },
        StmtV::Block(items) => scope_left(
            all_carried_out(
                m,
                calls,
                g0,
                GenV { scopes: g.scopes.push(Map::empty()), ..g },
                env.push(Map::empty()),
                w,
                items,
                0,
                fuel,
            ),
        ),
        StmtV::If { cond, then_branch, else_branch } => match worth(m, calls, g0, env, w, cond) {
            None => FlowV::Undefined,
            Some((w1, c)) => if c != 0 {
                carried_out(m, calls, g0, if_stages(g, s)->0.g3, env, w1, *then_branch, fuel)
            } else {
                match else_branch {
                    Some(els) => {
                        let z = if_stages(g, s)->0;
                        carried_out(m, calls, g0, z.g5.start(z.no), env, w1, *els, fuel)
                    },
                    None => FlowV::Next(env, w1),
                }
            },
        },
        StmtV::While { cond, body } => if fuel == 0 {
            FlowV::Running
        } else {
            match worth(m, calls, g0, env, w, cond) {
                None => FlowV::Undefined,
                Some((w1, c)) => if c == 0 {
                    FlowV::Next(env, w1)
                } else {
                    match carried_out(
                        m,
                        calls,
                        g0,
                        while_stages(g, s)->0.g4,
                        env,
                        w1,
                        *body,
                        fuel,
                    ) {
                        FlowV::Next(env2, w2) => carried_out(
                            m,
                            calls,
                            g0,
                            g,
                            env2,
                            w2,
                            s,
                            (fuel - 1) as nat,
                        ),
                        FlowV::Continued(env2, w2) => carried_out(
                            m,
                            calls,
                            g0,
                            g,
                            env2,
                            w2,
                            s,
                            (fuel - 1) as nat,
                        ),
                        FlowV::Broke(env2, w2) => FlowV::Next(env2, w2),
                        f => f,
                    }
                },
            }
        },
        StmtV::Break => FlowV::Broke(env, w),
        StmtV::Continue => FlowV::Continued(env, w),
        StmtV::Empty => FlowV::Next(env, w),
        StmtV::Asm(code) => FlowV::Next(env, (m.code)(w, code).0),
    }
}

/// How the declarations and statements of a block from the `k`th on end.
pub open spec fn all_carried_out<W>(
    m: MachineV<W>,
    calls: Calls<W>,
    g0: GenV,
    g: GenV,
    env: Env,
    w: W,
    items: Seq<BlockItemV>,
    k: int,
    fuel: nat,
) -> FlowV<W>
    decreases fuel, items, items.len() - k,
{
    if k < 0 || k >= items.len() {
        FlowV::Next(env, w)
    } else {
        match (match items[k] {
            BlockItemV::Stmt(s) => carried_out(m, calls, g0, g, env, w, s, fuel),
            BlockItemV::Decl(d) => declared(m, calls, g0, g, env, w, d),
        }) {
            FlowV::Next(env1, w1) => all_carried_out(
                m,
                calls,
                g0,
                match items[k] {
                    BlockItemV::Stmt(s) => translate::stmt(g, s)->Ok_0,
                    BlockItemV::Decl(d) => translate::decl(g, d)->Ok_0,
                },
                env1,
                w1,
                items,
                k + 1,
                fuel,
            ),
            f => f,
        }
    }
}

// ── Names in their places ────────────────────────────────────────────────────

/// Whether the names in an expression stand for what their places ask, where it stands.
pub open spec fn well_named_at(g: GenV, e: ExprV) -> bool {
    translation_meaning::well_named(g, g.b.global_counter, e)
}

/// Whether a variable that is declared gets a name that no other variable of the function has.
pub open spec fn name_is_new(g: GenV, name: Seq<char>) -> bool {
    g.local_name(name) matches Ok((g1, mangled)) ==> g1.b.own_global(mangled) is None
}

/// Whether the names in the initializer of an array that is declared do.
pub open spec fn array_well_named(
    g: GenV,
    name: Seq<char>,
    dims: Seq<ExprV>,
    init: Option<ExprV>,
) -> bool {
    array_made(g, name, dims) matches Some((g2, _, sizes)) ==> (init matches Some(e) ==> (items_of(
        sizes,
        e,
    ) matches Some(items) ==> forall|j: int|
        0 <= j < items.len() ==> well_named_at(g2, #[trigger] items[j])))
}

/// Whether the names in constant definitions from the `k`th on do.
pub open spec fn const_defs_well_named(g: GenV, defs: Seq<ConstDefV>, k: int) -> bool
    decreases defs.len() - k,
{
    if k < 0 || k >= defs.len() {
        true
    } else {
        &&& defs[k].dims.len() == 0 ==> well_named_at(g, defs[k].init)
        &&& defs[k].dims.len() > 0 ==> array_well_named(
            g,
            defs[k].name,
            defs[k].dims,
            Some(defs[k].init),
        )
        &&& translate::const_def(g, defs[k]) matches Ok(g1) ==> const_defs_well_named(
            g1,
            defs,
            k + 1,
        )
    }
}

/// Whether the names in variable definitions from the `k`th on do, and each integer is defined under a
/// name that no other variable of the function has.
pub open spec fn var_defs_well_named(g: GenV, defs: Seq<VarDefV>, k: int) -> bool
    decreases defs.len() - k,
{
    if k < 0 || k >= defs.len() {
        true
    } else {
        &&& defs[k].dims.len() == 0 ==> name_is_new(g, defs[k].name) && (
        defs[k].init matches Some(init) ==> well_named_at(g, init))
        &&& defs[k].dims.len() > 0 ==> array_well_named(
            g,
            defs[k].name,
            defs[k].dims,
            defs[k].init,
        )
        &&& translate::var_def(g, defs[k]) matches Ok(g1) ==> var_defs_well_named(
            g1,
            defs,
            k + 1,
        )
    }
}

/// Whether the names in a declaration do.
pub open spec fn decl_well_named(g: GenV, d: DeclV) -> bool {
    match d {
        DeclV::Const(defs) => const_defs_well_named(g, defs, 0),
        DeclV::Var(defs) => var_defs_well_named(g, defs, 0),
    }
}

/// Whether the names in a statement stand for what their places ask, and each integer that it
/// declares has a name that no other variable of the function has.
pub open spec fn stmt_well_named(g: GenV, s: StmtV) -> bool
    decreases s, 0int,
{
    match s {
        StmtV::Return(Some(e)) => well_named_at(g, e),
        StmtV::Assign { name, index, expr } => well_named_at(g, expr)
            && translation_meaning::all_well_named(g, g.b.global_counter, index, 0),
        StmtV::Expr(e) => well_named_at(g, e),
        StmtV::Block(items) => items_well_named(
            GenV { scopes: g.scopes.push(Map::empty()), ..g },
            items,
            0,
        ),
        StmtV::If { cond, then_branch, else_branch } => {
            &&& well_named_at(g, cond)
            &&& if_stages(g, s) matches Some(z) ==> {
                &&& stmt_well_named(z.g3, *then_branch)
                &&& else_branch matches Some(els) ==> stmt_well_named(z.g5.start(z.no), *els)
            }
        },
        StmtV::While { cond, body } => while_stages(g, s) matches Some(z) ==> {
            &&& well_named_at(z.top, cond)
            &&& stmt_well_named(z.g4, *body)
        },
        _ => true,
    }
}

/// Whether the names in the items of a block from the `k`th on, up to one that ends the control flow,
/// do.
pub open spec fn items_well_named(g: GenV, items: Seq<BlockItemV>, k: int) -> bool
    decreases items, items.len() - k,
{
    if k < 0 || k >= items.len() || g.b.terminated {
        true
    } else {
        match items[k] {
            BlockItemV::Stmt(s) => {
                &&& stmt_well_named(g, s)
                &&& translate::stmt(g, s) matches Ok(g1) ==> items_well_named(g1, items, k + 1)
            },
            BlockItemV::Decl(d) => {
                &&& decl_well_named(g, d)
                &&& translate::decl(g, d) matches Ok(g1) ==> items_well_named(g1, items, k + 1)
            },
        }
    }
}

// ── Stages ───────────────────────────────────────────────────────────────────

/// The states that the translation of a conditional goes through.
pub struct IfV {
    /// After the condition, with its value.
    pub g1: GenV,
    pub c: IrOperand,
    /// Before the branch.
    pub g2: GenV,
    pub yes: usize,
    pub no: usize,
    pub end: usize,
    /// At the start of the first branch, and after it.
    pub g3: GenV,
    pub g4: GenV,
    /// After the jump from it.
    pub g5: GenV,
}

/// The branch of a conditional.
pub open spec fn if_branch(z: IfV, has_else: bool) -> InstV {
    InstV::Br {
        cond: z.c,
        then_bb: z.yes,
        else_bb: if has_else {
            z.no
        } else {
            z.end
        },
    }
}

pub open spec fn if_stages(g: GenV, s: StmtV) -> Option<IfV> {
    match s {
        StmtV::If { cond, then_branch, else_branch } => match translate::expr(g, cond) {
            Err(_) => None,
            Ok((g1, c)) => match g1.labels() {
                Err(_) => None,
                Ok((g2, (yes, no, end))) => {
                    let br = InstV::Br {
                        cond: c,
                        then_bb: yes,
                        else_bb: if else_branch is Some {
                            no
                        } else {
                            end
                        },
                    };
                    let g3 = g2.emit(br).start(yes);
                    match translate::stmt(g3, *then_branch) {
                        Err(_) => None,
                        Ok(g4) => Some(
                            IfV { g1, c, g2, yes, no, end, g3, g4, g5: translate::jump_on(g4, end) },
                        ),
                    }
                },
            },
        },
        _ => None,
    }
}

/// A conditional is translated through its stages.
proof fn if_in_stages(g: GenV, s: StmtV)
    requires
        s is If,
    ensures
        translate::stmt(g, s) is Ok ==> if_stages(g, s) is Some,
        if_stages(g, s) matches Some(z) ==> translate::stmt(g, s) == match s->else_branch {
            None => Ok(z.g5.start(z.end)),
            Some(els) => match translate::stmt(z.g5.start(z.no), *els) {
                Err(e) => Err(e),
                Ok(g6) => if z.g4.b.terminated && g6.b.terminated {
                    Ok(g6)
                } else {
                    Ok(translate::jump_on(g6, z.end).start(z.end))
                },
            },
        },
{
}

/// The stages of a conditional are states of a translation.
proof fn if_stages_are_tidy(g: GenV, s: StmtV)
    requires
        translation_blocks::open_at(g),
        s is If,
    ensures
        if_stages(g, s) matches Some(z) ==> {
            &&& translation_blocks::open_at(z.g1)
            &&& translation_blocks::open_at(z.g2)
            &&& translation_blocks::tidy(z.g2.emit(if_branch(z, s->else_branch is Some)))
            &&& translation_blocks::open_at(z.g3)
            &&& translation_blocks::tidy(z.g4)
            &&& translation_blocks::tidy(z.g5)
            &&& s->else_branch is None ==> translation_blocks::open_at(z.g5.start(z.end))
            &&& s->else_branch matches Some(els) ==> {
                &&& translation_blocks::open_at(z.g5.start(z.no))
                &&& translate::stmt(z.g5.start(z.no), *els) matches Ok(g6) ==> {
                    &&& translation_blocks::tidy(g6)
                    &&& translation_blocks::tidy(translate::jump_on(g6, z.end))
                    &&& translation_blocks::open_at(
                        translate::jump_on(g6, z.end).start(z.end),
                    )
                }
            }
        },
{
    if let StmtV::If { cond, then_branch, else_branch } = s {
        translation_blocks::expr_tidy(g, cond);
        if let Some(z) = if_stages(g, s) {
            translation_blocks::labels_tidy(z.g1);
            let br = if_branch(z, else_branch is Some);
            translation_blocks::emit_tidy(z.g2, br);
            translation_blocks::start_tidy(z.g2.emit(br), z.yes);
            translation_blocks::stmt_tidy(z.g3, *then_branch);
            translation_blocks::jump_on_tidy(z.g4, z.end);
            assert(!translation_blocks::started(z.g5, z.no));
            assert(!translation_blocks::started(z.g5, z.end));
            match else_branch {
                None => translation_blocks::start_tidy(z.g5, z.end),
                Some(els) => {
                    translation_blocks::start_tidy(z.g5, z.no);
                    let g5n = z.g5.start(z.no);
                    assert(!translation_blocks::started(g5n, z.end));
                    translation_blocks::stmt_tidy(g5n, *els);
                    if let Ok(g6) = translate::stmt(g5n, *els) {
                        translation_blocks::jump_on_tidy(g6, z.end);
                        let g7 = translate::jump_on(g6, z.end);
                        assert(!translation_blocks::started(g7, z.end));
                        translation_blocks::start_tidy(g7, z.end);
                    }
                },
            }
        }
    }
}

/// The states that the translation of a loop goes through.
pub struct WhileV {
    /// Before the jump to the loop.
    pub g1: GenV,
    pub entry: usize,
    pub inside: usize,
    pub end: usize,
    /// At the start of the loop, and after its condition, with its value.
    pub top: GenV,
    pub g2: GenV,
    pub c: IrOperand,
    /// After the branch.
    pub g3: GenV,
    /// At the start of the body, and after it.
    pub g4: GenV,
    pub g5: GenV,
    /// After the loop.
    pub out: GenV,
}

pub open spec fn while_stages(g: GenV, s: StmtV) -> Option<WhileV> {
    match s {
        StmtV::While { cond, body } => match g.labels() {
            Err(_) => None,
            Ok((g1, (entry, inside, end))) => {
                let top = g1.emit(InstV::Jump { target: entry }).start(entry);
                match translate::expr(top, cond) {
                    Err(_) => None,
                    Ok((g2, c)) => {
                        let g3 = g2.emit(InstV::Br { cond: c, then_bb: inside, else_bb: end });
                        let g4 = GenV { loops: g3.loops.push((entry, end)), ..g3 }.start(inside);
                        match translate::stmt(g4, *body) {
                            Err(_) => None,
                            Ok(g5) => Some(
                                WhileV {
                                    g1,
                                    entry,
                                    inside,
                                    end,
                                    top,
                                    g2,
                                    c,
                                    g3,
                                    g4,
                                    g5,
                                    out: GenV {
                                        loops: g5.loops.drop_last(),
                                        ..translate::jump_on(g5, entry)
                                    }.start(end),
                                },
                            ),
                        }
                    },
                }
            },
        },
        _ => None,
    }
}

/// A loop is translated through its stages.
proof fn while_in_stages(g: GenV, s: StmtV)
    requires
        s is While,
    ensures
        translate::stmt(g, s) is Ok ==> while_stages(g, s) is Some,
        while_stages(g, s) matches Some(z) ==> translate::stmt(g, s) == Ok::<GenV, ErrorView>(z.out),
{
}

/// The stages of a loop are states of a translation.
proof fn while_stages_are_tidy(g: GenV, s: StmtV)
    requires
        translation_blocks::open_at(g),
        s is While,
    ensures
        while_stages(g, s) matches Some(z) ==> {
            &&& translation_blocks::open_at(z.g1)
            &&& translation_blocks::tidy(z.g1.emit(InstV::Jump { target: z.entry }))
            &&& translation_blocks::open_at(z.top)
            &&& translation_blocks::open_at(z.g2)
            &&& translation_blocks::tidy(z.g3)
            &&& translation_blocks::open_at(z.g4)
            &&& translation_blocks::tidy(z.g5)
            &&& translation_blocks::tidy(translate::jump_on(z.g5, z.entry))
            &&& translation_blocks::open_at(z.out)
        },
{
    if let StmtV::While { cond, body } = s {
        translation_blocks::labels_tidy(g);
        if let Some(z) = while_stages(g, s) {
            let go = InstV::Jump { target: z.entry };
            translation_blocks::emit_tidy(z.g1, go);
            translation_blocks::start_tidy(z.g1.emit(go), z.entry);
            assert(!translation_blocks::started(z.top, z.inside));
            assert(!translation_blocks::started(z.top, z.end));
            translation_blocks::expr_tidy(z.top, cond);
            let br = InstV::Br { cond: z.c, then_bb: z.inside, else_bb: z.end };
            translation_blocks::emit_tidy(z.g2, br);
            let inner = GenV { loops: z.g3.loops.push((z.entry, z.end)), ..z.g3 };
            translation_blocks::same_blocks(z.g3, inner);
            assert(!translation_blocks::started(inner, z.inside));
            assert(!translation_blocks::started(inner, z.end));
            translation_blocks::start_tidy(inner, z.inside);
            assert(!translation_blocks::started(z.g4, z.end));
            translation_blocks::stmt_tidy(z.g4, *body);
            translation_blocks::jump_on_tidy(z.g5, z.entry);
            let g6 = translate::jump_on(z.g5, z.entry);
            let g7 = GenV { loops: z.g5.loops.drop_last(), ..g6 };
            translation_blocks::same_blocks(g6, g7);
            assert(!translation_blocks::started(g7, z.end));
            translation_blocks::start_tidy(g7, z.end);
        }
    }
}

// ── Growth ───────────────────────────────────────────────────────────────────

proof fn jump_on_grows(g: GenV, target: usize)
    requires
        translation_blocks::tidy(g),
    ensures
        translation_meaning::grown(g, translate::jump_on(g, target)),
{
    if g.b.terminated {
        translation_meaning::counted_grows(g, g);
    } else {
        translation_meaning::emit_grows(g, InstV::Jump { target });
    }
}

/// A state with the same blocks and function names goes on from another.
pub(crate) proof fn longer_same(g: GenV, h: GenV)
    requires
        translation_blocks::tidy(g),
        h.b == g.b,
        h.program == g.program,
        h.ret_type == g.ret_type,
    ensures
        translation_meaning::longer(g, h),
{
    reveal(translation_meaning::longer);
    reveal(translation_blocks::tidy);
}

/// A state of a translation goes on from another, in the same loops, with the same names in all
/// scopes but the innermost.
pub open spec fn widened(g: GenV, h: GenV) -> bool {
    &&& translation_meaning::longer(g, h)
    &&& h.scopes.len() == g.scopes.len()
    &&& h.scopes.drop_last() == g.scopes.drop_last()
    &&& h.globals == g.globals
    &&& h.func_rets == g.func_rets
    &&& h.loops == g.loops
}

pub(crate) proof fn widened_on(a: GenV, b: GenV, c: GenV)
    requires
        widened(a, b),
        widened(b, c),
    ensures
        widened(a, c),
{
    translation_meaning::longer_on(a, b, c);
}

pub(crate) proof fn grown_is_widened(g: GenV, h: GenV)
    requires
        translation_meaning::grown(g, h),
    ensures
        widened(g, h),
        h.scopes == g.scopes,
{
    reveal(translation_meaning::grown);
}

/// The state in which the value of a variable definition is computed.
spec fn var_made(g: GenV, name: Seq<char>) -> GenV {
    let (g1, mangled) = g.local_name(name)->Ok_0;
    let (g2, n) = g1.intern(mangled)->Ok_0;
    g2.pend(n, IrType::I32)
}

/// The variable of a definition is made up before its value is computed.
proof fn var_made_grows(g: GenV, d: VarDefV)
    requires
        translation_blocks::open_at(g),
        d.dims.len() == 0,
        name_is_new(g, d.name),
        translate::var_def(g, d) is Ok,
    ensures
        ({
            let h = var_made(g, d.name);
            let x = g.b.global_counter;
            &&& translation_meaning::grown(g, h)
            &&& translation_blocks::open_at(h)
            &&& h.b.global_counter == x + 1
            &&& h.b.blocks == g.b.blocks
            &&& translate::var_def(g, d) == match d.init {
                None => Ok::<GenV, ErrorView>(h.bind(d.name, SymV::Var(x))),
                Some(init) => match translate::expr(h, init) {
                    Err(e) => Err(e),
                    Ok((g4, v)) => Ok(
                        g4.emit(InstV::Store { value: v, ptr: IrOperand::Global(x) }).bind(
                            d.name,
                            SymV::Var(x),
                        ),
                    ),
                },
            }
        }),
{
    let h = var_made(g, d.name);
    translation_blocks::same_blocks(g, h);
    translation_meaning::counted_grows(g, h);
}

/// A name that is bound leaves the scopes around the innermost.
pub(crate) proof fn bind_widens(g: GenV, name: Seq<char>, sym: SymV)
    requires
        translation_blocks::tidy(g),
        g.scopes.len() > 0,
    ensures
        widened(g, g.bind(name, sym)),
        translation_blocks::tidy(g.bind(name, sym)),
{
    let h = g.bind(name, sym);
    longer_same(g, h);
    translation_blocks::same_blocks(g, h);
    assert(h.scopes.drop_last() =~= g.scopes.drop_last());
}

proof fn integer_def_grows(g: GenV, d: VarDefV)
    requires
        translation_blocks::open_at(g),
        g.scopes.len() > 0,
        d.dims.len() == 0,
        name_is_new(g, d.name),
    ensures
        translate::var_def(g, d) matches Ok(h) ==> widened(g, h) && translation_blocks::open_at(h),
{
    if translate::var_def(g, d) is Ok {
        var_made_grows(g, d);
        let g3 = var_made(g, d.name);
        let x = g.b.global_counter;
        grown_is_widened(g, g3);
        match d.init {
            None => {
                bind_widens(g3, d.name, SymV::Var(x));
                widened_on(g, g3, g3.bind(d.name, SymV::Var(x)));
            },
            Some(init) => {
                let (g4, v) = translate::expr(g3, init)->Ok_0;
                let i = InstV::Store { value: v, ptr: IrOperand::Global(x) };
                translation_blocks::expr_tidy(g3, init);
                translation_meaning::expr_grows(g3, init);
                translation_meaning::emit_grows(g4, i);
                translation_blocks::emit_tidy(g4, i);
                translation_meaning::grown_on(g3, g4, g4.emit(i));
                grown_is_widened(g3, g4.emit(i));
                bind_widens(g4.emit(i), d.name, SymV::Var(x));
                widened_on(g, g3, g4.emit(i));
                widened_on(g, g4.emit(i), g4.emit(i).bind(d.name, SymV::Var(x)));
            },
        }
    }
}

/// There are as many values as expressions.
proof fn as_many_values(g: GenV, es: Seq<ExprV>)
    ensures
        translate::const_values(g, es) matches Ok(vs) ==> vs.len() == es.len(),
    decreases es.len(),
{
    if es.len() > 0 {
        as_many_values(g, es.drop_last());
    }
}

/// An array is made up before its items are computed.
proof fn array_made_grows(g: GenV, name: Seq<char>, dims: Seq<ExprV>)
    requires
        translation_blocks::open_at(g),
        g.scopes.len() > 0,
    ensures
        array_made(g, name, dims) matches Some((h, n, sizes)) ==> {
            &&& widened(g, h)
            &&& translation_blocks::open_at(h)
            &&& h.b.blocks == g.b.blocks
            &&& h.b.global_counter >= g.b.global_counter
            &&& sizes.len() == dims.len()
            &&& h.scopes == g.scopes.update(
                g.scopes.len() - 1,
                g.scopes.last().insert(name, SymV::Array(n, sizes)),
            )
        },
{
    if let Some((h, n, sizes)) = array_made(g, name, dims) {
        let (g1, mangled) = g.local_name(name)->Ok_0;
        as_many_values(g1, dims);
        let made = (g1.intern(mangled)->Ok_0).0.pend(n, translate::array_type(sizes));
        translation_blocks::same_blocks(g, made);
        translation_meaning::counted_grows(g, made);
        grown_is_widened(g, made);
        bind_widens(made, name, SymV::Array(n, sizes));
        widened_on(g, made, h);
    }
}

/// The stores of items go on from where they start.
proof fn init_stores_grow(
    g: GenV,
    base: usize,
    dims: Seq<i32>,
    flat: Seq<ExprV>,
    i: int,
    n: int,
)
    requires
        translation_blocks::open_at(g),
    ensures
        translate::init_stores(g, base, dims, flat, i, n) matches Ok(h)
            ==> translation_meaning::grown(g, h) && translation_blocks::open_at(h),
    decreases n - i,
{
    if i < n {
        let at = (i as usize) as i32;
        translation_blocks::expr_tidy(g, flat[i]);
        translation_meaning::expr_grows(g, flat[i]);
        if let Ok((g1, value)) = translate::expr(g, flat[i]) {
            translation_meaning::elem_ptr_grows(g1, base, dims, at);
            if let Ok((g2, ptr)) = translate::elem_ptr(g1, base, dims, at) {
                let st = InstV::Store { value, ptr };
                let g3 = g2.emit(st);
                translation_meaning::grown_on(g, g1, g2);
                translation_meaning::emit_grows(g2, st);
                translation_blocks::emit_tidy(g2, st);
                translation_meaning::grown_on(g, g2, g3);
                init_stores_grow(g3, base, dims, flat, i + 1, n);
                if let Ok(h) = translate::init_stores(g3, base, dims, flat, i + 1, n) {
                    translation_meaning::grown_on(g, g3, h);
                }
            }
        }
    } else {
        translation_meaning::counted_grows(g, g);
    }
}

/// The state after the definition of an array.
spec fn array_done(made: GenV, n: usize, sizes: Seq<i32>, init: Option<ExprV>) -> Result<
    GenV,
    ErrorView,
> {
    match init {
        None => Ok(made),
        Some(e) => translate::array_init(made, n, sizes, e),
    }
}

proof fn array_done_grows(made: GenV, n: usize, sizes: Seq<i32>, init: Option<ExprV>)
    requires
        translation_blocks::open_at(made),
    ensures
        array_done(made, n, sizes, init) matches Ok(h) ==> translation_meaning::grown(made, h)
            && translation_blocks::open_at(h),
{
    match init {
        None => translation_meaning::counted_grows(made, made),
        Some(e) => {
            if let Ok(flat) = translate::local_flat(sizes, e, Seq::empty()) {
                if let Some(t) = translate::total(sizes) {
                    init_stores_grow(
                        made,
                        n,
                        sizes,
                        translate::fill(flat, t as int),
                        0,
                        t as int,
                    );
                }
            }
        },
    }
}

/// An array that is defined goes on from where it starts.
proof fn array_def_grows(g: GenV, name: Seq<char>, dims: Seq<ExprV>, init: Option<ExprV>)
    requires
        translation_blocks::open_at(g),
        g.scopes.len() > 0,
    ensures
        array_made(g, name, dims) matches Some((made, n, sizes)) ==> (array_done(
            made,
            n,
            sizes,
            init,
        ) matches Ok(h) ==> widened(g, h) && translation_blocks::open_at(h)),
{
    array_made_grows(g, name, dims);
    if let Some((made, n, sizes)) = array_made(g, name, dims) {
        array_done_grows(made, n, sizes, init);
        if let Ok(h) = array_done(made, n, sizes, init) {
            grown_is_widened(made, h);
            widened_on(g, made, h);
        }
    }
}

proof fn var_def_grows(g: GenV, d: VarDefV)
    requires
        translation_blocks::open_at(g),
        g.scopes.len() > 0,
        d.dims.len() == 0 ==> name_is_new(g, d.name),
    ensures
        translate::var_def(g, d) matches Ok(h) ==> widened(g, h) && translation_blocks::open_at(h),
{
    if d.dims.len() == 0 {
        integer_def_grows(g, d);
    } else {
        array_def_grows(g, d.name, d.dims, d.init);
    }
}

proof fn const_def_grows(g: GenV, d: ConstDefV)
    requires
        translation_blocks::open_at(g),
        g.scopes.len() > 0,
        d.dims.len() == 0 ==> !(d.init is InitList),
    ensures
        translate::const_def(g, d) matches Ok(h) ==> widened(g, h) && translation_blocks::open_at(h),
{
    if d.dims.len() == 0 {
        if translate::const_def(g, d) is Ok {
            bind_widens(g, d.name, SymV::Const(translate::const_value(g, d.init)->Ok_0));
        }
    } else {
        array_def_grows(g, d.name, d.dims, Some(d.init));
    }
}

proof fn var_defs_grow(g: GenV, defs: Seq<VarDefV>, k: int)
    requires
        translation_blocks::open_at(g),
        g.scopes.len() > 0,
        var_defs_well_named(g, defs, k),
    ensures
        translate::var_defs(g, defs, k) matches Ok(h) ==> widened(g, h)
            && translation_blocks::open_at(h),
    decreases defs.len() - k,
{
    if 0 <= k < defs.len() {
        var_def_grows(g, defs[k]);
        if let Ok(g1) = translate::var_def(g, defs[k]) {
            var_defs_grow(g1, defs, k + 1);
            if let Ok(g2) = translate::var_defs(g1, defs, k + 1) {
                widened_on(g, g1, g2);
            }
        }
    } else {
        longer_same(g, g);
    }
}

proof fn const_defs_grow(g: GenV, defs: Seq<ConstDefV>, k: int)
    requires
        translation_blocks::open_at(g),
        g.scopes.len() > 0,
        const_defs_well_named(g, defs, k),
    ensures
        translate::const_defs(g, defs, k) matches Ok(h) ==> widened(g, h)
            && translation_blocks::open_at(h),
    decreases defs.len() - k,
{
    if 0 <= k < defs.len() {
        if let Ok(g1) = translate::const_def(g, defs[k]) {
            const_def_grows(g, defs[k]);
            const_defs_grow(g1, defs, k + 1);
            if let Ok(g2) = translate::const_defs(g1, defs, k + 1) {
                widened_on(g, g1, g2);
            }
        }
    } else {
        longer_same(g, g);
    }
}

proof fn decl_grows(g: GenV, d: DeclV)
    requires
        translation_blocks::open_at(g),
        g.scopes.len() > 0,
        decl_well_named(g, d),
    ensures
        translate::decl(g, d) matches Ok(h) ==> widened(g, h) && translation_blocks::open_at(h),
{
    match d {
        DeclV::Const(defs) => const_defs_grow(g, defs, 0),
        DeclV::Var(defs) => var_defs_grow(g, defs, 0),
    }
}

/// Each stage of a conditional goes on from the one before it.
proof fn if_stages_grow(g: GenV, s: StmtV)
    requires
        translation_blocks::open_at(g),
        s is If,
        stmt_well_named(g, s),
        if_stages(g, s) is Some,
    ensures
        ({
            let z = if_stages(g, s)->0;
            let h = z.g2.emit(if_branch(z, s->else_branch is Some));
            &&& translation_meaning::grown(g, z.g1)
            &&& translation_meaning::grown(z.g1, z.g2)
            &&& translation_meaning::grown(z.g2, h)
            &&& translation_meaning::grown(h, z.g3)
            &&& translation_meaning::grown(g, z.g3)
            &&& translation_meaning::grown(z.g4, z.g5)
        }),
{
    let z = if_stages(g, s)->0;
    if_stages_are_tidy(g, s);
    translation_meaning::expr_grows(g, s->If_cond);
    translation_meaning::labels_grow(z.g1);
    let br = if_branch(z, s->else_branch is Some);
    translation_meaning::emit_grows(z.g2, br);
    translation_meaning::start_grows(z.g2.emit(br), z.yes);
    translation_meaning::grown_on(g, z.g1, z.g2);
    translation_meaning::grown_on(g, z.g2, z.g2.emit(br));
    translation_meaning::grown_on(g, z.g2.emit(br), z.g3);
    jump_on_grows(z.g4, z.end);
}

/// Each stage of a loop up to its body goes on from the one before it.
proof fn while_stages_grow(g: GenV, s: StmtV)
    requires
        translation_blocks::open_at(g),
        s is While,
        stmt_well_named(g, s),
        while_stages(g, s) is Some,
    ensures
        ({
            let z = while_stages(g, s)->0;
            let go = z.g1.emit(InstV::Jump { target: z.entry });
            &&& translation_meaning::grown(g, z.g1)
            &&& translation_meaning::grown(z.g1, go)
            &&& translation_meaning::grown(go, z.top)
            &&& translation_meaning::grown(z.top, z.g2)
            &&& translation_meaning::grown(z.g2, z.g3)
            &&& translation_meaning::grown(g, z.g3)
            &&& translation_meaning::grown(g, z.top)
            &&& translation_meaning::longer(z.g3, z.g4)
            &&& translation_meaning::grown(z.g5, translate::jump_on(z.g5, z.entry))
            &&& translation_meaning::longer(translate::jump_on(z.g5, z.entry), z.out)
            &&& z.g4.b.global_counter == z.g3.b.global_counter
            &&& z.g4.scopes == g.scopes
            &&& z.g4.globals == g.globals
            &&& z.g4.func_rets == g.func_rets
        }),
{
    let z = while_stages(g, s)->0;
    while_stages_are_tidy(g, s);
    translation_meaning::labels_grow(g);
    let jump = InstV::Jump { target: z.entry };
    let go = z.g1.emit(jump);
    translation_meaning::emit_grows(z.g1, jump);
    translation_meaning::start_grows(go, z.entry);
    translation_meaning::grown_on(g, z.g1, go);
    translation_meaning::grown_on(g, go, z.top);
    translation_meaning::expr_grows(z.top, s->While_cond);
    translation_meaning::grown_on(g, z.top, z.g2);
    let br = InstV::Br { cond: z.c, then_bb: z.inside, else_bb: z.end };
    translation_meaning::emit_grows(z.g2, br);
    translation_meaning::grown_on(g, z.g2, z.g3);
    let inner = GenV { loops: z.g3.loops.push((z.entry, z.end)), ..z.g3 };
    longer_same(z.g3, inner);
    translation_blocks::same_blocks(z.g3, inner);
    translation_meaning::start_grows(inner, z.inside);
    reveal(translation_meaning::grown);
    translation_meaning::longer_on(z.g3, inner, z.g4);
    jump_on_grows(z.g5, z.entry);
    let g6 = translate::jump_on(z.g5, z.entry);
    let g7 = GenV { loops: z.g5.loops.drop_last(), ..g6 };
    longer_same(g6, g7);
    translation_blocks::same_blocks(g6, g7);
    translation_meaning::start_grows(g7, z.end);
    translation_meaning::longer_on(g6, g7, z.out);
}

/// A statement goes on from where it starts.
proof fn stmt_grows(g: GenV, s: StmtV)
    requires
        translation_blocks::open_at(g),
        stmt_well_named(g, s),
    ensures
        translate::stmt(g, s) matches Ok(h) ==> translation_meaning::grown(g, h),
    decreases s, 1int,
{
    let n = g.b.global_counter;
    match s {
        StmtV::Return(None) => translation_meaning::emit_grows(g, InstV::Ret { value: None }),
        StmtV::Return(Some(e)) => {
            translation_blocks::expr_tidy(g, e);
            translation_meaning::expr_grows(g, e);
            if let Ok((g1, v)) = translate::expr(g, e) {
                let i = InstV::Ret { value: Some(v) };
                translation_meaning::emit_grows(g1, i);
                translation_meaning::grown_on(g, g1, g1.emit(i));
            }
        },
        StmtV::Assign { name, index, expr } => {
            translation_blocks::expr_tidy(g, expr);
            translation_meaning::expr_grows(g, expr);
            if let Ok((g1, v)) = translate::expr(g, expr) {
                if index.len() > 0 {
                    if let Some(sym) = g.lookup(name) {
                        translation_meaning::element_target_grows(g1, sym, index);
                        if let Ok((g2, p)) = translation_meaning::element_target(g1, sym, index) {
                            let i = InstV::Store { value: v, ptr: p };
                            translation_meaning::grown_on(g, g1, g2);
                            translation_meaning::emit_grows(g2, i);
                            translation_meaning::grown_on(g, g2, g2.emit(i));
                        }
                    }
                } else if let Some(SymV::Var(x)) = g.lookup(name) {
                    let i = InstV::Store { value: v, ptr: IrOperand::Global(x) };
                    translation_meaning::emit_grows(g1, i);
                    translation_meaning::grown_on(g, g1, g1.emit(i));
                }
            }
        },
        StmtV::Expr(e) => translation_meaning::expr_grows(g, e),
        StmtV::Block(items) => {
            let inner = GenV { scopes: g.scopes.push(Map::empty()), ..g };
            translation_blocks::same_blocks(g, inner);
            items_grow(inner, items, 0);
            if let Ok(g1) = translate::block(inner, items, 0) {
                let h = GenV { scopes: g1.scopes.drop_last(), ..g1 };
                reveal(translation_meaning::grown);
                longer_same(g, inner);
                translation_meaning::longer_on(g, inner, g1);
                translation_blocks::block_tidy(inner, items, 0);
                longer_same(g1, h);
                translation_meaning::longer_on(g, g1, h);
                assert(inner.scopes.drop_last() =~= g.scopes);
            }
        },
        StmtV::If { .. } => if_grows(g, s),
        StmtV::While { .. } => while_grows(g, s),
        StmtV::Break => if g.loops.len() > 0 {
            translation_meaning::emit_grows(g, InstV::Jump { target: g.loops.last().1 });
        },
        StmtV::Continue => if g.loops.len() > 0 {
            translation_meaning::emit_grows(g, InstV::Jump { target: g.loops.last().0 });
        },
        StmtV::Empty => translation_meaning::counted_grows(g, g),
        StmtV::Asm(code) => translation_meaning::emit_grows(g, InstV::Asm { dest: None, code }),
    }
}

proof fn if_grows(g: GenV, s: StmtV)
    requires
        translation_blocks::open_at(g),
        stmt_well_named(g, s),
        s is If,
    ensures
        translate::stmt(g, s) matches Ok(h) ==> translation_meaning::grown(g, h),
        if_stages(g, s) matches Some(z) ==> translation_meaning::grown(z.g3, z.g4)
            && translation_meaning::grown(g, z.g5) && (s->else_branch matches Some(els) ==> {
            &&& translation_meaning::grown(z.g5, z.g5.start(z.no))
            &&& translate::stmt(z.g5.start(z.no), *els) matches Ok(g6) ==> {
                &&& translation_meaning::grown(z.g5.start(z.no), g6)
                &&& translation_meaning::grown(g6, translate::jump_on(g6, z.end))
                &&& translation_meaning::grown(
                    translate::jump_on(g6, z.end),
                    translate::jump_on(g6, z.end).start(z.end),
                )
            }
        }) && translation_meaning::grown(z.g5, z.g5.start(z.end)),
    decreases s, 0int,
{
    if_in_stages(g, s);
    if let StmtV::If { then_branch, else_branch, .. } = s {
        if let Some(z) = if_stages(g, s) {
            if_stages_are_tidy(g, s);
            if_stages_grow(g, s);
            stmt_grows(z.g3, *then_branch);
            translation_meaning::grown_on(g, z.g3, z.g4);
            translation_meaning::grown_on(g, z.g4, z.g5);
            translation_meaning::start_grows(z.g5, z.end);
            translation_meaning::grown_on(g, z.g5, z.g5.start(z.end));
            if let Some(els) = else_branch {
                let g5n = z.g5.start(z.no);
                translation_meaning::start_grows(z.g5, z.no);
                translation_meaning::grown_on(g, z.g5, g5n);
                stmt_grows(g5n, *els);
                if let Ok(g6) = translate::stmt(g5n, *els) {
                    let g7 = translate::jump_on(g6, z.end);
                    translation_meaning::grown_on(g, g5n, g6);
                    jump_on_grows(g6, z.end);
                    translation_meaning::grown_on(g, g6, g7);
                    translation_meaning::start_grows(g7, z.end);
                    translation_meaning::grown_on(g, g7, g7.start(z.end));
                }
            }
        }
    }
}

proof fn while_grows(g: GenV, s: StmtV)
    requires
        translation_blocks::open_at(g),
        stmt_well_named(g, s),
        s is While,
    ensures
        translate::stmt(g, s) matches Ok(h) ==> translation_meaning::grown(g, h),
        while_stages(g, s) matches Some(z) ==> translation_meaning::grown(z.g4, z.g5),
    decreases s, 0int,
{
    while_in_stages(g, s);
    if let StmtV::While { body, .. } = s {
        if let Some(z) = while_stages(g, s) {
            while_stages_are_tidy(g, s);
            while_stages_grow(g, s);
            stmt_grows(z.g4, *body);
            let g6 = translate::jump_on(z.g5, z.entry);
            reveal(translation_meaning::grown);
            translation_meaning::longer_on(g, z.g3, z.g4);
            translation_meaning::longer_on(g, z.g4, z.g5);
            translation_meaning::longer_on(g, z.g5, g6);
            translation_meaning::longer_on(g, g6, z.out);
            assert(z.g5.loops.drop_last() =~= g.loops);
        }
    }
}

pub(crate) proof fn items_grow(g: GenV, items: Seq<BlockItemV>, k: int)
    requires
        translation_blocks::tidy(g),
        g.scopes.len() > 0,
        0 <= k,
        items_well_named(g, items, k),
    ensures
        translate::block(g, items, k) matches Ok(h) ==> widened(g, h),
    decreases items, items.len() - k,
{
    if k < items.len() && !g.b.terminated {
        let r = match items[k] {
            BlockItemV::Stmt(s) => translate::stmt(g, s),
            BlockItemV::Decl(d) => translate::decl(g, d),
        };
        match items[k] {
            BlockItemV::Stmt(s) => {
                translation_blocks::stmt_tidy(g, s);
                stmt_grows(g, s);
                if let Ok(g1) = r {
                    grown_is_widened(g, g1);
                }
            },
            BlockItemV::Decl(d) => decl_grows(g, d),
        }
        if let Ok(g1) = r {
            items_grow(g1, items, k + 1);
            if let Ok(g2) = translate::block(g1, items, k + 1) {
                widened_on(g, g1, g2);
            }
        }
    } else {
        longer_same(g, g);
    }
}

// ── Values and variables ─────────────────────────────────────────────────────

/// Whether what a name stands for in a translation is what it stands for while the function runs.
pub open spec fn holds(sym: SymV, v: ThingV, vars: Map<usize, i32>) -> bool {
    match sym {
        SymV::Const(c) => v == ThingV::Value(c),
        SymV::Var(x) => match v {
            ThingV::Value(c) => vars[x] == c,
            ThingV::Unset => true,
            ThingV::Array(_) => false,
        },
        _ => v == ThingV::Array(sym),
    }
}

/// Whether variables hold the values that names have.
#[verifier::opaque]
pub open spec fn agree(
    scopes: Seq<Map<Seq<char>, SymV>>,
    env: Env,
    vars: Map<usize, i32>,
) -> bool {
    &&& env.len() == scopes.len()
    &&& forall|i: int, name: Seq<char>|
        0 <= i < scopes.len() ==> #[trigger] env[i].contains_key(name) == scopes[i].contains_key(
            name,
        )
    &&& forall|i: int, name: Seq<char>|
        0 <= i < scopes.len() && #[trigger] scopes[i].contains_key(name) ==> holds(scopes[i][name], env[i][name], vars)
}

/// Whether the variables in scope are variables of the function, each with an index of its own,
/// while global variables are not.
#[verifier::opaque]
pub open spec fn placed(own: Set<usize>, g: GenV) -> bool {
    &&& forall|i: int, name: Seq<char>|
        0 <= i < g.scopes.len() && #[trigger] g.scopes[i].contains_key(name)
            ==> (g.scopes[i][name] matches SymV::Var(x) ==> x < g.b.global_counter && own.contains(x))
    &&& forall|i: int, a: Seq<char>, j: int, b: Seq<char>|
        0 <= i < g.scopes.len() && 0 <= j < g.scopes.len() && #[trigger] g.scopes[i].contains_key(a)
            && #[trigger] g.scopes[j].contains_key(b) && g.scopes[i][a] is Var && g.scopes[i][a]
            == g.scopes[j][b] ==> i == j && a == b
    &&& forall|name: Seq<char>|
        #[trigger] g.globals.contains_key(name) ==> (g.globals[name] matches SymV::Var(x)
            ==> !own.contains(x))
}

/// What names stand for where variables hold their values.
proof fn names_agree(
    scopes: Seq<Map<Seq<char>, SymV>>,
    globals: Map<Seq<char>, SymV>,
    env: Env,
    vars: Map<usize, i32>,
    name: Seq<char>,
)
    requires
        agree(scopes, env, vars),
    ensures
        match found(env, name) {
            None => scopes::lookup_in(scopes, globals, name) == scopes::lookup_in(
                Seq::empty(),
                globals,
                name,
            ),
            Some(r) => exists|i: int|
                {
                    &&& 0 <= i < scopes.len()
                    &&& #[trigger] scopes[i].contains_key(name)
                    &&& scopes::lookup_in(scopes, globals, name) == Some(scopes[i][name])
                    &&& env[i].contains_key(name)
                    &&& env[i][name] == r
                },
        },
    decreases scopes.len(),
{
    reveal(agree);
    if scopes.len() > 0 {
        let n = scopes.len() - 1;
        assert(env[n].contains_key(name) == scopes[n].contains_key(name));
        if !scopes[n].contains_key(name) {
            agree_outside(scopes, env, vars);
            names_agree(scopes.drop_last(), globals, env.drop_last(), vars, name);
            if found(env, name) is Some {
                let i = choose|i: int|
                    {
                        &&& 0 <= i < scopes.drop_last().len()
                        &&& #[trigger] scopes.drop_last()[i].contains_key(name)
                        &&& scopes::lookup_in(scopes.drop_last(), globals, name) == Some(
                            scopes.drop_last()[i][name],
                        )
                        &&& env.drop_last()[i].contains_key(name)
                        &&& env.drop_last()[i][name] == found(env, name)->0
                    };
                assert(scopes[i].contains_key(name));
            }
        } else {
            assert(scopes[n].contains_key(name));
        }
    } else {
        assert(scopes =~= Seq::empty());
    }
}

/// Outside the innermost scope, variables hold the values of names too.
proof fn agree_outside(scopes: Seq<Map<Seq<char>, SymV>>, env: Env, vars: Map<usize, i32>)
    requires
        agree(scopes, env, vars),
        scopes.len() > 0,
    ensures
        agree(scopes.drop_last(), env.drop_last(), vars),
{
    reveal(agree);
    assert forall|i: int, name: Seq<char>|
        0 <= i < scopes.drop_last().len() implies #[trigger] env.drop_last()[i].contains_key(name)
        == scopes.drop_last()[i].contains_key(name) by {
        assert(env[i].contains_key(name) == scopes[i].contains_key(name));
    }
    assert forall|i: int, name: Seq<char>|
        0 <= i < scopes.drop_last().len() && #[trigger] scopes.drop_last()[i].contains_key(
            name,
        ) implies holds(scopes.drop_last()[i][name], env.drop_last()[i][name], vars) by {
        assert(scopes[i].contains_key(name));
    }
}

/// A new scope has no names.
proof fn agree_inside(scopes: Seq<Map<Seq<char>, SymV>>, env: Env, vars: Map<usize, i32>)
    requires
        agree(scopes, env, vars),
    ensures
        agree(scopes.push(Map::empty()), env.push(Map::empty()), vars),
{
    reveal(agree);
    let s = scopes.push(Map::empty());
    let e = env.push(Map::empty());
    assert forall|i: int, name: Seq<char>| 0 <= i < s.len() implies #[trigger] e[i].contains_key(
        name,
    ) == s[i].contains_key(name) by {
        if i < scopes.len() {
            assert(env[i].contains_key(name) == scopes[i].contains_key(name));
        }
    }
    assert forall|i: int, name: Seq<char>|
        0 <= i < s.len() && #[trigger] s[i].contains_key(name) implies holds(s[i][name], e[i][name], vars) by {
        if i < scopes.len() {
            assert(scopes[i].contains_key(name));
        }
    }
}

/// Variables of the function that keep their values go on holding the values of names.
pub(crate) proof fn agree_stays(
    own: Set<usize>,
    g: GenV,
    env: Env,
    vars: Map<usize, i32>,
    after: Map<usize, i32>,
)
    requires
        placed(own, g),
        agree(g.scopes, env, vars),
        forall|x: usize| x < g.b.global_counter ==> #[trigger] after[x] == vars[x],
    ensures
        agree(g.scopes, env, after),
{
    reveal(agree);
    reveal(placed);
}

/// After an assignment, variables hold the values of names.
proof fn agree_assigned(
    own: Set<usize>,
    g: GenV,
    env: Env,
    vars: Map<usize, i32>,
    name: Seq<char>,
    x: usize,
    v: i32,
)
    requires
        placed(own, g),
        agree(g.scopes, env, vars),
        found(env, name) is Some,
        g.lookup(name) == Some(SymV::Var(x)),
    ensures
        agree(g.scopes, assigned(env, name, v), vars.insert(x, v)),
        own.contains(x),
        x < g.b.global_counter,
{
    names_agree(g.scopes, g.globals, env, vars, name);
    reveal(placed);
    let i = choose|i: int|
        {
            &&& 0 <= i < g.scopes.len()
            &&& #[trigger] g.scopes[i].contains_key(name)
            &&& g.lookup(name) == Some(g.scopes[i][name])
            &&& env[i].contains_key(name)
            &&& env[i][name] == found(env, name)->0
        };
    agree_assigned_in(g, g.scopes, env, vars, name, x, v);
}

proof fn agree_assigned_in(
    g: GenV,
    scopes: Seq<Map<Seq<char>, SymV>>,
    env: Env,
    vars: Map<usize, i32>,
    name: Seq<char>,
    x: usize,
    v: i32,
)
    requires
        agree(scopes, env, vars),
        found(env, name) is Some,
        scopes::lookup_in(scopes, g.globals, name) == Some(SymV::Var(x)),
        forall|i: int, a: Seq<char>, j: int, b: Seq<char>|
            0 <= i < scopes.len() && 0 <= j < scopes.len() && #[trigger] scopes[i].contains_key(a)
                && #[trigger] scopes[j].contains_key(b) && scopes[i][a] is Var && scopes[i][a]
                == scopes[j][b] ==> i == j && a == b,
    ensures
        agree(scopes, assigned(env, name, v), vars.insert(x, v)),
    decreases scopes.len(),
{
    names_agree(scopes, g.globals, env, vars, name);
    let n = scopes.len() - 1;
    let e = assigned(env, name, v);
    let after = vars.insert(x, v);
    assert(scopes.len() > 0 && env.len() == scopes.len()) by {
        reveal(agree);
    }
    assert(env[n].contains_key(name) == scopes[n].contains_key(name)) by {
        reveal(agree);
    }
    if scopes[n].contains_key(name) {
        reveal(agree);
        assert(e == env.update(n, env[n].insert(name, ThingV::Value(v))));
        assert forall|i: int, a: Seq<char>|
            0 <= i < scopes.len() implies #[trigger] e[i].contains_key(a)
            == scopes[i].contains_key(a) by {
            assert(env[i].contains_key(a) == scopes[i].contains_key(a));
        }
        assert forall|i: int, a: Seq<char>|
            0 <= i < scopes.len() && #[trigger] scopes[i].contains_key(a) implies holds(scopes[i][a], e[i][a], after) by {
            if i == n && a == name {
            } else {
                assert(scopes[n].contains_key(name));
                assert(scopes[i][a] != scopes[n][name]);
            }
        }
    } else {
        let s0 = scopes.drop_last();
        let e0 = env.drop_last();
        agree_outside(scopes, env, vars);
        assert forall|i: int, a: Seq<char>, j: int, b: Seq<char>|
            0 <= i < s0.len() && 0 <= j < s0.len() && #[trigger] s0[i].contains_key(a)
                && #[trigger] s0[j].contains_key(b) && s0[i][a] is Var && s0[i][a]
                == s0[j][b] implies i == j && a == b by {
            assert(scopes[i].contains_key(a));
            assert(scopes[j].contains_key(b));
        }
        agree_assigned_in(g, s0, e0, vars, name, x, v);
        let at = choose|i: int|
            {
                &&& 0 <= i < scopes.len()
                &&& #[trigger] scopes[i].contains_key(name)
                &&& scopes::lookup_in(scopes, g.globals, name) == Some(scopes[i][name])
                &&& env[i].contains_key(name)
                &&& env[i][name] == found(env, name)->0
            };
        reveal(agree);
        let f0 = assigned(e0, name, v);
        assert(e == f0.push(env[n]));
        assert forall|i: int, a: Seq<char>|
            0 <= i < scopes.len() implies #[trigger] e[i].contains_key(a)
            == scopes[i].contains_key(a) by {
            if i < n {
                assert(f0[i].contains_key(a) == s0[i].contains_key(a));
            } else {
                assert(env[n].contains_key(a) == scopes[n].contains_key(a));
            }
        }
        assert forall|i: int, a: Seq<char>|
            0 <= i < scopes.len() && #[trigger] scopes[i].contains_key(a) implies holds(scopes[i][a], e[i][a], after) by {
            if i < n {
                assert(s0[i].contains_key(a));
            } else {
                assert(scopes[at].contains_key(name));
            }
        }
    }
}

/// After a declaration, variables hold the values of names.
pub(crate) proof fn agree_bound(
    scopes: Seq<Map<Seq<char>, SymV>>,
    env: Env,
    vars: Map<usize, i32>,
    name: Seq<char>,
    sym: SymV,
    r: ThingV,
)
    requires
        agree(scopes, env, vars),
        scopes.len() > 0,
        holds(sym, r, vars),
    ensures
        agree(
            scopes.update(scopes.len() - 1, scopes.last().insert(name, sym)),
            bound(env, name, r),
            vars,
        ),
{
    reveal(agree);
    let n = scopes.len() - 1;
    let s = scopes.update(n, scopes.last().insert(name, sym));
    let e = bound(env, name, r);
    assert forall|i: int, a: Seq<char>| 0 <= i < s.len() implies #[trigger] e[i].contains_key(a)
        == s[i].contains_key(a) by {
        assert(env[i].contains_key(a) == scopes[i].contains_key(a));
    }
    assert forall|i: int, a: Seq<char>|
        0 <= i < s.len() && #[trigger] s[i].contains_key(a) implies holds(s[i][a], e[i][a], vars) by {
        if !(i == n && a == name) {
            assert(scopes[i].contains_key(a));
        }
    }
}

/// A later state with the same names in scope has its variables in place.
pub(crate) proof fn placed_on(own: Set<usize>, g: GenV, h: GenV)
    requires
        placed(own, g),
        h.scopes == g.scopes,
        h.globals == g.globals,
        h.b.global_counter >= g.b.global_counter,
    ensures
        placed(own, h),
{
    reveal(placed);
}

/// A new scope has no variables.
proof fn placed_inside(own: Set<usize>, g: GenV)
    requires
        placed(own, g),
    ensures
        placed(own, (GenV { scopes: g.scopes.push(Map::empty()), ..g })),
{
    reveal(placed);
    let h = GenV { scopes: g.scopes.push(Map::empty()), ..g };
    assert forall|i: int, name: Seq<char>|
        0 <= i < h.scopes.len() && #[trigger] h.scopes[i].contains_key(
            name,
        ) implies i < g.scopes.len() && g.scopes[i].contains_key(name) by {}
}

/// A new variable, or a constant, is in place.
pub(crate) proof fn placed_bound(own: Set<usize>, g: GenV, h: GenV, name: Seq<char>, sym: SymV)
    requires
        placed(own, g),
        g.scopes.len() > 0,
        h.scopes == g.scopes.update(g.scopes.len() - 1, g.scopes.last().insert(name, sym)),
        h.globals == g.globals,
        h.b.global_counter >= g.b.global_counter,
        sym matches SymV::Var(x) ==> x == g.b.global_counter && x < h.b.global_counter
            && own.contains(x),
    ensures
        placed(own, h),
{
    reveal(placed);
    let n = g.scopes.len() - 1;
    assert forall|i: int, a: Seq<char>|
        0 <= i < h.scopes.len() && #[trigger] h.scopes[i].contains_key(a) implies (i == n && a
        == name) || g.scopes[i].contains_key(a) by {}
    assert forall|i: int, a: Seq<char>, j: int, b: Seq<char>|
        0 <= i < h.scopes.len() && 0 <= j < h.scopes.len() && #[trigger] h.scopes[i].contains_key(a)
            && #[trigger] h.scopes[j].contains_key(b) && h.scopes[i][a] is Var && h.scopes[i][a]
            == h.scopes[j][b] implies i == j && a == b by {
        if !(i == n && a == name) {
            assert(g.scopes[i].contains_key(a));
        }
        if !(j == n && b == name) {
            assert(g.scopes[j].contains_key(b));
        }
    }
}

/// What a name stands for where names stand for their values.
proof fn valued_lookup(
    scopes: Seq<Map<Seq<char>, SymV>>,
    globals: Map<Seq<char>, SymV>,
    env: Env,
    name: Seq<char>,
)
    requires
        scopes == env.map_values(|scope: Map<Seq<char>, ThingV>| constants(scope)),
    ensures
        match found(env, name) {
            None => scopes::lookup_in(scopes, globals, name) == scopes::lookup_in(
                Seq::empty(),
                globals,
                name,
            ),
            Some(r) => scopes::lookup_in(scopes, globals, name) == Some(symbol(r)),
        },
    decreases env.len(),
{
    if env.len() > 0 {
        let n = env.len() - 1;
        assert(scopes[n] == constants(env[n]));
        assert(scopes.drop_last() =~= env.drop_last().map_values(
            |scope: Map<Seq<char>, ThingV>| constants(scope),
        ));
        if !env.last().contains_key(name) {
            valued_lookup(scopes.drop_last(), globals, env.drop_last(), name);
        }
    } else {
        assert(scopes =~= Seq::empty());
    }
}

/// An expression has the value that it has where the variables of the function hold the values of
/// names.
proof fn worth_is_evaluated<W>(
    m: MachineV<W>,
    own: Set<usize>,
    calls: Calls<W>,
    g0: GenV,
    g: GenV,
    env: Env,
    vars: Map<usize, i32>,
    w: W,
    e: ExprV,
    n: usize,
)
    requires
        placed(own, g),
        agree(g.scopes, env, vars),
        g0.globals == g.globals,
        g0.func_rets == g.func_rets,
        has_values(env, e),
        translation_meaning::well_named(g, n, e),
    ensures
        translation_meaning::evaluated(
            m,
            Set::empty(),
            calls,
            valued(g0, env),
            Map::empty(),
            w,
            e,
        ) == translation_meaning::evaluated(m, own, calls, g, vars, w, e),
    decreases e, 1int,
{
    let gv = valued(g0, env);
    match e {
        ExprV::LVal(name) => {
            names_agree(g.scopes, g.globals, env, vars, name);
            valued_lookup(gv.scopes, g0.globals, env, name);
            reveal(placed);
            reveal(agree);
        },
        ExprV::Unary { expr, .. } => worth_is_evaluated(
            m,
            own,
            calls,
            g0,
            g,
            env,
            vars,
            w,
            *expr,
            n,
        ),
        ExprV::Binary { lhs, rhs, .. } => {
            worth_is_evaluated(m, own, calls, g0, g, env, vars, w, *lhs, n);
            let w1 = translation_meaning::evaluated(m, own, calls, g, vars, w, *lhs).0;
            worth_is_evaluated(m, own, calls, g0, g, env, vars, w1, *rhs, n);
        },
        ExprV::Call { name, args } => {
            all_worth_evaluated(m, own, calls, g0, g, env, vars, w, args, 0, n);
            assert(translate::call_ret(gv, name) == translate::call_ret(g, name));
        },
        ExprV::Index { .. } => {
            base_agrees(g0, g, env, vars, e);
            worth_is_located(m, own, calls, g0, g, env, vars, w, e, n);
        },
        _ => {},
    }
}

/// A name of an array stands for the same where names stand for their values.
proof fn base_agrees(g0: GenV, g: GenV, env: Env, vars: Map<usize, i32>, e: ExprV)
    requires
        agree(g.scopes, env, vars),
        g0.globals == g.globals,
        translation_meaning::is_array(translate::base_symbol(g, e)),
    ensures
        translate::base_symbol(valued(g0, env), e) == translate::base_symbol(g, e),
        translate::base_dims(valued(g0, env), e) == translate::base_dims(g, e),
        translate::total_dims(valued(g0, env), e) == translate::total_dims(g, e),
    decreases e,
{
    match e {
        ExprV::LVal(name) => {
            names_agree(g.scopes, g.globals, env, vars, name);
            valued_lookup(valued(g0, env).scopes, g0.globals, env, name);
            reveal(agree);
        },
        ExprV::Index { array, .. } => base_agrees(g0, g, env, vars, *array),
        _ => {},
    }
}

/// An element is where it is when the variables of the function hold the values of names.
proof fn worth_is_located<W>(
    m: MachineV<W>,
    own: Set<usize>,
    calls: Calls<W>,
    g0: GenV,
    g: GenV,
    env: Env,
    vars: Map<usize, i32>,
    w: W,
    e: ExprV,
    n: usize,
)
    requires
        placed(own, g),
        agree(g.scopes, env, vars),
        g0.globals == g.globals,
        g0.func_rets == g.func_rets,
        has_values(env, e),
        e is LVal || e is Index,
        translation_meaning::is_array(translate::base_symbol(g, e)),
        translation_meaning::well_named(g, n, e),
    ensures
        translation_meaning::located(
            m,
            Set::empty(),
            calls,
            valued(g0, env),
            Map::empty(),
            w,
            e,
        ) == translation_meaning::located(m, own, calls, g, vars, w, e),
    decreases e, 0int,
{
    base_agrees(g0, g, env, vars, e);
    match e {
        ExprV::Index { array, index } => {
            if translate::is_param(translate::base_symbol(g, e)) {
                worth_is_located(m, own, calls, g0, g, env, vars, w, *array, n);
                let w1 = translation_meaning::located(m, own, calls, g, vars, w, *array).0;
                worth_is_evaluated(m, own, calls, g0, g, env, vars, w1, *index, n);
            } else {
                worth_is_evaluated(m, own, calls, g0, g, env, vars, w, *index, n);
                let w1 = translation_meaning::evaluated(m, own, calls, g, vars, w, *index).0;
                worth_is_located(m, own, calls, g0, g, env, vars, w1, *array, n);
            }
        },
        _ => {},
    }
}

/// Indices lead to the same element when the variables of the function hold the values of names.
proof fn worth_is_target<W>(
    m: MachineV<W>,
    own: Set<usize>,
    calls: Calls<W>,
    g0: GenV,
    g: GenV,
    env: Env,
    vars: Map<usize, i32>,
    w: W,
    sym: SymV,
    p: i32,
    index: Seq<ExprV>,
    k: int,
    n: usize,
)
    requires
        placed(own, g),
        agree(g.scopes, env, vars),
        g0.globals == g.globals,
        g0.func_rets == g.func_rets,
        all_have_values(env, index, k),
        translation_meaning::all_well_named(g, n, index, k),
    ensures
        translation_meaning::target(
            m,
            Set::empty(),
            calls,
            valued(g0, env),
            Map::empty(),
            w,
            sym,
            p,
            index,
            k,
        ) == translation_meaning::target(m, own, calls, g, vars, w, sym, p, index, k),
    decreases index.len() - k,
{
    if 0 <= k < index.len() {
        worth_is_evaluated(m, own, calls, g0, g, env, vars, w, index[k], n);
        let (w1, i) = translation_meaning::evaluated(m, own, calls, g, vars, w, index[k]);
        let q = (m.element)(p, i, translation_meaning::step_size(Some(sym), k));
        worth_is_target(m, own, calls, g0, g, env, vars, w1, sym, q, index, k + 1, n);
    }
}

proof fn all_worth_evaluated<W>(
    m: MachineV<W>,
    own: Set<usize>,
    calls: Calls<W>,
    g0: GenV,
    g: GenV,
    env: Env,
    vars: Map<usize, i32>,
    w: W,
    es: Seq<ExprV>,
    k: int,
    n: usize,
)
    requires
        placed(own, g),
        agree(g.scopes, env, vars),
        g0.globals == g.globals,
        g0.func_rets == g.func_rets,
        all_have_values(env, es, k),
        translation_meaning::all_well_named(g, n, es, k),
    ensures
        translation_meaning::evaluated_all(
            m,
            Set::empty(),
            calls,
            valued(g0, env),
            Map::empty(),
            w,
            es,
            k,
        ) == translation_meaning::evaluated_all(m, own, calls, g, vars, w, es, k),
    decreases es, es.len() - k,
{
    if 0 <= k < es.len() {
        worth_is_evaluated(m, own, calls, g0, g, env, vars, w, es[k], n);
        let w1 = translation_meaning::evaluated(m, own, calls, g, vars, w, es[k]).0;
        all_worth_evaluated(m, own, calls, g0, g, env, vars, w1, es, k + 1, n);
    }
}

// ── Walks ────────────────────────────────────────────────────────────────────

/// A state of a translation with its variables in place, from which instructions can go on.
pub open spec fn stands(own: Set<usize>, k: usize, g0: GenV, g: GenV) -> bool {
    &&& translation_blocks::open_at(g)
    &&& g.scopes.len() > 0
    &&& k <= g.b.global_counter
    &&& placed(own, g)
    &&& g.globals == g0.globals
    &&& g.func_rets == g0.func_rets
}

proof fn stands_on(own: Set<usize>, k: usize, g0: GenV, g: GenV, h: GenV)
    requires
        stands(own, k, g0, g),
        translation_meaning::grown(g, h),
        translation_blocks::open_at(h),
    ensures
        stands(own, k, g0, h),
        h.scopes == g.scopes,
        h.loops == g.loops,
{
    translation_meaning::same_scopes(g, h);
    reveal(translation_meaning::grown);
    placed_on(own, g, h);
}

/// Whether a point is at a return of a value.
pub open spec fn at_return<W>(
    m: MachineV<W>,
    blocks: Seq<BlockV>,
    c: SpotV<W>,
    v: Option<i32>,
) -> bool {
    &&& 0 <= c.block < blocks.len()
    &&& 0 <= c.at < blocks[c.block].instrs.len()
    &&& blocks[c.block].instrs[c.at] matches InstV::Ret { value } && match value {
        Some(op) => v == Some(meaning::value(m, c.state, op)),
        None => v is None,
    }
}

/// Whether a point has been come to with the world as given and variables that hold values.
pub open spec fn at_with<W>(
    c: SpotV<W>,
    scopes: Seq<Map<Seq<char>, SymV>>,
    env: Env,
    w: W,
) -> bool {
    c.state.world == w && agree(scopes, env, c.state.vars)
}

/// Whether the point that has been come to is where a statement ends whose instructions stand
/// between two states of a translation.
pub open spec fn led<W>(
    m: MachineV<W>,
    blocks: Seq<BlockV>,
    g: GenV,
    h: GenV,
    c: SpotV<W>,
    f: FlowV<W>,
) -> bool {
    match f {
        FlowV::Next(env, w) => {
            &&& !h.b.terminated
            &&& c == translation_meaning::here(h, c.state)
            &&& at_with(c, h.scopes, env, w)
        },
        FlowV::Broke(env, w) => {
            &&& g.loops.len() > 0
            &&& c == translation_meaning::at_label(blocks, g.loops.last().1, c.state)
            &&& at_with(c, g.scopes, env, w)
        },
        FlowV::Continued(env, w) => {
            &&& g.loops.len() > 0
            &&& c == translation_meaning::at_label(blocks, g.loops.last().0, c.state)
            &&& at_with(c, g.scopes, env, w)
        },
        FlowV::Returned(w, v) => c.state.world == w && at_return(m, blocks, c, v),
        FlowV::Undefined => true,
        FlowV::Running => true,
    }
}

/// Whether the point that has been come to is where the items of a block end whose instructions
/// stand between two states of a translation. Where they end early, their scope is left.
pub open spec fn all_led<W>(
    m: MachineV<W>,
    blocks: Seq<BlockV>,
    g: GenV,
    h: GenV,
    c: SpotV<W>,
    f: FlowV<W>,
) -> bool {
    match f {
        FlowV::Next(env, w) => {
            &&& !h.b.terminated
            &&& c == translation_meaning::here(h, c.state)
            &&& at_with(c, h.scopes, env, w)
        },
        FlowV::Broke(env, w) => {
            &&& g.loops.len() > 0
            &&& c == translation_meaning::at_label(blocks, g.loops.last().1, c.state)
            &&& at_with(c, g.scopes.drop_last(), env.drop_last(), w)
        },
        FlowV::Continued(env, w) => {
            &&& g.loops.len() > 0
            &&& c == translation_meaning::at_label(blocks, g.loops.last().0, c.state)
            &&& at_with(c, g.scopes.drop_last(), env.drop_last(), w)
        },
        FlowV::Returned(w, v) => c.state.world == w && at_return(m, blocks, c, v),
        FlowV::Undefined => true,
        FlowV::Running => true,
    }
}

/// An expression of a statement is computed. Its names stand for what they do in `g`, and its
/// instructions stand from `a` on.
proof fn value_walks<W>(
    m: MachineV<W>,
    own: Set<usize>,
    calls: Calls<W>,
    blocks: Seq<BlockV>,
    names: Seq<Seq<char>>,
    k: usize,
    g0: GenV,
    g: GenV,
    a: GenV,
    env: Env,
    st: StateV<W>,
    e: ExprV,
) -> (n: nat)
    requires
        translation_meaning::ready(m, own, calls, blocks, names, k),
        stands(own, k, g0, g),
        agree(g.scopes, env, st.vars),
        translation_meaning::alongside(g, g.b.global_counter, a),
        well_named_at(g, e),
        translate::expr(a, e) matches Ok((h, _)) && translation_meaning::continues(
            blocks,
            names,
            h,
        ),
    ensures
        worth(m, calls, g0, env, st.world, e) matches Some(r) ==> {
            let (h, v) = translate::expr(a, e)->Ok_0;
            let c = translation_meaning::walked(
                m,
                own,
                blocks,
                translation_meaning::here(a, st),
                n,
            );
            &&& c == translation_meaning::here(h, c.state)
            &&& at_with(c, g.scopes, env, r.0)
            &&& meaning::value(m, c.state, v) == r.1
            &&& translation_meaning::operand_below(v, h.b.local_counter)
            &&& translation_blocks::open_at(h)
        },
{
    let x = g.b.global_counter;
    translation_blocks::expr_tidy(a, e);
    let n = translation_meaning::expr_walks(
        m,
        own,
        calls,
        blocks,
        names,
        x,
        g,
        st.vars,
        a,
        st,
        e,
    );
    if has_values(env, e) {
        let t = translation_meaning::walked(
            m,
            own,
            blocks,
            translation_meaning::here(a, st),
            n,
        ).state;
        worth_is_evaluated(m, own, calls, g0, g, env, st.vars, st.world, e, x);
        agree_stays(own, g, env, st.vars, t.vars);
    }
    n
}

/// A state is alongside itself.
proof fn alongside_itself(g: GenV)
    requires
        translation_blocks::open_at(g),
    ensures
        translation_meaning::alongside(g, g.b.global_counter, g),
{
    reveal(translation_meaning::same_names);
}

/// The point after a jump from a state to the block that another state starts.
proof fn jump_walks<W>(
    m: MachineV<W>,
    own: Set<usize>,
    blocks: Seq<BlockV>,
    names: Seq<Seq<char>>,
    g: GenV,
    h: GenV,
    target: usize,
    st: StateV<W>,
)
    requires
        translation_blocks::open_at(g),
        translation_meaning::continues(blocks, names, g.emit((InstV::Jump { target }))),
        translation_meaning::continues(blocks, names, h),
        translation_meaning::labels_differ(blocks),
        blocks.len() <= usize::MAX,
        h.b.blocks.last().label == target,
        h.b.blocks.last().instrs.len() == 0,
    ensures
        translation_meaning::walked(m, own, blocks, translation_meaning::here(g, st), 1)
            == translation_meaning::here(h, st),
{
    let i = InstV::Jump { target };
    translation_meaning::emit_grows(g, i);
    translation_meaning::branch_walked(m, own, blocks, names, g, g.emit(i), i, st);
    translation_meaning::label_is_here(blocks, names, h, target, st);
}

/// An instruction that has been emitted stands at the point before it.
pub(crate) proof fn stands_next(
    blocks: Seq<BlockV>,
    names: Seq<Seq<char>>,
    g: GenV,
    h: GenV,
    i: InstV,
)
    requires
        translation_meaning::continues(blocks, names, h),
        h.b.blocks.len() == g.b.blocks.len(),
        h.b.blocks.last().instrs == g.b.blocks.last().instrs.push(i),
    ensures
        ({
            let n = g.b.blocks.len() - 1;
            let at = g.b.blocks.last().instrs.len() as int;
            &&& 0 <= n < blocks.len()
            &&& 0 <= at < blocks[n].instrs.len()
            &&& blocks[n].instrs[at] == i
        }),
{
    let n = g.b.blocks.len() - 1;
    let at = g.b.blocks.last().instrs.len() as int;
    assert(h.b.blocks[n].instrs[at] == i);
    assert(blocks[n].instrs[at] == i);
}

/// The instructions of an initializer store its items.
proof fn init_walks<W>(
    m: MachineV<W>,
    own: Set<usize>,
    calls: Calls<W>,
    blocks: Seq<BlockV>,
    names: Seq<Seq<char>>,
    k: usize,
    g0: GenV,
    g: GenV,
    a: GenV,
    env: Env,
    st: StateV<W>,
    base: usize,
    dims: Seq<i32>,
    flat: Seq<ExprV>,
    items: Seq<ExprV>,
    i: int,
) -> (n: nat)
    requires
        translation_meaning::ready(m, own, calls, blocks, names, k),
        stands(own, k, g0, g),
        agree(g.scopes, env, st.vars),
        translation_meaning::alongside(g, g.b.global_counter, a),
        dims.len() > 0,
        0 <= i <= items.len() <= flat.len(),
        forall|j: int| 0 <= j < items.len() ==> #[trigger] items[j] == flat[j],
        forall|j: int| 0 <= j < items.len() ==> well_named_at(g, #[trigger] items[j]),
        translate::init_stores(a, base, dims, flat, i, items.len() as int) matches Ok(h)
            && translation_meaning::continues(blocks, names, h),
    ensures
        filled(m, calls, g0, env, st.world, (m.address)(base), items, i) matches Some(w) ==> {
            let h = translate::init_stores(a, base, dims, flat, i, items.len() as int)->Ok_0;
            let c = translation_meaning::walked(
                m,
                own,
                blocks,
                translation_meaning::here(a, st),
                n,
            );
            &&& c == translation_meaning::here(h, c.state)
            &&& at_with(c, g.scopes, env, w)
        },
    decreases items.len() - i,
{
    if i < items.len() && has_values(env, items[i]) {
        let x = g.b.global_counter;
        let total = items.len() as int;
        let at = (i as usize) as i32;
        let start = translation_meaning::here(a, st);
        assert(items[i] == flat[i]);
        let h = translate::init_stores(a, base, dims, flat, i, total)->Ok_0;
        let (g1, v) = translate::expr(a, items[i])->Ok_0;
        let (g2, p) = translate::elem_ptr(g1, base, dims, at)->Ok_0;
        let s = InstV::Store { value: v, ptr: p };
        let g3 = g2.emit(s);
        translation_blocks::expr_tidy(a, items[i]);
        translation_meaning::expr_grows(a, items[i]);
        translation_meaning::alongside_on(g, x, a, g1);
        translation_meaning::elem_ptr_grows(g1, base, dims, at);
        translation_meaning::alongside_on(g, x, g1, g2);
        translation_meaning::emit_grows(g2, s);
        translation_blocks::emit_tidy(g2, s);
        translation_meaning::alongside_on(g, x, g2, g3);
        init_stores_grow(g3, base, dims, flat, i + 1, total);
        translation_meaning::continues_before(blocks, names, g3, h);
        translation_meaning::continues_before(blocks, names, g2, g3);
        translation_meaning::continues_before(blocks, names, g1, g2);
        let n1 = value_walks(m, own, calls, blocks, names, k, g0, g, a, env, st, items[i]);
        let r = worth(m, calls, g0, env, st.world, items[i])->0;
        let t1 = translation_meaning::walked(m, own, blocks, start, n1).state;
        let n2 = translation_meaning::elem_ptr_walks(
            m,
            own,
            blocks,
            names,
            x,
            g1,
            t1,
            base,
            dims,
            at,
        );
        translation_meaning::walked_on(m, own, blocks, start, n1, n2);
        let t2 = translation_meaning::walked(m, own, blocks, start, n1 + n2).state;
        assert(meaning::value(m, t2, v) == r.1) by {
            if let IrOperand::Local(l) = v {
                assert(t2.locals[l] == t1.locals[l]);
            }
        }
        translation_meaning::one_walked(m, own, blocks, names, g2, g3, s, t2);
        translation_meaning::walked_on(m, own, blocks, start, n1 + n2, 1);
        let t3 = translation_meaning::walked(m, own, blocks, start, n1 + n2 + 1).state;
        assert(t3.world == (m.store)(
            r.0,
            (m.element)((m.address)(base), at, 4),
            r.1,
        ));
        agree_stays(own, g, env, t1.vars, t2.vars);
        let n3 = init_walks(
            m,
            own,
            calls,
            blocks,
            names,
            k,
            g0,
            g,
            g3,
            env,
            t3,
            base,
            dims,
            flat,
            items,
            i + 1,
        );
        translation_meaning::walked_on(m, own, blocks, start, n1 + n2 + 1, n3);
        n1 + n2 + 1 + n3
    } else {
        0
    }
}

/// The instructions of the definition of an array do what it says.
proof fn array_def_walks<W>(
    m: MachineV<W>,
    own: Set<usize>,
    calls: Calls<W>,
    blocks: Seq<BlockV>,
    names: Seq<Seq<char>>,
    k: usize,
    g0: GenV,
    g: GenV,
    env: Env,
    st: StateV<W>,
    name: Seq<char>,
    dims: Seq<ExprV>,
    init: Option<ExprV>,
) -> (n: nat)
    requires
        translation_meaning::ready(m, own, calls, blocks, names, k),
        stands(own, k, g0, g),
        agree(g.scopes, env, st.vars),
        dims.len() > 0,
        array_well_named(g, name, dims, init),
        array_made(g, name, dims) matches Some((made, x, sizes)) && (array_done(
            made,
            x,
            sizes,
            init,
        ) matches Ok(h) && translation_meaning::continues(blocks, names, h)),
    ensures
        match array_defined(m, calls, g0, g, env, st.world, name, dims, init) {
            FlowV::Next(env1, w1) => {
                let (made, x, sizes) = array_made(g, name, dims)->0;
                let h = array_done(made, x, sizes, init)->Ok_0;
                let c = translation_meaning::walked(
                    m,
                    own,
                    blocks,
                    translation_meaning::here(g, st),
                    n,
                );
                &&& stands(own, k, g0, h)
                &&& c == translation_meaning::here(h, c.state)
                &&& at_with(c, h.scopes, env1, w1)
            },
            f => f is Undefined,
        },
{
    let (made, x, sizes) = array_made(g, name, dims)->0;
    let h = array_done(made, x, sizes, init)->Ok_0;
    let sym = SymV::Array(x, sizes);
    let env1 = bound(env, name, ThingV::Array(sym));
    array_made_grows(g, name, dims);
    array_done_grows(made, x, sizes, init);
    placed_bound(own, g, made, name, sym);
    assert(stands(own, k, g0, made));
    stands_on(own, k, g0, made, h);
    agree_bound(g.scopes, env, st.vars, name, sym, ThingV::Array(sym));
    assert(translation_meaning::here(made, st) == translation_meaning::here(g, st));
    match init {
        None => 0,
        Some(e) => {
            let flat = translate::local_flat(sizes, e, Seq::empty())->Ok_0;
            let total = translate::total(sizes)->0;
            let all = translate::fill(flat, total as int);
            let items = items_of(sizes, e)->0;
            assert(items == all.take(total as int));
            alongside_itself(made);
            init_walks(
                m,
                own,
                calls,
                blocks,
                names,
                k,
                g0,
                made,
                made,
                env1,
                st,
                x,
                sizes,
                all,
                items,
                0,
            )
        },
    }
}

/// The instructions of constant definitions do what they say.
proof fn const_defs_walk<W>(
    m: MachineV<W>,
    own: Set<usize>,
    calls: Calls<W>,
    blocks: Seq<BlockV>,
    names: Seq<Seq<char>>,
    k: usize,
    g0: GenV,
    g: GenV,
    env: Env,
    st: StateV<W>,
    defs: Seq<ConstDefV>,
    i: int,
) -> (n: nat)
    requires
        translation_meaning::ready(m, own, calls, blocks, names, k),
        stands(own, k, g0, g),
        agree(g.scopes, env, st.vars),
        0 <= i,
        const_defs_well_named(g, defs, i),
        translate::const_defs(g, defs, i) matches Ok(h) && translation_meaning::continues(
            blocks,
            names,
            h,
        ),
    ensures
        match constants_defined(m, calls, g0, g, env, st.world, defs, i) {
            FlowV::Next(env1, w1) => {
                let h = translate::const_defs(g, defs, i)->Ok_0;
                let c = translation_meaning::walked(
                    m,
                    own,
                    blocks,
                    translation_meaning::here(g, st),
                    n,
                );
                &&& stands(own, k, g0, h)
                &&& c == translation_meaning::here(h, c.state)
                &&& at_with(c, h.scopes, env1, w1)
            },
            f => f is Undefined,
        },
    decreases defs.len() - i,
{
    if i < defs.len() {
        let d = defs[i];
        let h = translate::const_defs(g, defs, i)->Ok_0;
        let g1 = translate::const_def(g, d)->Ok_0;
        let start = translation_meaning::here(g, st);
        const_def_grows(g, d);
        const_defs_grow(g1, defs, i + 1);
        translation_meaning::continues_from(blocks, names, g1, h);
        let n1 = if d.dims.len() > 0 {
            array_def_walks(
                m,
                own,
                calls,
                blocks,
                names,
                k,
                g0,
                g,
                env,
                st,
                d.name,
                d.dims,
                Some(d.init),
            )
        } else {
            let v = translate::const_value(g, d.init)->Ok_0;
            placed_bound(own, g, g1, d.name, SymV::Const(v));
            if has_values(env, d.init) {
                worth_is_evaluated(
                    m,
                    own,
                    calls,
                    g0,
                    g,
                    env,
                    st.vars,
                    st.world,
                    d.init,
                    g.b.global_counter,
                );
                translation_meaning::constants_agree(m, own, calls, g, st.vars, st.world, d.init);
                agree_bound(g.scopes, env, st.vars, d.name, SymV::Const(v), ThingV::Value(v));
                assert(translation_meaning::here(g1, st) == start);
            }
            0
        };
        let c = translation_meaning::walked(m, own, blocks, start, n1);
        match constant_defined(m, calls, g0, g, env, st.world, d) {
            FlowV::Next(env1, w1) => {
                let n2 = const_defs_walk(
                    m,
                    own,
                    calls,
                    blocks,
                    names,
                    k,
                    g0,
                    g1,
                    env1,
                    c.state,
                    defs,
                    i + 1,
                );
                translation_meaning::walked_on(m, own, blocks, start, n1, n2);
                n1 + n2
            },
            _ => 0,
        }
    } else {
        0
    }
}

/// After a variable definition, variables are in place.
proof fn var_def_stands(own: Set<usize>, k: usize, g0: GenV, g: GenV, d: VarDefV)
    requires
        forall|x: usize| x >= k ==> #[trigger] own.contains(x),
        stands(own, k, g0, g),
        d.dims.len() == 0,
        name_is_new(g, d.name),
        d.init matches Some(init) ==> well_named_at(g, init),
        translate::var_def(g, d) is Ok,
    ensures
        stands(own, k, g0, translate::var_def(g, d)->Ok_0),
        translate::var_def(g, d)->Ok_0.scopes == g.scopes.update(
            g.scopes.len() - 1,
            g.scopes.last().insert(d.name, SymV::Var(g.b.global_counter)),
        ),
{
    let h = translate::var_def(g, d)->Ok_0;
    let g3 = var_made(g, d.name);
    let x = g.b.global_counter;
    var_def_grows(g, d);
    var_made_grows(g, d);
    assert(own.contains(x));
    reveal(translation_meaning::grown);
    reveal(translation_meaning::longer);
    if let Some(init) = d.init {
        translation_meaning::expr_grows(g3, init);
    }
    placed_bound(own, g, h, d.name, SymV::Var(x));
}

/// The instructions of the definition of an integer do what it says.
proof fn integer_def_walks<W>(
    m: MachineV<W>,
    own: Set<usize>,
    calls: Calls<W>,
    blocks: Seq<BlockV>,
    names: Seq<Seq<char>>,
    k: usize,
    g0: GenV,
    g: GenV,
    env: Env,
    st: StateV<W>,
    d: VarDefV,
) -> (n: nat)
    requires
        translation_meaning::ready(m, own, calls, blocks, names, k),
        stands(own, k, g0, g),
        agree(g.scopes, env, st.vars),
        d.dims.len() == 0,
        name_is_new(g, d.name),
        d.init matches Some(init) ==> well_named_at(g, init),
        translate::var_def(g, d) matches Ok(h) && translation_meaning::continues(blocks, names, h),
    ensures
        match variable_defined(m, calls, g0, g, env, st.world, d) {
            FlowV::Next(env1, w1) => {
                let h = translate::var_def(g, d)->Ok_0;
                let c = translation_meaning::walked(
                    m,
                    own,
                    blocks,
                    translation_meaning::here(g, st),
                    n,
                );
                &&& stands(own, k, g0, h)
                &&& c == translation_meaning::here(h, c.state)
                &&& at_with(c, h.scopes, env1, w1)
            },
            f => f is Undefined,
        },
{
    let g1 = translate::var_def(g, d)->Ok_0;
    let g3 = var_made(g, d.name);
    let x = g.b.global_counter;
    let start = translation_meaning::here(g, st);
    var_made_grows(g, d);
    var_def_stands(own, k, g0, g, d);
    assert(translation_meaning::here(g3, st) == start);
    match d.init {
        None => {
            agree_bound(g.scopes, env, st.vars, d.name, SymV::Var(x), ThingV::Unset);
            0
        },
        Some(init) => if has_values(env, init) {
            let (g4, v) = translate::expr(g3, init)->Ok_0;
            let s = InstV::Store { value: v, ptr: IrOperand::Global(x) };
            translation_blocks::expr_tidy(g3, init);
            translation_meaning::emit_grows(g4, s);
            translation_blocks::emit_tidy(g4, s);
            assert(translation_meaning::continues(blocks, names, g4.emit(s)));
            translation_meaning::continues_before(blocks, names, g4, g4.emit(s));
            alongside_itself(g);
            translation_meaning::alongside_on(g, x, g, g3);
            let n1 = value_walks(m, own, calls, blocks, names, k, g0, g, g3, env, st, init);
            let r = worth(m, calls, g0, env, st.world, init)->0;
            let t = translation_meaning::walked(m, own, blocks, start, n1).state;
            translation_meaning::one_walked(m, own, blocks, names, g4, g4.emit(s), s, t);
            translation_meaning::walked_on(m, own, blocks, start, n1, 1);
            let u = translation_meaning::walked(m, own, blocks, start, n1 + 1).state;
            assert(own.contains(x));
            assert(u.vars == t.vars.insert(x, r.1));
            agree_stays(own, g, env, t.vars, u.vars);
            agree_bound(g.scopes, env, u.vars, d.name, SymV::Var(x), ThingV::Value(r.1));
            n1 + 1
        } else {
            0
        },
    }
}

/// The instructions of variable definitions do what they say.
proof fn var_defs_walk<W>(
    m: MachineV<W>,
    own: Set<usize>,
    calls: Calls<W>,
    blocks: Seq<BlockV>,
    names: Seq<Seq<char>>,
    k: usize,
    g0: GenV,
    g: GenV,
    env: Env,
    st: StateV<W>,
    defs: Seq<VarDefV>,
    i: int,
) -> (n: nat)
    requires
        translation_meaning::ready(m, own, calls, blocks, names, k),
        stands(own, k, g0, g),
        agree(g.scopes, env, st.vars),
        0 <= i,
        var_defs_well_named(g, defs, i),
        translate::var_defs(g, defs, i) matches Ok(h) && translation_meaning::continues(
            blocks,
            names,
            h,
        ),
    ensures
        match variables_defined(m, calls, g0, g, env, st.world, defs, i) {
            FlowV::Next(env1, w1) => {
                let h = translate::var_defs(g, defs, i)->Ok_0;
                let c = translation_meaning::walked(
                    m,
                    own,
                    blocks,
                    translation_meaning::here(g, st),
                    n,
                );
                &&& stands(own, k, g0, h)
                &&& c == translation_meaning::here(h, c.state)
                &&& at_with(c, h.scopes, env1, w1)
            },
            f => f is Undefined,
        },
    decreases defs.len() - i,
{
    if i < defs.len() {
        let d = defs[i];
        let h = translate::var_defs(g, defs, i)->Ok_0;
        let g1 = translate::var_def(g, d)->Ok_0;
        let start = translation_meaning::here(g, st);
        var_def_grows(g, d);
        var_defs_grow(g1, defs, i + 1);
        translation_meaning::continues_from(blocks, names, g1, h);
        let n1 = if d.dims.len() > 0 {
            array_def_walks(
                m,
                own,
                calls,
                blocks,
                names,
                k,
                g0,
                g,
                env,
                st,
                d.name,
                d.dims,
                d.init,
            )
        } else {
            integer_def_walks(m, own, calls, blocks, names, k, g0, g, env, st, d)
        };
        let c = translation_meaning::walked(m, own, blocks, start, n1);
        match variable_defined(m, calls, g0, g, env, st.world, d) {
            FlowV::Next(env1, w1) => {
                let n2 = var_defs_walk(
                    m,
                    own,
                    calls,
                    blocks,
                    names,
                    k,
                    g0,
                    g1,
                    env1,
                    c.state,
                    defs,
                    i + 1,
                );
                translation_meaning::walked_on(m, own, blocks, start, n1, n2);
                n1 + n2
            },
            _ => 0,
        }
    } else {
        0
    }
}

/// The instructions of a statement do what the statement says.
proof fn stmt_walks<W>(
    m: MachineV<W>,
    own: Set<usize>,
    calls: Calls<W>,
    blocks: Seq<BlockV>,
    names: Seq<Seq<char>>,
    k: usize,
    g0: GenV,
    g: GenV,
    env: Env,
    st: StateV<W>,
    s: StmtV,
    fuel: nat,
) -> (n: nat)
    requires
        translation_meaning::ready(m, own, calls, blocks, names, k),
        stands(own, k, g0, g),
        agree(g.scopes, env, st.vars),
        stmt_well_named(g, s),
        translate::stmt(g, s) matches Ok(h) && translation_meaning::continues(blocks, names, h),
    ensures
        led(
            m,
            blocks,
            g,
            translate::stmt(g, s)->Ok_0,
            translation_meaning::walked(m, own, blocks, translation_meaning::here(g, st), n),
            carried_out(m, calls, g0, g, env, st.world, s, fuel),
        ),
    decreases fuel, s, 3int,
{
    let h = translate::stmt(g, s)->Ok_0;
    alongside_itself(g);
    match s {
        StmtV::Return(None) => {
            let i = InstV::Ret { value: None };
            translation_meaning::emit_grows(g, i);
            stands_next(blocks, names, g, h, i);
            0
        },
        StmtV::Return(Some(e)) => {
            let (g1, v) = translate::expr(g, e)->Ok_0;
            let i = InstV::Ret { value: Some(v) };
            translation_blocks::expr_tidy(g, e);
            translation_meaning::emit_grows(g1, i);
            translation_meaning::continues_before(blocks, names, g1, h);
            stands_next(blocks, names, g1, h, i);
            value_walks(m, own, calls, blocks, names, k, g0, g, g, env, st, e)
        },
        StmtV::Assign { index, .. } => if index.len() > 0 {
            element_walks(m, own, calls, blocks, names, k, g0, g, env, st, s, fuel)
        } else {
            assign_walks(m, own, calls, blocks, names, k, g0, g, env, st, s, fuel)
        },
        StmtV::Expr(e) => {
            translation_blocks::expr_tidy(g, e);
            translation_meaning::expr_grows(g, e);
            grown_is_widened(g, h);
            value_walks(m, own, calls, blocks, names, k, g0, g, g, env, st, e)
        },
        StmtV::Block(items) => {
            let inner = GenV { scopes: g.scopes.push(Map::empty()), ..g };
            let g1 = translate::block(inner, items, 0)->Ok_0;
            let inside = env.push(Map::empty());
            translation_blocks::same_blocks(g, inner);
            placed_inside(own, g);
            agree_inside(g.scopes, env, st.vars);
            assert(translation_meaning::here(inner, st) == translation_meaning::here(g, st));
            let n = items_walk(
                m,
                own,
                calls,
                blocks,
                names,
                k,
                g0,
                inner,
                inside,
                st,
                items,
                0,
                fuel,
            );
            let c = translation_meaning::walked(
                m,
                own,
                blocks,
                translation_meaning::here(g, st),
                n,
            );
            assert(inner.scopes.drop_last() =~= g.scopes);
            items_grow(inner, items, 0);
            if let FlowV::Next(env1, w1) = all_carried_out(
                m,
                calls,
                g0,
                inner,
                inside,
                st.world,
                items,
                0,
                fuel,
            ) {
                agree_outside(g1.scopes, env1, c.state.vars);
                assert(c == translation_meaning::here(h, c.state));
            }
            n
        },
        StmtV::If { .. } => if_walks(
            m,
            own,
            calls,
            blocks,
            names,
            k,
            g0,
            g,
            env,
            st,
            s,
            fuel,
        ),
        StmtV::While { .. } => while_walks(
            m,
            own,
            calls,
            blocks,
            names,
            k,
            g0,
            g,
            env,
            st,
            s,
            fuel,
        ),
        StmtV::Break => {
            let i = InstV::Jump { target: g.loops.last().1 };
            translation_meaning::emit_grows(g, i);
            translation_meaning::branch_walked(m, own, blocks, names, g, h, i, st);
            assert(translation_meaning::walked(m, own, blocks, translation_meaning::here(g, st), 1)
                == translation_meaning::at_label(blocks, g.loops.last().1, st));
            1
        },
        StmtV::Continue => {
            let i = InstV::Jump { target: g.loops.last().0 };
            translation_meaning::emit_grows(g, i);
            translation_meaning::branch_walked(m, own, blocks, names, g, h, i, st);
            assert(translation_meaning::walked(m, own, blocks, translation_meaning::here(g, st), 1)
                == translation_meaning::at_label(blocks, g.loops.last().0, st));
            1
        },
        StmtV::Empty => 0,
        StmtV::Asm(code) => {
            let i = InstV::Asm { dest: None, code };
            translation_meaning::emit_grows(g, i);
            translation_blocks::emit_tidy(g, i);
            translation_meaning::one_walked(m, own, blocks, names, g, h, i, st);
            1
        },
    }
}

/// The instructions of an assignment do what it says.
proof fn assign_walks<W>(
    m: MachineV<W>,
    own: Set<usize>,
    calls: Calls<W>,
    blocks: Seq<BlockV>,
    names: Seq<Seq<char>>,
    k: usize,
    g0: GenV,
    g: GenV,
    env: Env,
    st: StateV<W>,
    s: StmtV,
    fuel: nat,
) -> (n: nat)
    requires
        translation_meaning::ready(m, own, calls, blocks, names, k),
        stands(own, k, g0, g),
        agree(g.scopes, env, st.vars),
        s is Assign,
        s->Assign_index.len() == 0,
        stmt_well_named(g, s),
        translate::stmt(g, s) matches Ok(h) && translation_meaning::continues(blocks, names, h),
    ensures
        led(
            m,
            blocks,
            g,
            translate::stmt(g, s)->Ok_0,
            translation_meaning::walked(m, own, blocks, translation_meaning::here(g, st), n),
            carried_out(m, calls, g0, g, env, st.world, s, fuel),
        ),
{
    let h = translate::stmt(g, s)->Ok_0;
    let name = s->Assign_name;
    let expr = s->Assign_expr;
    let (g1, v) = translate::expr(g, expr)->Ok_0;
    let x = g.lookup(name)->0->Var_0;
    let i = InstV::Store { value: v, ptr: IrOperand::Global(x) };
    alongside_itself(g);
    translation_blocks::expr_tidy(g, expr);
    translation_meaning::expr_grows(g, expr);
    translation_meaning::emit_grows(g1, i);
    translation_blocks::emit_tidy(g1, i);
    translation_meaning::continues_before(blocks, names, g1, h);
    grown_is_widened(g, g1);
    if has_values(env, expr) {
        let n = value_walks(m, own, calls, blocks, names, k, g0, g, g, env, st, expr);
        let start = translation_meaning::here(g, st);
        let r = worth(m, calls, g0, env, st.world, expr)->0;
        let t = translation_meaning::walked(m, own, blocks, start, n).state;
        translation_meaning::one_walked(m, own, blocks, names, g1, h, i, t);
        translation_meaning::walked_on(m, own, blocks, start, n, 1);
        names_agree(g.scopes, g.globals, env, t.vars, name);
        if found(env, name) is Some {
            agree_assigned(own, g, env, t.vars, name, x, r.1);
        } else {
            reveal(placed);
            assert(g.globals.contains_key(name));
        }
        n + 1
    } else {
        0
    }
}

/// The instructions of an assignment to an element do what it says.
proof fn element_walks<W>(
    m: MachineV<W>,
    own: Set<usize>,
    calls: Calls<W>,
    blocks: Seq<BlockV>,
    names: Seq<Seq<char>>,
    k: usize,
    g0: GenV,
    g: GenV,
    env: Env,
    st: StateV<W>,
    s: StmtV,
    fuel: nat,
) -> (n: nat)
    requires
        translation_meaning::ready(m, own, calls, blocks, names, k),
        stands(own, k, g0, g),
        agree(g.scopes, env, st.vars),
        s is Assign,
        s->Assign_index.len() > 0,
        stmt_well_named(g, s),
        translate::stmt(g, s) matches Ok(h) && translation_meaning::continues(blocks, names, h),
    ensures
        led(
            m,
            blocks,
            g,
            translate::stmt(g, s)->Ok_0,
            translation_meaning::walked(m, own, blocks, translation_meaning::here(g, st), n),
            carried_out(m, calls, g0, g, env, st.world, s, fuel),
        ),
{
    let h = translate::stmt(g, s)->Ok_0;
    let name = s->Assign_name;
    let index = s->Assign_index;
    let expr = s->Assign_expr;
    let x = g.b.global_counter;
    let sym = g.lookup(name)->0;
    assert(translate::array_assign(g, name, index, expr) == Ok::<GenV, ErrorView>(h));
    let (g1, v) = translate::expr(g, expr)->Ok_0;
    let (g2, p) = translation_meaning::element_target(g1, sym, index)->Ok_0;
    let i = InstV::Store { value: v, ptr: p };
    assert(h == g2.emit(i));
    alongside_itself(g);
    translation_blocks::expr_tidy(g, expr);
    translation_meaning::expr_grows(g, expr);
    translation_meaning::alongside_on(g, x, g, g1);
    translation_meaning::element_target_grows(g1, sym, index);
    translation_meaning::emit_grows(g2, i);
    translation_blocks::emit_tidy(g2, i);
    translation_meaning::continues_before(blocks, names, g2, h);
    translation_meaning::continues_before(blocks, names, g1, g2);
    translation_meaning::grown_on(g, g1, g2);
    grown_is_widened(g, g2);
    // The name stands for the same array.
    names_agree(g.scopes, g.globals, env, st.vars, name);
    valued_lookup(valued(g0, env).scopes, g0.globals, env, name);
    assert(valued(g0, env).lookup(name) == Some(sym)) by {
        reveal(agree);
    }
    if has_values(env, expr) && all_have_values(env, index, 0) {
        let start = translation_meaning::here(g, st);
        let n1 = value_walks(m, own, calls, blocks, names, k, g0, g, g, env, st, expr);
        let r = worth(m, calls, g0, env, st.world, expr)->0;
        let t1 = translation_meaning::walked(m, own, blocks, start, n1).state;
        let from = (m.address)(translation_meaning::array_index(sym));
        worth_is_target(m, own, calls, g0, g, env, t1.vars, r.0, sym, from, index, 0, x);
        let n2 = translation_meaning::element_target_walks(
            m,
            own,
            calls,
            blocks,
            names,
            x,
            g,
            t1.vars,
            g1,
            t1,
            sym,
            index,
        );
        translation_meaning::walked_on(m, own, blocks, start, n1, n2);
        let t2 = translation_meaning::walked(m, own, blocks, start, n1 + n2).state;
        assert(meaning::value(m, t2, v) == r.1) by {
            if let IrOperand::Local(l) = v {
                assert(t2.locals[l] == t1.locals[l]);
            }
        }
        translation_meaning::one_walked(m, own, blocks, names, g2, h, i, t2);
        translation_meaning::walked_on(m, own, blocks, start, n1 + n2, 1);
        agree_stays(own, g, env, t1.vars, t2.vars);
        n1 + n2 + 1
    } else {
        0
    }
}

/// The instructions of the items of a block do what the items say.
pub(crate) proof fn items_walk<W>(
    m: MachineV<W>,
    own: Set<usize>,
    calls: Calls<W>,
    blocks: Seq<BlockV>,
    names: Seq<Seq<char>>,
    k: usize,
    g0: GenV,
    g: GenV,
    env: Env,
    st: StateV<W>,
    items: Seq<BlockItemV>,
    i: int,
    fuel: nat,
) -> (n: nat)
    requires
        translation_meaning::ready(m, own, calls, blocks, names, k),
        stands(own, k, g0, g),
        agree(g.scopes, env, st.vars),
        0 <= i,
        items_well_named(g, items, i),
        translate::block(g, items, i) matches Ok(h) && translation_meaning::continues(
            blocks,
            names,
            h,
        ),
    ensures
        all_led(
            m,
            blocks,
            g,
            translate::block(g, items, i)->Ok_0,
            translation_meaning::walked(m, own, blocks, translation_meaning::here(g, st), n),
            all_carried_out(m, calls, g0, g, env, st.world, items, i, fuel),
        ),
    decreases fuel, items, items.len() - i,
{
    let h = translate::block(g, items, i)->Ok_0;
    let start = translation_meaning::here(g, st);
    if i < items.len() {
        let (g1, f) = match items[i] {
            BlockItemV::Stmt(s) => (
                translate::stmt(g, s)->Ok_0,
                carried_out(m, calls, g0, g, env, st.world, s, fuel),
            ),
            BlockItemV::Decl(d) => (
                translate::decl(g, d)->Ok_0,
                declared(m, calls, g0, g, env, st.world, d),
            ),
        };
        match items[i] {
            BlockItemV::Stmt(s) => {
                translation_blocks::stmt_tidy(g, s);
                stmt_grows(g, s);
                grown_is_widened(g, g1);
            },
            BlockItemV::Decl(d) => decl_grows(g, d),
        }
        items_grow(g1, items, i + 1);
        translation_meaning::continues_from(blocks, names, g1, h);
        let n1 = match items[i] {
            BlockItemV::Stmt(s) => {
                let n1 = stmt_walks(
                    m,
                    own,
                    calls,
                    blocks,
                    names,
                    k,
                    g0,
                    g,
                    env,
                    st,
                    s,
                    fuel,
                );
                let vars = translation_meaning::walked(m, own, blocks, start, n1).state.vars;
                match f {
                    FlowV::Next(_, _) => stands_on(own, k, g0, g, g1),
                    FlowV::Broke(env1, _) => agree_outside(g.scopes, env1, vars),
                    FlowV::Continued(env1, _) => agree_outside(g.scopes, env1, vars),
                    _ => {},
                }
                n1
            },
            BlockItemV::Decl(DeclV::Const(defs)) => const_defs_walk(
                m,
                own,
                calls,
                blocks,
                names,
                k,
                g0,
                g,
                env,
                st,
                defs,
                0,
            ),
            BlockItemV::Decl(DeclV::Var(defs)) => var_defs_walk(
                m,
                own,
                calls,
                blocks,
                names,
                k,
                g0,
                g,
                env,
                st,
                defs,
                0,
            ),
        };
        let c = translation_meaning::walked(m, own, blocks, start, n1);
        match f {
            FlowV::Next(env1, w1) => {
                let n2 = items_walk(
                    m,
                    own,
                    calls,
                    blocks,
                    names,
                    k,
                    g0,
                    g1,
                    env1,
                    c.state,
                    items,
                    i + 1,
                    fuel,
                );
                translation_meaning::walked_on(m, own, blocks, start, n1, n2);
                n1 + n2
            },
            _ => n1,
        }
    } else {
        0
    }
}

/// What goes on from the end of a conditional goes on from all its stages.
proof fn if_goes_on(blocks: Seq<BlockV>, names: Seq<Seq<char>>, g: GenV, s: StmtV)
    requires
        translation_blocks::open_at(g),
        s is If,
        stmt_well_named(g, s),
        translate::stmt(g, s) matches Ok(h) && translation_meaning::continues(blocks, names, h),
    ensures
        ({
            let z = if_stages(g, s)->0;
            &&& translation_meaning::continues(blocks, names, z.g1)
            &&& translation_meaning::continues(blocks, names, z.g2)
            &&& translation_meaning::continues(
                blocks,
                names,
                z.g2.emit(if_branch(z, s->else_branch is Some)),
            )
            &&& translation_meaning::continues(blocks, names, z.g3)
            &&& translation_meaning::continues(blocks, names, z.g4)
            &&& translation_meaning::continues(blocks, names, z.g5)
            &&& s->else_branch matches Some(els) ==> translation_meaning::continues(
                blocks,
                names,
                z.g5.start(z.no),
            ) && translation_meaning::continues(
                blocks,
                names,
                translate::stmt(z.g5.start(z.no), *els)->Ok_0,
            )
        }),
{
    let h = translate::stmt(g, s)->Ok_0;
    if_in_stages(g, s);
    let z = if_stages(g, s)->0;
    if_stages_are_tidy(g, s);
    if_stages_grow(g, s);
    if_grows(g, s);
    let g2b = z.g2.emit(if_branch(z, s->else_branch is Some));
    match s->else_branch {
        None => translation_meaning::continues_before(blocks, names, z.g5, h),
        Some(els) => {
            let g5n = z.g5.start(z.no);
            let g6 = translate::stmt(g5n, *els)->Ok_0;
            let g7 = translate::jump_on(g6, z.end);
            if !(z.g4.b.terminated && g6.b.terminated) {
                translation_meaning::continues_before(blocks, names, g7, h);
                translation_meaning::continues_before(blocks, names, g6, g7);
            }
            translation_meaning::continues_before(blocks, names, g5n, g6);
            translation_meaning::continues_before(blocks, names, z.g5, g5n);
        },
    }
    translation_meaning::continues_before(blocks, names, z.g4, z.g5);
    translation_meaning::continues_before(blocks, names, z.g3, z.g4);
    translation_meaning::continues_before(blocks, names, g2b, z.g3);
    translation_meaning::continues_before(blocks, names, z.g2, g2b);
    translation_meaning::continues_before(blocks, names, z.g1, z.g2);
}

/// The instructions of a conditional do what it says.
proof fn if_walks<W>(
    m: MachineV<W>,
    own: Set<usize>,
    calls: Calls<W>,
    blocks: Seq<BlockV>,
    names: Seq<Seq<char>>,
    k: usize,
    g0: GenV,
    g: GenV,
    env: Env,
    st: StateV<W>,
    s: StmtV,
    fuel: nat,
) -> (n: nat)
    requires
        translation_meaning::ready(m, own, calls, blocks, names, k),
        stands(own, k, g0, g),
        agree(g.scopes, env, st.vars),
        s is If,
        stmt_well_named(g, s),
        translate::stmt(g, s) matches Ok(h) && translation_meaning::continues(blocks, names, h),
    ensures
        led(
            m,
            blocks,
            g,
            translate::stmt(g, s)->Ok_0,
            translation_meaning::walked(m, own, blocks, translation_meaning::here(g, st), n),
            carried_out(m, calls, g0, g, env, st.world, s, fuel),
        ),
    decreases fuel, s, 2int,
{
    let h = translate::stmt(g, s)->Ok_0;
    if_in_stages(g, s);
    let z = if_stages(g, s)->0;
    if_stages_are_tidy(g, s);
    if_stages_grow(g, s);
    if_grows(g, s);
    let cond = s->If_cond;
    let then_branch = *s->then_branch;
    let br = if_branch(z, s->else_branch is Some);
    let g2b = z.g2.emit(br);
    if_goes_on(blocks, names, g, s);
    if !has_values(env, cond) {
        0
    } else {
        // The condition and the branch.
        let start = translation_meaning::here(g, st);
        alongside_itself(g);
        let n1 = value_walks(m, own, calls, blocks, names, k, g0, g, g, env, st, cond);
        let r1 = worth(m, calls, g0, env, st.world, cond)->0;
        let t = translation_meaning::walked(m, own, blocks, start, n1).state;
        translation_meaning::labels_grow(z.g1);
        translation_meaning::emit_grows(z.g2, br);
        assert(translation_meaning::here(z.g1, t) == translation_meaning::here(z.g2, t));
        translation_meaning::branch_walked(m, own, blocks, names, z.g2, g2b, br, t);
        translation_meaning::walked_on(m, own, blocks, start, n1, 1);
        let b = n1 + 1;
        if r1.1 != 0 {
            translation_meaning::start_grows(g2b, z.yes);
            translation_meaning::label_is_here(blocks, names, z.g3, z.yes, t);
            stands_on(own, k, g0, g, z.g3);
            let n2 = stmt_walks(
                m,
                own,
                calls,
                blocks,
                names,
                k,
                g0,
                z.g3,
                env,
                t,
                then_branch,
                fuel,
            );
            translation_meaning::walked_on(m, own, blocks, start, b, n2);
            grown_is_widened(z.g3, z.g4);
            if_ends(m, own, calls, blocks, names, k, g0, g, st, s, z.g4, b + n2, carried_out(
                m,
                calls,
                g0,
                z.g3,
                env,
                r1.0,
                then_branch,
                fuel,
            ))
        } else {
            match s->else_branch {
                None => {
                    translation_meaning::start_grows(z.g5, z.end);
                    translation_meaning::label_is_here(blocks, names, h, z.end, t);
                    grown_is_widened(g, z.g5);
                    b
                },
                Some(els) => {
                    let g5n = z.g5.start(z.no);
                    let g6 = translate::stmt(g5n, *els)->Ok_0;
                    translation_meaning::start_grows(z.g5, z.no);
                    translation_meaning::label_is_here(blocks, names, g5n, z.no, t);
                    translation_meaning::grown_on(g, z.g5, g5n);
                    stands_on(own, k, g0, g, g5n);
                    let n2 = stmt_walks(
                        m,
                        own,
                        calls,
                        blocks,
                        names,
                        k,
                        g0,
                        g5n,
                        env,
                        t,
                        *els,
                        fuel,
                    );
                    translation_meaning::walked_on(m, own, blocks, start, b, n2);
                    grown_is_widened(g5n, g6);
                    if_ends(m, own, calls, blocks, names, k, g0, g, st, s, g6, b + n2, carried_out(
                        m,
                        calls,
                        g0,
                        g5n,
                        env,
                        r1.0,
                        *els,
                        fuel,
                    ))
                },
            }
        }
    }
}

/// The end of a branch of a conditional leads to the end of the conditional.
proof fn if_ends<W>(
    m: MachineV<W>,
    own: Set<usize>,
    calls: Calls<W>,
    blocks: Seq<BlockV>,
    names: Seq<Seq<char>>,
    k: usize,
    g0: GenV,
    g: GenV,
    st: StateV<W>,
    s: StmtV,
    last: GenV,
    n1: nat,
    f: FlowV<W>,
) -> (n: nat)
    requires
        translation_meaning::ready(m, own, calls, blocks, names, k),
        stands(own, k, g0, g),
        s is If,
        stmt_well_named(g, s),
        translate::stmt(g, s) matches Ok(h) && translation_meaning::continues(blocks, names, h),
        if_stages(g, s) is Some,
        last == if_stages(g, s)->0.g4 || (s->else_branch is Some && translate::stmt(
            if_stages(g, s)->0.g5.start(if_stages(g, s)->0.no),
            *(s->else_branch->0),
        ) == Ok::<GenV, ErrorView>(last)),
        last.scopes == g.scopes,
        led(
            m,
            blocks,
            g,
            last,
            translation_meaning::walked(m, own, blocks, translation_meaning::here(g, st), n1),
            f,
        ),
    ensures
        led(
            m,
            blocks,
            g,
            translate::stmt(g, s)->Ok_0,
            translation_meaning::walked(m, own, blocks, translation_meaning::here(g, st), n),
            f,
        ),
{
    let h = translate::stmt(g, s)->Ok_0;
    if f is Next {
        if_in_stages(g, s);
        let z = if_stages(g, s)->0;
        if_stages_are_tidy(g, s);
        if_grows(g, s);
        grown_is_widened(g, h);
        let start = translation_meaning::here(g, st);
        let t = translation_meaning::walked(m, own, blocks, start, n1).state;
        let jumped = last.emit(InstV::Jump { target: z.end });
        // The jump from the branch is there.
        match s->else_branch {
            None => {
                translation_meaning::start_grows(z.g5, z.end);
                translation_meaning::continues_before(blocks, names, z.g5, h);
            },
            Some(els) => {
                let g5n = z.g5.start(z.no);
                let g6 = translate::stmt(g5n, *els)->Ok_0;
                let g7 = translate::jump_on(g6, z.end);
                translation_meaning::start_grows(g7, z.end);
                translation_meaning::continues_before(blocks, names, g7, h);
                translation_meaning::continues_before(blocks, names, g6, g7);
                translation_meaning::continues_before(blocks, names, g5n, g6);
                translation_meaning::continues_before(blocks, names, z.g5, g5n);
            },
        }
        assert(translation_meaning::continues(blocks, names, jumped));
        jump_walks(m, own, blocks, names, last, h, z.end, t);
        translation_meaning::walked_on(m, own, blocks, start, n1, 1);
        n1 + 1
    } else {
        n1
    }
}

/// The instructions of a loop do what it says.
proof fn while_walks<W>(
    m: MachineV<W>,
    own: Set<usize>,
    calls: Calls<W>,
    blocks: Seq<BlockV>,
    names: Seq<Seq<char>>,
    k: usize,
    g0: GenV,
    g: GenV,
    env: Env,
    st: StateV<W>,
    s: StmtV,
    fuel: nat,
) -> (n: nat)
    requires
        translation_meaning::ready(m, own, calls, blocks, names, k),
        stands(own, k, g0, g),
        agree(g.scopes, env, st.vars),
        s is While,
        stmt_well_named(g, s),
        translate::stmt(g, s) matches Ok(h) && translation_meaning::continues(blocks, names, h),
    ensures
        led(
            m,
            blocks,
            g,
            translate::stmt(g, s)->Ok_0,
            translation_meaning::walked(m, own, blocks, translation_meaning::here(g, st), n),
            carried_out(m, calls, g0, g, env, st.world, s, fuel),
        ),
    decreases fuel, s, 2int,
{
    while_in_stages(g, s);
    let z = while_stages(g, s)->0;
    while_stages_are_tidy(g, s);
    while_stages_grow(g, s);
    while_goes_on(blocks, names, g, s);
    let jump = InstV::Jump { target: z.entry };
    translation_meaning::labels_grow(g);
    translation_meaning::start_grows(z.g1.emit(jump), z.entry);
    assert(translation_meaning::here(z.g1, st) == translation_meaning::here(g, st));
    jump_walks(m, own, blocks, names, z.g1, z.top, z.entry, st);
    let n = loop_walks(m, own, calls, blocks, names, k, g0, g, env, st, s, fuel);
    translation_meaning::walked_on(m, own, blocks, translation_meaning::here(g, st), 1, n);
    1 + n
}

/// What goes on from the end of a loop goes on from all its stages.
proof fn while_goes_on(blocks: Seq<BlockV>, names: Seq<Seq<char>>, g: GenV, s: StmtV)
    requires
        translation_blocks::open_at(g),
        s is While,
        stmt_well_named(g, s),
        translate::stmt(g, s) matches Ok(h) && translation_meaning::continues(blocks, names, h),
    ensures
        ({
            let z = while_stages(g, s)->0;
            &&& translation_meaning::continues(
                blocks,
                names,
                z.g1.emit(InstV::Jump { target: z.entry }),
            )
            &&& translation_meaning::continues(blocks, names, z.top)
            &&& translation_meaning::continues(blocks, names, z.g2)
            &&& translation_meaning::continues(blocks, names, z.g3)
            &&& translation_meaning::continues(blocks, names, z.g4)
            &&& translation_meaning::continues(blocks, names, z.g5)
            &&& translation_meaning::continues(
                blocks,
                names,
                translate::jump_on(z.g5, z.entry),
            )
            &&& translation_meaning::continues(blocks, names, z.out)
        }),
{
    while_in_stages(g, s);
    let z = while_stages(g, s)->0;
    while_stages_are_tidy(g, s);
    while_stages_grow(g, s);
    while_grows(g, s);
    let go = z.g1.emit(InstV::Jump { target: z.entry });
    let g6 = translate::jump_on(z.g5, z.entry);
    translation_meaning::continues_from(blocks, names, g6, z.out);
    translation_meaning::continues_before(blocks, names, z.g5, g6);
    translation_meaning::continues_before(blocks, names, z.g4, z.g5);
    translation_meaning::continues_from(blocks, names, z.g3, z.g4);
    translation_meaning::continues_before(blocks, names, z.g2, z.g3);
    translation_meaning::continues_before(blocks, names, z.top, z.g2);
    translation_meaning::continues_before(blocks, names, go, z.top);
}

/// From the start of a loop, its instructions do what it says.
proof fn loop_walks<W>(
    m: MachineV<W>,
    own: Set<usize>,
    calls: Calls<W>,
    blocks: Seq<BlockV>,
    names: Seq<Seq<char>>,
    k: usize,
    g0: GenV,
    g: GenV,
    env: Env,
    st: StateV<W>,
    s: StmtV,
    fuel: nat,
) -> (n: nat)
    requires
        translation_meaning::ready(m, own, calls, blocks, names, k),
        stands(own, k, g0, g),
        agree(g.scopes, env, st.vars),
        s is While,
        stmt_well_named(g, s),
        translate::stmt(g, s) matches Ok(h) && translation_meaning::continues(blocks, names, h),
    ensures
        led(
            m,
            blocks,
            g,
            translate::stmt(g, s)->Ok_0,
            translation_meaning::walked(
                m,
                own,
                blocks,
                translation_meaning::here(while_stages(g, s)->0.top, st),
                n,
            ),
            carried_out(m, calls, g0, g, env, st.world, s, fuel),
        ),
    decreases fuel, s, 1int,
{
    while_in_stages(g, s);
    let z = while_stages(g, s)->0;
    while_stages_are_tidy(g, s);
    while_stages_grow(g, s);
    while_goes_on(blocks, names, g, s);
    while_grows(g, s);
    grown_is_widened(g, z.out);
    let cond = s->While_cond;
    let body = *s->body;
    let start = translation_meaning::here(z.top, st);
    if fuel == 0 || !has_values(env, cond) {
        0
    } else {
        stands_on(own, k, g0, g, z.top);
        alongside_itself(z.top);
        let n1 = value_walks(m, own, calls, blocks, names, k, g0, z.top, z.top, env, st, cond);
        let r1 = worth(m, calls, g0, env, st.world, cond)->0;
        let t = translation_meaning::walked(m, own, blocks, start, n1).state;
        let br = InstV::Br { cond: z.c, then_bb: z.inside, else_bb: z.end };
        translation_meaning::emit_grows(z.g2, br);
        translation_meaning::branch_walked(m, own, blocks, names, z.g2, z.g3, br, t);
        translation_meaning::walked_on(m, own, blocks, start, n1, 1);
        let b = n1 + 1;
        let g6 = translate::jump_on(z.g5, z.entry);
        let g7 = GenV { loops: z.g5.loops.drop_last(), ..g6 };
        translation_blocks::same_blocks(g6, g7);
        translation_meaning::start_grows(g7, z.end);
        if r1.1 == 0 {
            translation_meaning::label_is_here(blocks, names, z.out, z.end, t);
            b
        } else {
            let inner = GenV { loops: z.g3.loops.push((z.entry, z.end)), ..z.g3 };
            translation_blocks::same_blocks(z.g3, inner);
            translation_meaning::start_grows(inner, z.inside);
            translation_meaning::label_is_here(blocks, names, z.g4, z.inside, t);
            assert(stands(own, k, g0, z.g4)) by {
                translation_meaning::same_scopes(g, z.g3);
                placed_on(own, g, z.g4);
            }
            let n2 = stmt_walks(
                m,
                own,
                calls,
                blocks,
                names,
                k,
                g0,
                z.g4,
                env,
                t,
                body,
                fuel,
            );
            translation_meaning::walked_on(m, own, blocks, start, b, n2);
            let c = translation_meaning::walked(m, own, blocks, start, b + n2);
            assert(z.g4.loops.last() == (z.entry, z.end));
            grown_is_widened(z.g4, z.g5);
            translation_meaning::start_grows(
                z.g1.emit(InstV::Jump { target: z.entry }),
                z.entry,
            );
            match carried_out(m, calls, g0, z.g4, env, r1.0, body, fuel) {
                FlowV::Next(env2, w2) => {
                    jump_walks(m, own, blocks, names, z.g5, z.top, z.entry, c.state);
                    translation_meaning::walked_on(m, own, blocks, start, b + n2, 1);
                    let n3 = loop_walks(
                        m,
                        own,
                        calls,
                        blocks,
                        names,
                        k,
                        g0,
                        g,
                        env2,
                        c.state,
                        s,
                        (fuel - 1) as nat,
                    );
                    translation_meaning::walked_on(m, own, blocks, start, b + n2 + 1, n3);
                    b + n2 + 1 + n3
                },
                FlowV::Continued(env2, w2) => {
                    translation_meaning::label_is_here(blocks, names, z.top, z.entry, c.state);
                    let n3 = loop_walks(
                        m,
                        own,
                        calls,
                        blocks,
                        names,
                        k,
                        g0,
                        g,
                        env2,
                        c.state,
                        s,
                        (fuel - 1) as nat,
                    );
                    translation_meaning::walked_on(m, own, blocks, start, b + n2, n3);
                    b + n2 + n3
                },
                FlowV::Broke(env2, w2) => {
                    translation_meaning::label_is_here(blocks, names, z.out, z.end, c.state);
                    b + n2
                },
                _ => b + n2,
            }
        }
    }
}

/// The instructions that a statement is translated to do what the statement says, in
/// blocks that go on from them: where the statement ends, they lead to the next statement, out of
/// the innermost loop, back to its start, or to a return, with the values of names and the world as
/// the statement leaves them. A name stands for the variable of the innermost scope that declares
/// it. Loops may go round any number of times; nothing is said of a statement that uses a variable
/// without a value.
pub proof fn translated_statement_carried_out<W>(
    m: MachineV<W>,
    own: Set<usize>,
    calls: Calls<W>,
    blocks: Seq<BlockV>,
    names: Seq<Seq<char>>,
    g: GenV,
    s: StmtV,
    env: Env,
    st: StateV<W>,
    fuel: nat,
)
    requires
        translation_meaning::ready(m, own, calls, blocks, names, g.b.global_counter),
        translation_blocks::open_at(g),
        g.scopes.len() > 0,
        placed(own, g),
        agree(g.scopes, env, st.vars),
        stmt_well_named(g, s),
        translate::stmt(g, s) matches Ok(h) && translation_meaning::continues(blocks, names, h),
    ensures
        exists|n: nat|
            led(
                m,
                blocks,
                g,
                translate::stmt(g, s)->Ok_0,
                #[trigger] translation_meaning::walked(
                    m,
                    own,
                    blocks,
                    translation_meaning::here(g, st),
                    n,
                ),
                carried_out(m, calls, g, g, env, st.world, s, fuel),
            ),
{
    let n = stmt_walks(
        m,
        own,
        calls,
        blocks,
        names,
        g.b.global_counter,
        g,
        g,
        env,
        st,
        s,
        fuel,
    );
    let c = translation_meaning::walked(m, own, blocks, translation_meaning::here(g, st), n);
    assert(led(
        m,
        blocks,
        g,
        translate::stmt(g, s)->Ok_0,
        c,
        carried_out(m, calls, g, g, env, st.world, s, fuel),
    ));
}

/// The instructions that the declarations and statements of a block, or of the body of a function,
/// are translated to do what they say, one after the other.
pub proof fn translated_items_carried_out<W>(
    m: MachineV<W>,
    own: Set<usize>,
    calls: Calls<W>,
    blocks: Seq<BlockV>,
    names: Seq<Seq<char>>,
    g: GenV,
    items: Seq<BlockItemV>,
    env: Env,
    st: StateV<W>,
    fuel: nat,
)
    requires
        translation_meaning::ready(m, own, calls, blocks, names, g.b.global_counter),
        translation_blocks::open_at(g),
        g.scopes.len() > 0,
        placed(own, g),
        agree(g.scopes, env, st.vars),
        items_well_named(g, items, 0),
        translate::block(g, items, 0) matches Ok(h) && translation_meaning::continues(
            blocks,
            names,
            h,
        ),
    ensures
        exists|n: nat|
            all_led(
                m,
                blocks,
                g,
                translate::block(g, items, 0)->Ok_0,
                #[trigger] translation_meaning::walked(
                    m,
                    own,
                    blocks,
                    translation_meaning::here(g, st),
                    n,
                ),
                all_carried_out(m, calls, g, g, env, st.world, items, 0, fuel),
            ),
{
    let n = items_walk(
        m,
        own,
        calls,
        blocks,
        names,
        g.b.global_counter,
        g,
        g,
        env,
        st,
        items,
        0,
        fuel,
    );
    let c = translation_meaning::walked(m, own, blocks, translation_meaning::here(g, st), n);
    assert(all_led(
        m,
        blocks,
        g,
        translate::block(g, items, 0)->Ok_0,
        c,
        all_carried_out(m, calls, g, g, env, st.world, items, 0, fuel),
    ));
}

} // verus!
